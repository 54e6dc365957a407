//! Terminal colours as plain values, and colour names resolved through the
//! `colored` crate.

use std::str::FromStr;
use colored::Color as C;
use self::ColorCode as K;
use vstd::prelude::*;
use vstd::utf8::{encode_utf8, is_char_boundary};

verus! {

/// A terminal colour: one value for each colour that `colored::Color` can hold.
#[derive(Clone, Copy, Debug, PartialEq, Eq, Structural)]
pub enum ColorCode {
    Black,
    Red,
    Green,
    Yellow,
    Blue,
    Magenta,
    Cyan,
    White,
    BrightBlack,
    BrightRed,
    BrightGreen,
    BrightYellow,
    BrightBlue,
    BrightMagenta,
    BrightCyan,
    BrightWhite,
    AnsiColor(u8),
    TrueColor { r: u8, g: u8, b: u8 },
}

/// What `colored::Color::from_str` gives for the name `name`, mapped to
/// [`ColorCode`] (`None` where it returns its error).
pub uninterp spec fn colored_from_str(name: Seq<char>) -> Option<ColorCode>;

/// All characters of `s` are ASCII.
pub open spec fn all_ascii(s: Seq<char>) -> bool {
    forall|i: int| 0 <= i < s.len() ==> s[i] <= '\u{7f}'
}

/// ASCII lower case of one character.
pub open spec fn ascii_lower_char(c: char) -> char {
    if 'A' <= c && c <= 'Z' {
        ((c as u32) + 32) as char
    } else {
        c
    }
}

/// ASCII lower case of a string (the same as Unicode lower case on ASCII text).
pub open spec fn ascii_lower(s: Seq<char>) -> Seq<char> {
    s.map_values(|c: char| ascii_lower_char(c))
}

/// The value of a lower-case hexadecimal digit.
pub open spec fn hex_digit(c: char) -> Option<nat> {
    if '0' <= c && c <= '9' {
        Some((c as u32 - '0' as u32) as nat)
    } else if 'a' <= c && c <= 'f' {
        Some((c as u32 - 'a' as u32 + 10) as nat)
    } else {
        None
    }
}

/// `u8::from_str_radix(.., 16)` on a two-character string `a b`: an optional
/// leading `+` followed by hexadecimal digits.
pub open spec fn hex_pair(a: char, b: char) -> Option<nat> {
    if a == '+' {
        hex_digit(b)
    } else {
        match (hex_digit(a), hex_digit(b)) {
            (Some(x), Some(y)) => Some(16 * x + y),
            _ => None,
        }
    }
}

/// The colour written as `rrggbb` or `rgb` in hexadecimal (after a `#`).
pub open spec fn hex_color(h: Seq<char>) -> Option<ColorCode> {
    if h.len() == 6 {
        match (hex_pair(h[0], h[1]), hex_pair(h[2], h[3]), hex_pair(h[4], h[5])) {
            (Some(r), Some(g), Some(b)) => Some(ColorCode::TrueColor { r: r as u8, g: g as u8, b: b as u8 }),
            _ => None,
        }
    } else if h.len() == 3 {
        match (hex_digit(h[0]), hex_digit(h[1]), hex_digit(h[2])) {
            (Some(r), Some(g), Some(b)) => Some(ColorCode::TrueColor { r: (17 * r) as u8, g: (17 * g) as u8, b: (17 * b) as u8 }),
            _ => None,
        }
    } else {
        None
    }
}

/// The colour that an ASCII name denotes, ignoring case: one of the sixteen
/// names (`"purple"` too for magenta), or `#` and a hexadecimal colour.
pub open spec fn ascii_color(name: Seq<char>) -> Option<ColorCode> {
    let l = ascii_lower(name);
    if l == "black"@ { Some(ColorCode::Black) }
    else if l == "red"@ { Some(ColorCode::Red) }
    else if l == "green"@ { Some(ColorCode::Green) }
    else if l == "yellow"@ { Some(ColorCode::Yellow) }
    else if l == "blue"@ { Some(ColorCode::Blue) }
    else if l == "magenta"@ || l == "purple"@ { Some(ColorCode::Magenta) }
    else if l == "cyan"@ { Some(ColorCode::Cyan) }
    else if l == "white"@ { Some(ColorCode::White) }
    else if l == "bright black"@ { Some(ColorCode::BrightBlack) }
    else if l == "bright red"@ { Some(ColorCode::BrightRed) }
    else if l == "bright green"@ { Some(ColorCode::BrightGreen) }
    else if l == "bright yellow"@ { Some(ColorCode::BrightYellow) }
    else if l == "bright blue"@ { Some(ColorCode::BrightBlue) }
    else if l == "bright magenta"@ { Some(ColorCode::BrightMagenta) }
    else if l == "bright cyan"@ { Some(ColorCode::BrightCyan) }
    else if l == "bright white"@ { Some(ColorCode::BrightWhite) }
    else if l.len() > 0 && l[0] == '#' { hex_color(l.drop_first()) }
    else { None }
}

/// The Unicode lower case of `s`, as `str::to_lowercase` gives it.
pub uninterp spec fn lowercased(s: Seq<char>) -> Seq<char>;

/// Lower-cases `s` with `str::to_lowercase`. The result is the named value
/// `lowercased(s)`; on ASCII text it is the ASCII lower case, since the
/// Unicode lower-case mapping of ASCII letters is `A`..`Z` to `a`..`z` and
/// leaves other ASCII characters alone. The mapping of other characters is
/// left unstated.
#[verifier::external_body]
fn to_lowercase(s: &str) -> (r: String)
    ensures
        r@ == lowercased(s@),
        all_ascii(s@) ==> r@ == ascii_lower(s@),
{
    s.to_lowercase()
}

/// The lower case of a name: the ASCII lower case for an ASCII name, and
/// what `str::to_lowercase` gives otherwise.
pub open spec fn lower_case(name: Seq<char>) -> Seq<char> {
    if all_ascii(name) {
        ascii_lower(name)
    } else {
        lowercased(name)
    }
}

/// The value of a byte that is a lower-case hexadecimal digit.
pub open spec fn hex_digit_byte(b: u8) -> Option<nat> {
    if 0x30 <= b && b <= 0x39 {
        Some((b - 0x30) as nat)
    } else if 0x61 <= b && b <= 0x66 {
        Some((b - 0x61 + 10) as nat)
    } else {
        None
    }
}

/// `u8::from_str_radix(.., 16)` succeeds on the two bytes `b0 b1`: an
/// optional `+` and hexadecimal digits.
pub open spec fn hex_pair_bytes_ok(b0: u8, b1: u8) -> bool {
    if b0 == 0x2b {
        hex_digit_byte(b1) is Some
    } else {
        hex_digit_byte(b0) is Some && hex_digit_byte(b1) is Some
    }
}

/// The byte slicing that `colored` does on the text `h` after a `#` stays on
/// character boundaries. Six bytes are cut at 2 and, once the first pair has
/// parsed, at 4; three bytes are cut at 1 and, once the first digit has
/// parsed, at 2; other lengths are not cut.
pub open spec fn hex_slicing_safe(h: Seq<u8>) -> bool {
    if h.len() == 6 {
        is_char_boundary(h, 2) && (hex_pair_bytes_ok(h[0], h[1]) ==> is_char_boundary(h, 4))
    } else if h.len() == 3 {
        is_char_boundary(h, 1) && (hex_digit_byte(h[0]) is Some ==> is_char_boundary(h, 2))
    } else {
        true
    }
}

/// Exactly the names on which `colored::Color::from_str` does not panic: its
/// lower-cased text (in UTF-8) does not start with `#`, or the slicing of
/// what follows the `#` stays on character boundaries.
pub open spec fn color_name_safe(name: Seq<char>) -> bool {
    let b = encode_utf8(lower_case(name));
    b.len() > 0 && b[0] == 0x23 ==> hex_slicing_safe(b.subrange(1, b.len() as int))
}

/// Resolves a colour name with `colored::Color::from_str`.
///
/// The result is the named value `colored_from_str(name)`; on ASCII names it
/// is `ascii_color(name)`, as the crate's source shows (lower-casing, the
/// sixteen names and `purple`, `#rrggbb` and `#rgb` read by
/// `u8::from_str_radix`). For non-ASCII names the crate lower-cases with full
/// Unicode rules, which is left unstated. Names on which the crate's byte
/// slicing of a `#` colour would cut inside a character (where it panics)
/// are left out.
#[verifier::external_body]
pub(crate) fn colored_color_from_name(name: &str) -> (res: Option<ColorCode>)
    requires
        color_name_safe(name@),
    ensures
        res == colored_from_str(name@),
        all_ascii(name@) ==> res == ascii_color(name@),
{
    match C::from_str(name) {
        Err(()) => None,
        Ok(c) => Some(match c {
            C::Black => K::Black, C::Red => K::Red, C::Green => K::Green, C::Yellow => K::Yellow,
            C::Blue => K::Blue, C::Magenta => K::Magenta, C::Cyan => K::Cyan, C::White => K::White,
            C::BrightBlack => K::BrightBlack, C::BrightRed => K::BrightRed,
            C::BrightGreen => K::BrightGreen, C::BrightYellow => K::BrightYellow,
            C::BrightBlue => K::BrightBlue, C::BrightMagenta => K::BrightMagenta,
            C::BrightCyan => K::BrightCyan, C::BrightWhite => K::BrightWhite,
            C::AnsiColor(n) => K::AnsiColor(n), C::TrueColor { r, g, b } => K::TrueColor { r, g, b },
        }),
    }
}

/// `colored` never panics on an ASCII name: its lower case is ASCII, so
/// every byte cut falls on a character boundary.
pub proof fn lemma_ascii_name_safe(name: Seq<char>)
    ensures
        all_ascii(name) ==> color_name_safe(name),
{
    if all_ascii(name) {
        let l = ascii_lower(name);
        assert(vstd::utf8::is_ascii_chars(l)) by {
            assert forall|i: int| 0 <= i < l.len() implies '\0' <= #[trigger] l[i] <= '\u{7f}' by {
                assert(name[i] <= '\u{7f}');
                assert(l[i] == ascii_lower_char(name[i]));
            }
        }
        vstd::utf8::is_ascii_chars_encode_utf8(l);
        let b = encode_utf8(l);
        if b.len() > 0 && b[0] == 0x23 {
            let t = l.drop_first();
            assert(l =~= seq![l[0]] + t);
            assert(vstd::utf8::is_ascii_chars(t)) by {
                assert forall|i: int| 0 <= i < t.len() implies '\0' <= #[trigger] t[i] <= '\u{7f}' by {
                    assert(t[i] == l[i + 1]);
                }
            }
            vstd::utf8::is_ascii_chars_encode_utf8(t);
            vstd::utf8::encode_utf8_valid_utf8(t);
            let h = encode_utf8(t);
            assert(b.subrange(1, b.len() as int) =~= h) by {
                assert forall|i: int| 0 <= i < h.len() implies b[i + 1] == h[i] by {
                    assert(b[i + 1] == l[i + 1] as u8);
                    assert(h[i] == t[i] as u8);
                }
            }
            assert forall|k: int| 0 <= k < h.len() implies is_char_boundary(h, k) by {
                vstd::utf8::is_char_boundary_iff_not_is_continuation_byte(h, k);
                assert(h[k] == t[k] as u8);
                assert(t[k] <= '\u{7f}');
                assert((t[k] as u8) <= 0x7f) by {
                    vstd::utf8::is_ascii_chars_nat_bound(t);
                }
            }
        }
    }
}

fn hex_digit_byte_exec(b: u8) -> (r: bool)
    ensures
        r == hex_digit_byte(b) is Some,
{
    (0x30 <= b && b <= 0x39) || (0x61 <= b && b <= 0x66)
}

/// Whether `name` is a colour name that `colored` reads without panicking.
pub fn color_name_safe_exec(name: &str) -> (r: bool)
    ensures
        r == color_name_safe(name@),
        all_ascii(name@) ==> r,
{
    proof { lemma_ascii_name_safe(name@); }
    let lower = to_lowercase(name);
    let s = lower.as_str();
    let b = s.as_bytes();
    let n = b.len();
    if n == 0 || b[0] != 0x23 {
        return true;
    }
    let ghost bb = b@;
    let ghost h = bb.subrange(1, n as int);
    proof {
        vstd::utf8::encode_utf8_valid_utf8(lower@);
        assert(vstd::utf8::length_of_first_scalar(bb) == 1);
        assert(vstd::utf8::pop_first_scalar(bb) =~= h);
        assert forall|k: int| 0 < k <= h.len() implies is_char_boundary(bb, k + 1) == is_char_boundary(h, k) by {
            assert(is_char_boundary(bb, k + 1) == is_char_boundary(vstd::utf8::pop_first_scalar(bb), k));
        }
    }
    if n - 1 == 6 {
        if !s.is_char_boundary(3) {
            return false;
        }
        let first_ok = if b[1] == 0x2b {
            hex_digit_byte_exec(b[2])
        } else {
            hex_digit_byte_exec(b[1]) && hex_digit_byte_exec(b[2])
        };
        assert(h[0] == b[1] && h[1] == b[2]);
        if first_ok {
            return s.is_char_boundary(5);
        }
        true
    } else if n - 1 == 3 {
        if !s.is_char_boundary(2) {
            return false;
        }
        assert(h[0] == b[1]);
        if hex_digit_byte_exec(b[1]) {
            return s.is_char_boundary(3);
        }
        true
    } else {
        true
    }
}

} // verus!
