//! Report lines computed from raw readings: uptime, graphics adapters, GTK
//! themes, battery, users and the device model.

use vstd::prelude::*;
use vstd::utf8::{encode_scalar, encode_utf8};
use crate::text::{
    chars_of, decimal, decimal_chars, lemma_split_nonempty, push_chars, push_str, remove_char,
    remove_char_chars, replace, replace_chars, split, split_chars, string_of, sub_chars, trim, trim_chars,
    trim_end, trim_start, lemma_replace_absent, lemma_replace_concat, lemma_replace_single,
    lemma_trim_idempotent,
};

verus! {

/// Whole hours in `rounded` seconds.
pub open spec fn total_hours(rounded: u32) -> nat {
    (rounded / 3600) as nat
}

/// Whole days of uptime.
pub open spec fn uptime_days(rounded: u32) -> nat {
    total_hours(rounded) / 24
}

/// Hours past the whole days.
pub open spec fn uptime_hours(rounded: u32) -> nat {
    (total_hours(rounded) - uptime_days(rounded) * 24) as nat
}

/// Minutes past the whole hours, counted from the truncated uptime.
pub open spec fn uptime_minutes(rounded: u32, whole: u32) -> nat {
    ((whole - total_hours(rounded) * 3600) / 60) as nat
}

/// The uptime text: days, hours and minutes when there is a whole day;
/// hours and minutes when there is a whole hour; otherwise minutes.
pub open spec fn uptime_text(rounded: u32, whole: u32) -> Seq<char> {
    let d = uptime_days(rounded);
    let h = uptime_hours(rounded);
    let m = uptime_minutes(rounded, whole);
    if d > 0 {
        decimal(d) + " days, "@ + decimal(h) + " hours, "@ + decimal(m) + " min"@
    } else if h > 0 {
        decimal(h) + " hours, "@ + decimal(m) + " mins"@
    } else {
        decimal(m) + " min"@
    }
}

/// The uptime in words. `rounded` is the uptime in seconds rounded to the
/// nearest second, `whole` the same uptime truncated; hours come from the
/// first and minutes from the second, which must not fall below the whole
/// hours (the subtraction would underflow).
pub fn uptime_time(rounded: u32, whole: u32) -> (res: String)
    requires
        whole >= (rounded / 3600) * 3600,
    ensures
        res@ == uptime_text(rounded, whole),
{
    let hour = rounded / 3600;
    let rem = whole - hour * 3600;
    let minutes = rem / 60;
    let day = hour / 24;
    let hour = hour - day * 24;
    let mut out: Vec<char> = Vec::new();
    if day > 0 {
        out = decimal_chars(day as u64);
        push_str(&mut out, " days, ");
        push_chars(&mut out, &decimal_chars(hour as u64));
        push_str(&mut out, " hours, ");
        push_chars(&mut out, &decimal_chars(minutes as u64));
        push_str(&mut out, " min");
    } else if hour > 0 {
        out = decimal_chars(hour as u64);
        push_str(&mut out, " hours, ");
        push_chars(&mut out, &decimal_chars(minutes as u64));
        push_str(&mut out, " mins");
    } else {
        out = decimal_chars(minutes as u64);
        push_str(&mut out, " min");
    }
    string_of(&out)
}

/// The days, hours and minutes shown add up to the uptime: the hours are
/// less than a day, the minutes less than an hour once the truncated uptime
/// is within the rounded one's hour, and days and hours together are the
/// whole hours of the rounded uptime.
pub proof fn lemma_uptime_parts(rounded: u32, whole: u32)
    requires
        whole >= (rounded / 3600) * 3600,
    ensures
        uptime_hours(rounded) < 24,
        uptime_days(rounded) * 24 + uptime_hours(rounded) == rounded / 3600,
        (uptime_days(rounded) * 24 + uptime_hours(rounded)) * 3600 <= rounded,
        whole < (rounded / 3600 + 1) * 3600 ==> uptime_minutes(rounded, whole) < 60,
{
}

/// The days, hours and minutes shown add up to the whole minutes of the
/// truncated uptime.
pub proof fn lemma_uptime_total_minutes(rounded: u32, whole: u32)
    requires
        whole >= (rounded / 3600) * 3600,
    ensures
        uptime_days(rounded) * 1440 + uptime_hours(rounded) * 60 + uptime_minutes(rounded, whole)
            == whole / 60,
{
    let hh = (rounded / 3600) as int;
    let w = whole as int;
    assert(uptime_days(rounded) * 24 + uptime_hours(rounded) == hh);
    assert(uptime_days(rounded) * 1440 + uptime_hours(rounded) * 60 == hh * 60);
    assert((w - hh * 3600) / 60 == w / 60 - hh * 60) by (nonlinear_arith)
        requires
            w >= hh * 3600,
            hh >= 0,
    {
        assert(w - hh * 3600 == (w / 60 - hh * 60) * 60 + w % 60);
    }
}

/// The form of the uptime text, by the whole hours `rounded / 3600`: from a
/// whole day on it always shows days, the hours past them (zero included)
/// and the minutes past the whole hours; from a whole hour on, hours and
/// minutes; below that, the whole minutes of the truncated uptime alone.
pub proof fn lemma_uptime_text_forms(rounded: u32, whole: u32)
    requires
        whole >= (rounded / 3600) * 3600,
    ensures
        rounded / 3600 >= 24 ==> uptime_text(rounded, whole) == decimal(((rounded / 3600) / 24) as nat)
            + " days, "@ + decimal(((rounded / 3600) % 24) as nat) + " hours, "@ + decimal(
            (whole / 60 - (rounded / 3600) * 60) as nat,
        ) + " min"@,
        1 <= rounded / 3600 < 24 ==> uptime_text(rounded, whole) == decimal((rounded / 3600) as nat)
            + " hours, "@ + decimal((whole / 60 - (rounded / 3600) * 60) as nat) + " mins"@,
        rounded / 3600 == 0 ==> uptime_text(rounded, whole) == decimal((whole / 60) as nat)
            + " min"@,
{
    let hh = (rounded / 3600) as int;
    let w = whole as int;
    assert((w - hh * 3600) / 60 == w / 60 - hh * 60) by (nonlinear_arith)
        requires
            w >= hh * 3600,
            hh >= 0,
    {
        assert(w - hh * 3600 == (w / 60 - hh * 60) * 60 + w % 60);
    }
    assert(uptime_minutes(rounded, whole) == (w / 60 - hh * 60) as nat);
    assert(uptime_days(rounded) == hh / 24);
    assert(uptime_hours(rounded) == hh % 24);
}

/// The uptime shown, counted in minutes, grows with the uptime.
pub proof fn lemma_uptime_monotone(r1: u32, w1: u32, r2: u32, w2: u32)
    requires
        w1 >= (r1 / 3600) * 3600,
        w2 >= (r2 / 3600) * 3600,
        w1 <= w2,
    ensures
        uptime_days(r1) * 1440 + uptime_hours(r1) * 60 + uptime_minutes(r1, w1) <= uptime_days(r2)
            * 1440 + uptime_hours(r2) * 60 + uptime_minutes(r2, w2),
{
    lemma_uptime_total_minutes(r1, w1);
    lemma_uptime_total_minutes(r2, w2);
    assert(w1 / 60 <= w2 / 60) by (nonlinear_arith)
        requires
            w1 <= w2,
    {}
}

/// The first space-separated field of `/proc/uptime`: the uptime in seconds.
pub fn uptime_field(contents: &str) -> (res: String)
    ensures
        res@ == split(contents@, ' ')[0],
{
    let fields = split_chars(&chars_of(contents), ' ');
    proof {
        lemma_split_nonempty(contents@, ' ');
        assert(fields@.map_values(|f: Vec<char>| f@)[0] == fields@[0]@);
    }
    string_of(&fields[0])
}

/// The adapters listed one per line, joined by `", "`.
pub open spec fn gpu_joined(output: Seq<char>) -> Seq<char> {
    replace(output, "\n"@, ", "@)
}

/// The number of bytes that `c` takes in UTF-8.
pub open spec fn utf8_width(c: char) -> nat {
    if c <= '\u{7f}' {
        1
    } else if c <= '\u{7ff}' {
        2
    } else if c <= '\u{ffff}' {
        3
    } else {
        4
    }
}

/// Cutting the last two bytes off `r` is possible: there are two bytes, and
/// the cut falls on a character boundary (two one-byte characters or one
/// two-byte character at the end).
pub open spec fn two_byte_cut_ok(r: Seq<char>) -> bool {
    ||| r.len() >= 2 && utf8_width(r.last()) == 1 && utf8_width(r[r.len() - 2]) == 1
    ||| r.len() >= 1 && utf8_width(r.last()) == 2
}

/// `r` without its last two bytes.
pub open spec fn two_byte_cut(r: Seq<char>) -> Seq<char> {
    if r.len() >= 1 && utf8_width(r.last()) == 2 {
        r.drop_last()
    } else {
        r.take(r.len() - 2)
    }
}

/// [`gpu_find`] returns on `output` (slicing off the last two bytes panics
/// otherwise).
pub open spec fn gpu_cut_ok(output: Seq<char>) -> bool {
    two_byte_cut_ok(gpu_joined(output))
}

proof fn lemma_encode_concat(a: Seq<char>, b: Seq<char>)
    ensures
        encode_utf8(a + b) == encode_utf8(a) + encode_utf8(b),
    decreases a.len(),
{
    if a.len() > 0 {
        lemma_encode_concat(a.drop_first(), b);
        assert((a + b).drop_first() =~= a.drop_first() + b);
        assert((a + b)[0] == a[0]);
        assert(encode_utf8(a + b) =~= encode_scalar(a[0] as u32) + (encode_utf8(a.drop_first())
            + encode_utf8(b)));
    } else {
        assert(a + b =~= b);
    }
}

proof fn lemma_encode_one(c: char)
    ensures
        encode_utf8(seq![c]).len() == utf8_width(c),
{
    let e = Seq::<char>::empty();
    assert(seq![c].drop_first() =~= e);
    assert(encode_utf8(e) == Seq::<u8>::empty());
    assert(seq![c][0] == c);
    assert(encode_utf8(seq![c]) =~= encode_scalar(c as u32) + encode_utf8(e));
    assert(encode_utf8(seq![c]) =~= encode_scalar(c as u32));
    vstd::utf8::char_is_scalar(c);
}

/// Cutting off the last two bytes as [`two_byte_cut`] does is the byte
/// slicing of the UTF-8 text: what remains encodes to all but the last two
/// bytes of the encoding.
pub proof fn lemma_two_byte_cut_is_byte_cut(r: Seq<char>)
    requires
        two_byte_cut_ok(r),
    ensures
        encode_utf8(two_byte_cut(r)) == encode_utf8(r).subrange(0, encode_utf8(r).len() - 2),
{
    let n = r.len() as int;
    if utf8_width(r.last()) == 2 {
        assert(r =~= r.drop_last() + seq![r.last()]);
        lemma_encode_concat(r.drop_last(), seq![r.last()]);
        lemma_encode_one(r.last());
        assert(encode_utf8(r).subrange(0, encode_utf8(r).len() - 2) =~= encode_utf8(r.drop_last()));
    } else {
        let t = r.take(n - 2);
        assert(r =~= t + (seq![r[n - 2]] + seq![r[n - 1]]));
        lemma_encode_concat(t, seq![r[n - 2]] + seq![r[n - 1]]);
        lemma_encode_concat(seq![r[n - 2]], seq![r[n - 1]]);
        lemma_encode_one(r[n - 2]);
        lemma_encode_one(r[n - 1]);
        assert(encode_utf8(r).subrange(0, encode_utf8(r).len() - 2) =~= encode_utf8(t));
    }
}

proof fn lemma_continuation_bytes(v: u32)
    by (bit_vector)
    ensures
        0x80 <= (0x80 | (v & 0x3F) as u8) <= 0xbf,
        0x80 <= (0x80 | ((v >> 6) & 0x3F) as u8) <= 0xbf,
        ((v & 0x7F) as u8) <= 0x7f,
        0xc0 <= (0xC0 | ((v >> 6) & 0x1F) as u8) <= 0xdf,
{
}

/// Of a character of width at least two, the second-to-last byte of its
/// encoding is a continuation byte when the width is at least three, and the
/// last byte always is.
proof fn lemma_encode_tail_bytes(c: char)
    ensures
        utf8_width(c) >= 2 ==> vstd::utf8::is_continuation_byte(encode_scalar(c as u32).last()),
        utf8_width(c) >= 3 ==> vstd::utf8::is_continuation_byte(
            encode_scalar(c as u32)[encode_scalar(c as u32).len() - 2],
        ),
        utf8_width(c) <= 2 ==> !vstd::utf8::is_continuation_byte(encode_scalar(c as u32)[0]),
{
    vstd::utf8::char_is_scalar(c);
    lemma_continuation_bytes(c as u32);
}

/// The last two bytes can be cut off a UTF-8 text exactly when
/// [`two_byte_cut_ok`] holds: there are two bytes, and the cut falls on a
/// character boundary.
pub proof fn lemma_two_byte_cut_ok_exact(r: Seq<char>)
    ensures
        two_byte_cut_ok(r) <==> ({
            let b = encode_utf8(r);
            b.len() >= 2 && vstd::utf8::is_char_boundary(b, b.len() - 2)
        }),
{
    let b = encode_utf8(r);
    let n = r.len() as int;
    vstd::utf8::encode_utf8_valid_utf8(r);
    if n == 0 {
        assert(b.len() == 0);
    } else {
        let t = r.drop_last();
        let c = r.last();
        assert(r =~= t + seq![c]);
        lemma_encode_concat(t, seq![c]);
        lemma_encode_one(c);
        let e = encode_utf8(seq![c]);
        assert(e =~= encode_scalar(c as u32)) by {
            let em = Seq::<char>::empty();
            assert(seq![c].drop_first() =~= em);
            assert(encode_utf8(em) == Seq::<u8>::empty());
            assert(encode_utf8(seq![c]) =~= encode_scalar(c as u32) + encode_utf8(em));
        }
        lemma_encode_tail_bytes(c);
        if b.len() >= 2 {
            vstd::utf8::is_char_boundary_iff_not_is_continuation_byte(b, b.len() - 2);
            if utf8_width(c) >= 3 {
                assert(b[b.len() - 2] == e[e.len() - 2]);
            } else if utf8_width(c) == 2 {
                assert(b[b.len() - 2] == e[0]);
            } else if utf8_width(c) == 1 {
                if n >= 2 {
                    let c2 = r[n - 2];
                    let u = t.drop_last();
                    assert(t =~= u + seq![c2]);
                    lemma_encode_concat(u, seq![c2]);
                    lemma_encode_one(c2);
                    let e2 = encode_utf8(seq![c2]);
                    assert(e2 =~= encode_scalar(c2 as u32)) by {
                        let em = Seq::<char>::empty();
                        assert(seq![c2].drop_first() =~= em);
                        assert(encode_utf8(em) == Seq::<u8>::empty());
                        assert(encode_utf8(seq![c2]) =~= encode_scalar(c2 as u32) + encode_utf8(em));
                    }
                    lemma_encode_tail_bytes(c2);
                    assert(b[b.len() - 2] == e2.last());
                    if utf8_width(c2) == 1 {
                        assert(e2.last() == e2[0]);
                    }
                } else {
                    assert(t.len() == 0);
                    assert(encode_utf8(t).len() == 0);
                }
            }
        }
    }
}

/// The number of bytes that `c` takes in UTF-8.
fn utf8_width_exec(c: char) -> (w: u8)
    ensures
        w == utf8_width(c),
{
    if c <= '\u{7f}' {
        1
    } else if c <= '\u{7ff}' {
        2
    } else if c <= '\u{ffff}' {
        3
    } else {
        4
    }
}

/// Whether the last two bytes of `r` can be cut off.
fn two_byte_cut_ok_exec(r: &Vec<char>) -> (b: bool)
    ensures
        b == two_byte_cut_ok(r@),
{
    let n = r.len();
    if n >= 1 && utf8_width_exec(r[n - 1]) == 2 {
        return true;
    }
    n >= 2 && utf8_width_exec(r[n - 1]) == 1 && utf8_width_exec(r[n - 2]) == 1
}

/// The joined adapter list of `lspci` output without its last two bytes
/// (the separator that the final line break became).
pub fn gpu_find(output: &str) -> (res: String)
    requires
        gpu_cut_ok(output@),
    ensures
        res@ == two_byte_cut(gpu_joined(output@)),
{
    proof { reveal_strlit("\n"); }
    let r = replace_chars(&chars_of(output), &chars_of("\n"), &chars_of(", "));
    let n = r.len();
    if n >= 1 && utf8_width_exec(r[n - 1]) == 2 {
        string_of(&sub_chars(&r, 0, n - 1))
    } else {
        string_of(&sub_chars(&r, 0, n - 2))
    }
}

/// Whether [`gpu_find`] accepts `output`.
pub fn gpu_find_accepts(output: &str) -> (b: bool)
    ensures
        b == gpu_cut_ok(output@),
{
    proof { reveal_strlit("\n"); }
    let r = replace_chars(&chars_of(output), &chars_of("\n"), &chars_of(", "));
    two_byte_cut_ok_exec(&r)
}

/// The GTK theme name from the settings line's value: the output with its
/// line breaks removed.
pub fn gtk_theme_find(output: &str) -> (res: String)
    ensures
        res@ == remove_char(output@, '\n'),
{
    string_of(&remove_char_chars(&chars_of(output), '\n'))
}

/// The GTK icon theme name: the output with its line breaks removed.
pub fn gtk_icon_find(output: &str) -> (res: String)
    ensures
        res@ == remove_char(output@, '\n'),
{
    string_of(&remove_char_chars(&chars_of(output), '\n'))
}

/// The battery percentage and state, each trimmed.
pub fn battery_percentage(percentage: &str, state: &str) -> (res: Option<(String, String)>)
    ensures
        res matches Some((p, s)) && p@ == trim(percentage@) && s@ == trim(state@),
{
    let p = string_of(&trim_chars(&chars_of(percentage)));
    let s = string_of(&trim_chars(&chars_of(state)));
    Some((p, s))
}

/// The user names, one per line, trimmed and joined by `", "`.
pub fn user_list(output: &str) -> (res: Option<String>)
    ensures
        res matches Some(u) && u@ == replace(trim(output@), "\n"@, ", "@),
{
    proof { reveal_strlit("\n"); }
    let t = trim_chars(&chars_of(output));
    Some(string_of(&replace_chars(&t, &chars_of("\n"), &chars_of(", "))))
}

/// The device model: product name and version read one after the other,
/// with every line break turned into a space.
pub fn device_model(product_name: &str, product_version: &str) -> (res: Option<String>)
    ensures
        res matches Some(m) && m@ == replace(product_name@ + product_version@, "\n"@, " "@),
{
    proof { reveal_strlit("\n"); }
    let mut v = chars_of(product_name);
    push_str(&mut v, product_version);
    Some(string_of(&replace_chars(&v, &chars_of("\n"), &chars_of(" "))))
}

/// With DMI files of one line each (a name and a non-empty version, each
/// without line breaks and already trimmed), the device model is the name
/// and version each followed by a space, and trimming its end gives the text
/// of the model line.
pub proof fn lemma_device_model_and_model_line(product_name: String, product_version: String)
    requires
        product_name@.len() > 0 && product_name@.last() == '\n',
        product_version@.len() > 1 && product_version@.last() == '\n',
        !product_name@.drop_last().contains('\n'),
        !product_version@.drop_last().contains('\n'),
        trim(product_name@.drop_last()) == product_name@.drop_last(),
        trim(product_version@.drop_last()) == product_version@.drop_last(),
    ensures
        replace(product_name@ + product_version@, "\n"@, " "@) == product_name@.drop_last() + " "@
            + product_version@.drop_last() + " "@,
        trim_end(replace(product_name@ + product_version@, "\n"@, " "@)) == crate::style::model_text(
            crate::style::ModelSource::Unix { product_name, product_version },
        ),
{
    reveal_strlit("\n");
    reveal_strlit(" ");
    let p = product_name@.drop_last();
    let v = product_version@.drop_last();
    let nl = seq!['\n'];
    let sp = seq![' '];
    assert("\n"@ =~= nl);
    assert(" "@ =~= sp);
    assert(product_name@ =~= p + nl);
    assert(product_version@ =~= v + nl);
    lemma_replace_concat(p + nl, v + nl, '\n', sp);
    lemma_replace_concat(p, nl, '\n', sp);
    lemma_replace_concat(v, nl, '\n', sp);
    lemma_replace_absent(p, '\n', sp);
    lemma_replace_absent(v, '\n', sp);
    lemma_replace_single('\n', sp);
    let d = p + sp + v + sp;
    assert(replace(product_name@ + product_version@, "\n"@, " "@) =~= d);
    // the model line trims each file
    lemma_trim_idempotent(p);
    lemma_trim_idempotent(v);
    assert(trim(p + nl) == p) by {
        if p.len() > 0 {
            assert((p + nl)[0] == p[0]);
            assert(trim_start(p + nl) == p + nl);
            assert((p + nl).drop_last() =~= p);
            assert(trim_start(p) == p);
        } else {
            assert(p + nl =~= nl);
            assert(trim_start(nl) == trim_start(nl.drop_first()));
            assert(nl.drop_first() =~= Seq::<char>::empty());
        }
    }
    assert(trim(v + nl) == v) by {
        assert((v + nl)[0] == v[0]);
        assert(trim_start(v + nl) == v + nl);
        assert((v + nl).drop_last() =~= v);
        assert(trim_start(v) == v);
    }
    assert(d.drop_last() =~= p + sp + v);
    assert((p + sp + v).last() == v.last());
    assert(trim_end(d) == trim_end(p + sp + v));
    assert(product_name@ == p + nl);
    assert(product_version@ == v + nl);
}

} // verus!
