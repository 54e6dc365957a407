//! Character-level text utilities with exact specifications: Unicode
//! whitespace trimming, pattern replacement, splitting and decimal rendering.

use vstd::prelude::*;
use vstd::utf8::{valid_utf8, decode_utf8};

verus! {

/// The Unicode `White_Space` property, which `char::is_whitespace` and
/// `str::trim` use.
pub open spec fn is_white_space(c: char) -> bool {
    ||| ('\u{9}' <= c && c <= '\u{d}')
    ||| c == ' '
    ||| c == '\u{85}'
    ||| c == '\u{a0}'
    ||| c == '\u{1680}'
    ||| ('\u{2000}' <= c && c <= '\u{200a}')
    ||| c == '\u{2028}'
    ||| c == '\u{2029}'
    ||| c == '\u{202f}'
    ||| c == '\u{205f}'
    ||| c == '\u{3000}'
}

/// `s` without its leading whitespace.
pub open spec fn trim_start(s: Seq<char>) -> Seq<char>
    decreases s.len(),
{
    if s.len() > 0 && is_white_space(s[0]) {
        trim_start(s.drop_first())
    } else {
        s
    }
}

/// `s` without its trailing whitespace.
pub open spec fn trim_end(s: Seq<char>) -> Seq<char>
    decreases s.len(),
{
    if s.len() > 0 && is_white_space(s.last()) {
        trim_end(s.drop_last())
    } else {
        s
    }
}

/// `s` without leading and trailing whitespace, as `str::trim` gives it.
pub open spec fn trim(s: Seq<char>) -> Seq<char> {
    trim_end(trim_start(s))
}

/// Every non-overlapping occurrence of `pat` in `s`, scanned from the left,
/// replaced by `rep` (as `str::replace` does for a non-empty pattern).
pub open spec fn replace(s: Seq<char>, pat: Seq<char>, rep: Seq<char>) -> Seq<char>
    decreases s.len(),
{
    if s.len() == 0 {
        seq![]
    } else if pat.len() > 0 && pat.len() <= s.len() && s.take(pat.len() as int) == pat {
        rep + replace(s.skip(pat.len() as int), pat, rep)
    } else {
        seq![s[0]] + replace(s.drop_first(), pat, rep)
    }
}

/// `pat` occurs in `s` at position `i`.
pub open spec fn occurs_at(s: Seq<char>, pat: Seq<char>, i: int) -> bool {
    0 <= i && i + pat.len() <= s.len() && s.subrange(i, i + pat.len()) == pat
}

/// `pat` occurs somewhere in `s`.
pub open spec fn contains(s: Seq<char>, pat: Seq<char>) -> bool {
    exists|i: int| occurs_at(s, pat, i)
}

/// The character that shows decimal digit `d`.
pub open spec fn digit_char(d: nat) -> char {
    if d == 0 { '0' }
    else if d == 1 { '1' }
    else if d == 2 { '2' }
    else if d == 3 { '3' }
    else if d == 4 { '4' }
    else if d == 5 { '5' }
    else if d == 6 { '6' }
    else if d == 7 { '7' }
    else if d == 8 { '8' }
    else { '9' }
}

/// The decimal rendering of `n`, without sign or leading zeros (as `to_string`).
pub open spec fn decimal(n: nat) -> Seq<char>
    decreases n,
{
    if n < 10 {
        seq![digit_char(n)]
    } else {
        decimal(n / 10).push(digit_char(n % 10))
    }
}

/// The value of a decimal digit character.
pub open spec fn digit_value(c: char) -> nat {
    if c == '1' { 1 }
    else if c == '2' { 2 }
    else if c == '3' { 3 }
    else if c == '4' { 4 }
    else if c == '5' { 5 }
    else if c == '6' { 6 }
    else if c == '7' { 7 }
    else if c == '8' { 8 }
    else if c == '9' { 9 }
    else { 0 }
}

/// The number that a string of decimal digits denotes.
pub open spec fn decimal_value(s: Seq<char>) -> nat
    decreases s.len(),
{
    if s.len() == 0 {
        0
    } else {
        decimal_value(s.drop_last()) * 10 + digit_value(s.last())
    }
}

/// The characters of `s` in order.
pub fn chars_of(s: &str) -> (v: Vec<char>)
    ensures
        v@ == s@,
{
    let n = s.unicode_len();
    let mut v: Vec<char> = Vec::new();
    let mut i: usize = 0;
    while i < n
        invariant
            n == s@.len(),
            i <= n,
            v@ == s@.take(i as int),
        decreases n - i,
    {
        let c = s.get_char(i);
        v.push(c);
        i = i + 1;
        assert(v@ =~= s@.take(i as int));
    }
    assert(v@ =~= s@);
    v
}

/// Builds a `String` holding exactly the characters of `v`.
#[verifier::external_body]
pub(crate) fn string_of(v: &Vec<char>) -> (s: String)
    ensures
        s@ == v@,
{
    v.iter().collect()
}

/// Appends the characters of `s` to `v`.
pub fn push_str(v: &mut Vec<char>, s: &str)
    ensures
        final(v)@ == old(v)@ + s@,
{
    let w = chars_of(s);
    let n = w.len();
    let mut i: usize = 0;
    while i < n
        invariant
            n == w@.len(),
            w@ == s@,
            i <= n,
            v@ == old(v)@ + s@.take(i as int),
        decreases n - i,
    {
        v.push(w[i]);
        i = i + 1;
        assert(v@ =~= old(v)@ + s@.take(i as int));
    }
    assert(s@.take(n as int) =~= s@);
}

/// Appends the characters of `w` to `v`.
pub fn push_chars(v: &mut Vec<char>, w: &Vec<char>)
    ensures
        final(v)@ == old(v)@ + w@,
{
    let n = w.len();
    let mut i: usize = 0;
    while i < n
        invariant
            n == w@.len(),
            i <= n,
            v@ == old(v)@ + w@.take(i as int),
        decreases n - i,
    {
        v.push(w[i]);
        i = i + 1;
        assert(v@ =~= old(v)@ + w@.take(i as int));
    }
    assert(w@.take(n as int) =~= w@);
}

/// Whether `c` has the Unicode `White_Space` property.
pub fn is_white_space_char(c: char) -> (b: bool)
    ensures
        b == is_white_space(c),
{
    ('\u{9}' <= c && c <= '\u{d}') || c == ' ' || c == '\u{85}' || c == '\u{a0}'
        || c == '\u{1680}' || ('\u{2000}' <= c && c <= '\u{200a}') || c == '\u{2028}'
        || c == '\u{2029}' || c == '\u{202f}' || c == '\u{205f}' || c == '\u{3000}'
}

/// The characters of `v` from `lo` up to `hi`.
pub fn sub_chars(v: &Vec<char>, lo: usize, hi: usize) -> (r: Vec<char>)
    requires
        lo <= hi <= v@.len(),
    ensures
        r@ == v@.subrange(lo as int, hi as int),
{
    let mut r: Vec<char> = Vec::new();
    let mut i: usize = lo;
    while i < hi
        invariant
            lo <= i <= hi <= v@.len(),
            r@ == v@.subrange(lo as int, i as int),
        decreases hi - i,
    {
        r.push(v[i]);
        i = i + 1;
        assert(r@ =~= v@.subrange(lo as int, i as int));
    }
    r
}

proof fn lemma_trim_start_skip(s: Seq<char>, i: int)
    requires
        0 <= i < s.len(),
        is_white_space(s[i]),
    ensures
        trim_start(s.skip(i)) == trim_start(s.skip(i + 1)),
{
    assert(s.skip(i).drop_first() =~= s.skip(i + 1));
}

proof fn lemma_trim_end_take(s: Seq<char>, j: int)
    requires
        0 < j <= s.len(),
        is_white_space(s[j - 1]),
    ensures
        trim_end(s.take(j)) == trim_end(s.take(j - 1)),
{
    assert(s.take(j).drop_last() =~= s.take(j - 1));
}

/// `v` without leading and trailing Unicode whitespace.
pub fn trim_chars(v: &Vec<char>) -> (r: Vec<char>)
    ensures
        r@ == trim(v@),
{
    let n = v.len();
    let mut i: usize = 0;
    assert(v@.skip(0) =~= v@);
    while i < n && is_white_space_char(v[i])
        invariant
            n == v@.len(),
            i <= n,
            trim_start(v@) == trim_start(v@.skip(i as int)),
        decreases n - i,
    {
        proof { lemma_trim_start_skip(v@, i as int); }
        i = i + 1;
    }
    let ghost t = v@.skip(i as int);
    assert(trim_start(t) == t);
    let mut j: usize = n;
    assert(t.take((n - i) as int) =~= t);
    while j > i && is_white_space_char(v[j - 1])
        invariant
            n == v@.len(),
            i <= j <= n,
            t == v@.skip(i as int),
            trim_end(t) == trim_end(t.take(j - i)),
        decreases j,
    {
        proof {
            lemma_trim_end_take(t, (j - i) as int);
        }
        j = j - 1;
    }
    let ghost u = t.take(j - i);
    assert(trim_end(u) == u);
    let r = sub_chars(v, i, j);
    assert(r@ =~= u);
    r
}

/// Whether `pat` occurs in `s` at position `i`.
pub fn occurs_at_exec(s: &Vec<char>, pat: &Vec<char>, i: usize) -> (b: bool)
    ensures
        b == occurs_at(s@, pat@, i as int),
{
    let n = s.len();
    let m = pat.len();
    if i > n || m > n - i {
        return false;
    }
    let mut k: usize = 0;
    while k < m
        invariant
            n == s@.len(),
            m == pat@.len(),
            i + m <= n,
            k <= m,
            forall|t: int| 0 <= t < k ==> s@[i + t] == pat@[t],
        decreases m - k,
    {
        if s[i + k] != pat[k] {
            assert(s@.subrange(i as int, i + m)[k as int] != pat@[k as int]);
            return false;
        }
        k = k + 1;
    }
    assert(s@.subrange(i as int, i + m) =~= pat@);
    true
}

proof fn lemma_replace_step(s: Seq<char>, pat: Seq<char>, rep: Seq<char>, i: int)
    requires
        0 <= i < s.len(),
        pat.len() > 0,
    ensures
        occurs_at(s, pat, i) ==> replace(s.skip(i), pat, rep) == rep + replace(
            s.skip(i + pat.len()),
            pat,
            rep,
        ),
        !occurs_at(s, pat, i) ==> replace(s.skip(i), pat, rep) == seq![s[i]] + replace(
            s.skip(i + 1),
            pat,
            rep,
        ),
{
    let t = s.skip(i);
    assert(t.len() > 0);
    if occurs_at(s, pat, i) {
        assert(t.take(pat.len() as int) =~= s.subrange(i, i + pat.len()));
        assert(t.skip(pat.len() as int) =~= s.skip(i + pat.len()));
    } else {
        if pat.len() <= t.len() {
            assert(t.take(pat.len() as int) =~= s.subrange(i, i + pat.len()));
        }
        assert(t.drop_first() =~= s.skip(i + 1));
    }
}

/// `s` with every non-overlapping occurrence of the non-empty `pat` replaced by `rep`.
pub fn replace_chars(s: &Vec<char>, pat: &Vec<char>, rep: &Vec<char>) -> (r: Vec<char>)
    requires
        pat@.len() > 0,
    ensures
        r@ == replace(s@, pat@, rep@),
{
    let n = s.len();
    let mut out: Vec<char> = Vec::new();
    let mut i: usize = 0;
    assert(s@.skip(0) =~= s@);
    while i < n
        invariant
            n == s@.len(),
            pat@.len() > 0,
            i <= n,
            replace(s@, pat@, rep@) == out@ + replace(s@.skip(i as int), pat@, rep@),
        decreases n - i,
    {
        proof { lemma_replace_step(s@, pat@, rep@, i as int); }
        if occurs_at_exec(s, pat, i) {
            push_chars(&mut out, rep);
            i = i + pat.len();
        } else {
            out.push(s[i]);
            i = i + 1;
        }
    }
    assert(s@.skip(n as int) =~= Seq::<char>::empty());
    assert(out@ + seq![] =~= out@);
    out
}

/// Whether `pat` occurs somewhere in `s`.
pub fn contains_chars(s: &Vec<char>, pat: &Vec<char>) -> (b: bool)
    ensures
        b == contains(s@, pat@),
{
    let n = s.len();
    let m = pat.len();
    if m == 0 {
        assert(s@.subrange(0, 0) =~= pat@);
        assert(occurs_at(s@, pat@, 0));
        return true;
    }
    if m > n {
        assert forall|t: int| !occurs_at(s@, pat@, t) by {}
        return false;
    }
    let mut i: usize = 0;
    while i < n - m + 1
        invariant
            n == s@.len(),
            m == pat@.len(),
            1 <= m <= n,
            i <= n - m + 1,
            forall|t: int| 0 <= t < i ==> !occurs_at(s@, pat@, t),
        decreases n - m + 1 - i,
    {
        if occurs_at_exec(s, pat, i) {
            return true;
        }
        i = i + 1;
    }
    assert forall|t: int| !occurs_at(s@, pat@, t) by {}
    false
}

/// The character that shows the decimal digit `d`.
pub fn digit_char_exec(d: u64) -> (c: char)
    requires
        d < 10,
    ensures
        c == digit_char(d as nat),
{
    if d == 0 { '0' }
    else if d == 1 { '1' }
    else if d == 2 { '2' }
    else if d == 3 { '3' }
    else if d == 4 { '4' }
    else if d == 5 { '5' }
    else if d == 6 { '6' }
    else if d == 7 { '7' }
    else if d == 8 { '8' }
    else { '9' }
}

/// The decimal rendering of `n` (as `n.to_string()` gives it).
pub fn decimal_chars(n: u64) -> (r: Vec<char>)
    ensures
        r@ == decimal(n as nat),
    decreases n,
{
    if n < 10 {
        let mut r: Vec<char> = Vec::new();
        r.push(digit_char_exec(n));
        assert(r@ =~= seq![digit_char(n as nat)]);
        r
    } else {
        let mut r = decimal_chars(n / 10);
        r.push(digit_char_exec(n % 10));
        r
    }
}

/// Reading back the decimal rendering of a number gives that number, and the
/// rendering starts with `'0'` only for zero.
pub proof fn lemma_decimal_roundtrip(n: nat)
    ensures
        decimal_value(decimal(n)) == n,
        decimal(n).len() > 0,
        decimal(n)[0] == '0' ==> n == 0,
    decreases n,
{
    if n < 10 {
        let d = seq![digit_char(n)];
        assert(decimal(n) =~= d);
        assert(d.drop_last() =~= Seq::<char>::empty());
        assert(decimal_value(d.drop_last()) == 0);
        assert(digit_value(digit_char(n)) == n);
        assert(d.last() == digit_char(n));
    } else {
        lemma_decimal_roundtrip(n / 10);
        let d = decimal(n / 10);
        assert(d.push(digit_char(n % 10)).drop_last() =~= d);
        assert(d.push(digit_char(n % 10))[0] == d[0]);
        assert(d.push(digit_char(n % 10)).last() == digit_char(n % 10));
        assert(digit_value(digit_char(n % 10)) == n % 10);
        assert((n / 10) * 10 + n % 10 == n);
    }
}

/// The fields of `s` between occurrences of `sep`, as `str::split` with a
/// character separator gives them (always at least one, possibly empty).
pub open spec fn split(s: Seq<char>, sep: char) -> Seq<Seq<char>>
    decreases s.len(),
{
    if s.len() == 0 {
        seq![seq![]]
    } else {
        let p = split(s.drop_last(), sep);
        if s.last() == sep {
            p.push(seq![])
        } else {
            p.update(p.len() - 1, p.last().push(s.last()))
        }
    }
}

/// Splitting always gives at least one field.
pub proof fn lemma_split_nonempty(s: Seq<char>, sep: char)
    ensures
        split(s, sep).len() >= 1,
    decreases s.len(),
{
    if s.len() > 0 {
        lemma_split_nonempty(s.drop_last(), sep);
    }
}

/// The fields of `s` between occurrences of `sep`.
pub fn split_chars(s: &Vec<char>, sep: char) -> (r: Vec<Vec<char>>)
    ensures
        r@.map_values(|f: Vec<char>| f@) == split(s@, sep),
{
    let n = s.len();
    let mut fields: Vec<Vec<char>> = Vec::new();
    let mut cur: Vec<char> = Vec::new();
    let mut i: usize = 0;
    assert(s@.take(0) =~= Seq::<char>::empty());
    assert(fields@.map_values(|f: Vec<char>| f@).push(cur@) =~= seq![seq![]]);
    while i < n
        invariant
            n == s@.len(),
            i <= n,
            fields@.map_values(|f: Vec<char>| f@).push(cur@) == split(s@.take(i as int), sep),
        decreases n - i,
    {
        let ghost before = fields@.map_values(|f: Vec<char>| f@);
        assert(s@.take(i + 1).drop_last() =~= s@.take(i as int));
        assert(s@.take(i + 1).last() == s@[i as int]);
        let c = s[i];
        if c == sep {
            let done = cur;
            fields.push(done);
            cur = Vec::new();
            assert(fields@.map_values(|f: Vec<char>| f@) =~= before.push(done@));
            assert(fields@.map_values(|f: Vec<char>| f@).push(cur@) =~= before.push(done@).push(seq![]));
        } else {
            let ghost old_cur = cur@;
            cur.push(c);
            assert(fields@.map_values(|f: Vec<char>| f@) =~= before);
            assert(before.push(cur@) =~= before.push(old_cur).update(before.len() as int, old_cur.push(c)));
        }
        i = i + 1;
    }
    assert(s@.take(n as int) =~= s@);
    let ghost before = fields@.map_values(|f: Vec<char>| f@);
    fields.push(cur);
    assert(fields@.map_values(|f: Vec<char>| f@) =~= before.push(cur@));
    fields
}

/// `s` with every occurrence of `c` removed.
pub open spec fn remove_char(s: Seq<char>, c: char) -> Seq<char> {
    s.filter(other_than(c))
}

/// The test for characters other than `c`.
pub open spec fn other_than(c: char) -> spec_fn(char) -> bool {
    |x: char| x != c
}

/// `v` with every occurrence of `c` removed.
pub fn remove_char_chars(v: &Vec<char>, c: char) -> (r: Vec<char>)
    ensures
        r@ == remove_char(v@, c),
{
    let n = v.len();
    let mut r: Vec<char> = Vec::new();
    let mut i: usize = 0;
    assert(v@.take(0) =~= Seq::<char>::empty());
    while i < n
        invariant
            n == v@.len(),
            i <= n,
            r@ == remove_char(v@.take(i as int), c),
        decreases n - i,
    {
        assert(v@.take(i + 1).drop_last() =~= v@.take(i as int));
        reveal_with_fuel(Seq::filter, 1);
        if v[i] != c {
            r.push(v[i]);
        }
        i = i + 1;
    }
    assert(v@.take(n as int) =~= v@);
    r
}

/// What `String::from_utf8_lossy` makes of `bytes`: their decoding, with
/// each invalid sequence replaced by U+FFFD.
pub uninterp spec fn lossy_utf8(bytes: Seq<u8>) -> Seq<char>;

/// Decodes `bytes` with `String::from_utf8_lossy`. The result is the named
/// value `lossy_utf8(bytes)`; on valid UTF-8 it is the plain decoding, as the
/// function's documentation states. Where and how replacement characters are
/// placed for invalid input is left unstated.
#[verifier::external_body]
pub(crate) fn utf8_lossy_string(bytes: &[u8]) -> (s: String)
    ensures
        s@ == lossy_utf8(bytes@),
        valid_utf8(bytes@) ==> s@ == decode_utf8(bytes@),
{
    String::from_utf8_lossy(bytes).into_owned()
}

/// Decodes `bytes` with `std::str::from_utf8`: it succeeds exactly on valid
/// UTF-8, and then gives the characters that the bytes encode.
#[verifier::external_body]
fn utf8_string(bytes: &[u8]) -> (res: Option<String>)
    ensures
        res is Some <==> valid_utf8(bytes@),
        res matches Some(s) ==> s@ == decode_utf8(bytes@),
{
    match std::str::from_utf8(bytes) {
        Ok(s) => Some(s.to_owned()),
        Err(_) => None,
    }
}

/// The text that a command wrote, when its output is valid UTF-8.
pub fn command_text(bytes: &[u8]) -> (res: Option<String>)
    ensures
        res is Some <==> valid_utf8(bytes@),
        res matches Some(s) ==> s@ == decode_utf8(bytes@),
{
    utf8_string(bytes)
}

/// Whether `a` and `b` hold the same characters.
pub fn chars_eq(a: &Vec<char>, b: &Vec<char>) -> (r: bool)
    ensures
        r == (a@ == b@),
{
    if a.len() != b.len() {
        return false;
    }
    let n = a.len();
    let mut i: usize = 0;
    while i < n
        invariant
            n == a@.len(),
            n == b@.len(),
            i <= n,
            forall|k: int| 0 <= k < i ==> a@[k] == b@[k],
        decreases n - i,
    {
        if a[i] != b[i] {
            return false;
        }
        i = i + 1;
    }
    assert(a@ =~= b@);
    true
}

proof fn lemma_trim_start_shape(s: Seq<char>)
    ensures
        trim_start(s).len() == 0 || !is_white_space(trim_start(s)[0]),
        trim_start(s).len() <= s.len(),
        trim_start(s) == s.skip(s.len() - trim_start(s).len()),
        forall|k: int| 0 <= k < s.len() - trim_start(s).len() ==> is_white_space(#[trigger] s[k]),
    decreases s.len(),
{
    if s.len() > 0 && is_white_space(s[0]) {
        lemma_trim_start_shape(s.drop_first());
        assert(s.drop_first().skip(s.drop_first().len() - trim_start(s).len()) =~= s.skip(
            s.len() - trim_start(s).len(),
        ));
        assert forall|k: int| 0 <= k < s.len() - trim_start(s).len() implies is_white_space(#[trigger] s[k]) by {
            if k > 0 {
                assert(s[k] == s.drop_first()[k - 1]);
            }
        }
    } else {
        assert(s.skip(0) =~= s);
    }
}

proof fn lemma_trim_end_shape(s: Seq<char>)
    ensures
        trim_end(s).len() == 0 || !is_white_space(trim_end(s).last()),
        trim_end(s).len() <= s.len(),
        trim_end(s) == s.take(trim_end(s).len() as int),
        forall|k: int| trim_end(s).len() <= k < s.len() ==> is_white_space(#[trigger] s[k]),
    decreases s.len(),
{
    if s.len() > 0 && is_white_space(s.last()) {
        lemma_trim_end_shape(s.drop_last());
        assert forall|k: int| trim_end(s).len() <= k < s.len() implies is_white_space(#[trigger] s[k]) by {
            if k < s.len() - 1 {
                assert(s[k] == s.drop_last()[k]);
            }
        }
        assert(s.drop_last().take(trim_end(s).len() as int) =~= s.take(trim_end(s).len() as int));
    } else {
        assert(s.take(s.len() as int) =~= s);
    }
}

/// Trimming keeps a contiguous part of the text: what it removes at either
/// end is whitespace, and what it keeps starts and ends with a character
/// that is not.
pub proof fn lemma_trim_span(s: Seq<char>) -> (span: (int, int))
    ensures
        0 <= span.0 <= span.1 <= s.len(),
        trim(s) == s.subrange(span.0, span.1),
        forall|k: int| 0 <= k < span.0 ==> is_white_space(#[trigger] s[k]),
        forall|k: int| span.1 <= k < s.len() ==> is_white_space(#[trigger] s[k]),
        span.0 < span.1 ==> !is_white_space(s[span.0]) && !is_white_space(s[span.1 - 1]),
{
    let a = trim_start(s);
    lemma_trim_start_shape(s);
    lemma_trim_end_shape(a);
    let i = s.len() - a.len();
    let j = i + trim_end(a).len();
    assert(trim(s) =~= s.subrange(i, j));
    assert forall|k: int| j <= k < s.len() implies is_white_space(#[trigger] s[k]) by {
        assert(s[k] == a[k - i]);
    }
    if i < j {
        assert(trim_end(a)[0] == a[0]);
        assert(s[i] == a[0]);
        assert(s[j - 1] == trim_end(a).last());
    }
    (i, j)
}

/// Trimming twice is trimming once; a trimmed text starts and ends with a
/// character that is not whitespace.
pub proof fn lemma_trim_idempotent(s: Seq<char>)
    ensures
        trim(trim(s)) == trim(s),
        trim(s).len() > 0 ==> !is_white_space(trim(s)[0]) && !is_white_space(trim(s).last()),
{
    let a = trim_start(s);
    let b = trim_end(a);
    lemma_trim_start_shape(s);
    lemma_trim_end_shape(a);
    if b.len() > 0 {
        assert(b[0] == a[0]);
    }
    assert(trim_start(b) == b);
    assert(trim_end(b) == b);
}

/// Replacing the one-character pattern `[c]` by a text without `c` leaves no
/// `c` behind.
pub proof fn lemma_replace_removes(s: Seq<char>, c: char, rep: Seq<char>)
    requires
        !rep.contains(c),
    ensures
        !replace(s, seq![c], rep).contains(c),
    decreases s.len(),
{
    if s.len() > 0 {
        if s.take(1) == seq![c] {
            lemma_replace_removes(s.skip(1), c, rep);
        } else {
            assert(s.take(1) =~= seq![s[0]]);
            lemma_replace_removes(s.drop_first(), c, rep);
        }
    }
}

/// Removing `c` leaves no `c` and keeps every other character, in order.
pub proof fn lemma_remove_char(s: Seq<char>, c: char)
    ensures
        !remove_char(s, c).contains(c),
        remove_char(s, c).len() <= s.len(),
{
    let r = remove_char(s, c);
    s.lemma_filter_len(other_than(c));
    assert forall|i: int| 0 <= i < r.len() implies r[i] != c by {
        s.lemma_filter_pred(other_than(c), i);
    }
}

/// The fields joined again by the separator.
pub open spec fn join(fields: Seq<Seq<char>>, sep: char) -> Seq<char>
    decreases fields.len(),
{
    if fields.len() == 0 {
        seq![]
    } else if fields.len() == 1 {
        fields[0]
    } else {
        join(fields.drop_last(), sep).push(sep) + fields.last()
    }
}

/// Joining the fields of a split by the separator gives back the text, and
/// no field holds the separator.
pub proof fn lemma_split_join(s: Seq<char>, sep: char)
    ensures
        join(split(s, sep), sep) == s,
        forall|i: int| 0 <= i < split(s, sep).len() ==> !(#[trigger] split(s, sep)[i]).contains(sep),
    decreases s.len(),
{
    if s.len() > 0 {
        let t = s.drop_last();
        lemma_split_join(t, sep);
        lemma_split_nonempty(t, sep);
        let p = split(t, sep);
        if s.last() == sep {
            let q = p.push(seq![]);
            assert(q.drop_last() =~= p);
            assert(join(q, sep) =~= join(p, sep).push(sep) + seq![]);
            assert(t.push(sep) =~= s);
            assert forall|i: int| 0 <= i < q.len() implies !(#[trigger] q[i]).contains(sep) by {
                if i < p.len() {
                    assert(q[i] == p[i]);
                }
            }
        } else {
            let q = p.update(p.len() - 1, p.last().push(s.last()));
            assert forall|i: int| 0 <= i < q.len() implies !(#[trigger] q[i]).contains(sep) by {
                if i < p.len() - 1 {
                    assert(q[i] == p[i]);
                } else {
                    let f = p.last();
                    assert(!f.contains(sep));
                    assert forall|k: int| 0 <= k < q[i].len() implies q[i][k] != sep by {
                        if k < f.len() {
                            assert(q[i][k] == f[k]);
                        }
                    }
                }
            }
            if p.len() == 1 {
                assert(join(p, sep) == p[0]);
                assert(join(q, sep) == q[0]);
                assert(q[0] =~= t.push(s.last()));
                assert(t.push(s.last()) =~= s);
            } else {
                assert(q.drop_last() =~= p.drop_last());
                assert(join(p, sep) == join(p.drop_last(), sep).push(sep) + p.last());
                assert(join(q, sep) == join(p.drop_last(), sep).push(sep) + q.last());
                assert(join(q, sep) =~= join(p, sep).push(s.last()));
                assert(t.push(s.last()) =~= s);
            }
        }
    }
}

/// Replacing a one-character pattern that does not occur changes nothing.
pub proof fn lemma_replace_absent(s: Seq<char>, c: char, rep: Seq<char>)
    requires
        !s.contains(c),
    ensures
        replace(s, seq![c], rep) == s,
    decreases s.len(),
{
    if s.len() > 0 {
        assert(s.take(1) =~= seq![s[0]]);
        assert(s.contains(s[0]));
        let t = s.drop_first();
        assert(!t.contains(c)) by {
            if t.contains(c) {
                let k = choose|k: int| 0 <= k < t.len() && t[k] == c;
                assert(s[k + 1] == c);
            }
        }
        lemma_replace_absent(t, c, rep);
        assert(s =~= seq![s[0]] + t);
    }
}

/// Replacing a one-character pattern works piece by piece.
pub proof fn lemma_replace_concat(a: Seq<char>, b: Seq<char>, c: char, rep: Seq<char>)
    ensures
        replace(a + b, seq![c], rep) == replace(a, seq![c], rep) + replace(b, seq![c], rep),
    decreases a.len(),
{
    if a.len() > 0 {
        let ab = a + b;
        assert(ab.take(1) =~= a.take(1));
        assert(ab.skip(1) =~= a.skip(1) + b);
        assert(ab.drop_first() =~= a.drop_first() + b);
        assert(ab[0] == a[0]);
        lemma_replace_concat(a.skip(1), b, c, rep);
        assert(a.skip(1) =~= a.drop_first());
        if a.take(1) == seq![c] {
            assert(replace(ab, seq![c], rep) =~= rep + (replace(a.skip(1), seq![c], rep) + replace(b, seq![c], rep)));
        } else {
            assert(replace(ab, seq![c], rep) =~= seq![a[0]] + (replace(a.drop_first(), seq![c], rep) + replace(b, seq![c], rep)));
        }
    } else {
        assert(a + b =~= b);
        assert(replace(a, seq![c], rep) =~= Seq::<char>::empty());
    }
}

/// The one-character text `[c]` with `c` replaced is the replacement.
pub proof fn lemma_replace_single(c: char, rep: Seq<char>)
    ensures
        replace(seq![c], seq![c], rep) == rep,
{
    let s = seq![c];
    assert(s.take(1) =~= seq![c]);
    assert(s.skip(1) =~= Seq::<char>::empty());
    assert(replace(s.skip(1), seq![c], rep) == Seq::<char>::empty());
    assert(seq![c].len() == 1);
    assert(replace(s, seq![c], rep) == rep + replace(s.skip(1), seq![c], rep));
    assert(rep + Seq::<char>::empty() =~= rep);
}

/// Fields of a text with `sep` inserted between two parts are the fields
/// of the first part followed by those of the second.
pub proof fn lemma_split_concat(p1: Seq<char>, p2: Seq<char>, sep: char)
    ensures
        split(p1.push(sep) + p2, sep) == split(p1, sep) + split(p2, sep),
    decreases p2.len(),
{
    let x = p1.push(sep);
    if p2.len() == 0 {
        assert(x + p2 =~= x);
        assert(x.drop_last() =~= p1);
        assert(split(p1, sep).push(seq![]) =~= split(p1, sep) + seq![seq![]]);
    } else {
        let q = p2.drop_last();
        lemma_split_concat(p1, q, sep);
        lemma_split_nonempty(q, sep);
        assert((x + p2).drop_last() =~= x + q);
        assert((x + p2).last() == p2.last());
        let a = split(p1, sep);
        let b = split(q, sep);
        if p2.last() == sep {
            assert((a + b).push(seq![]) =~= a + b.push(seq![]));
        } else {
            assert((a + b).update((a + b).len() - 1, (a + b).last().push(p2.last())) =~= a + b.update(
                b.len() - 1,
                b.last().push(p2.last()),
            ));
        }
    }
}

} // verus!
