//! Decoding of colour-coded text: `${name}` switches the current colour,
//! `\` takes the next character literally, and every other character is
//! emitted with the current colour.

use vstd::prelude::*;
use crate::color::{
    ColorCode, all_ascii, ascii_color, colored_from_str, color_name_safe, colored_color_from_name,
    lemma_ascii_name_safe,
};
use crate::text::{string_of, sub_chars};

verus! {

/// The abstract state of a [`ColorCodeIter`]: the characters not read yet, a
/// character held back to be emitted next, and the current colour.
pub struct CodeState {
    pub rest: Seq<char>,
    pub remainder: Option<char>,
    pub color: ColorCode,
}

/// The first index at or after `i` where `c` occurs in `s`.
pub open spec fn find_from(s: Seq<char>, c: char, i: int) -> Option<int>
    decreases s.len() - i,
{
    if i < 0 || i >= s.len() {
        None
    } else if s[i] == c {
        Some(i)
    } else {
        find_from(s, c, i + 1)
    }
}

/// Where `find_from` finds `c`, it is there, at or after `i`.
pub proof fn lemma_find_from_bounds(s: Seq<char>, c: char, i: int)
    ensures
        find_from(s, c, i) matches Some(j) ==> 0 <= i <= j < s.len() && s[j] == c,
        find_from(s, c, i) is None && 0 <= i ==> forall|k: int| i <= k < s.len() ==> s[k] != c,
    decreases s.len() - i,
{
    if 0 <= i < s.len() && s[i] != c {
        lemma_find_from_bounds(s, c, i + 1);
    }
}

/// The colour that the code `name` names: as [`ascii_color`] reads it for
/// an ASCII name, and as `colored` reads it otherwise.
pub open spec fn code_color(name: Seq<char>) -> Option<ColorCode> {
    if all_ascii(name) {
        ascii_color(name)
    } else {
        colored_from_str(name)
    }
}

/// The colour after reading the code `name`: the colour it names, or
/// `color` unchanged when it names none.
pub open spec fn apply_code(name: Seq<char>, color: ColorCode) -> ColorCode {
    match code_color(name) {
        Some(c) => c,
        None => color,
    }
}

/// One call of `next`: what it returns, and the state it leaves.
pub open spec fn step(st: CodeState) -> (Option<(char, ColorCode)>, CodeState) {
    let s = st.rest;
    let c = st.color;
    match st.remainder {
        Some(r) => (Some((r, c)), CodeState { rest: s, remainder: None, color: c }),
        None => {
            if s.len() == 0 {
                (None, st)
            } else if s[0] == '$' {
                if s.len() == 1 {
                    (None, CodeState { rest: seq![], remainder: None, color: c })
                } else if s[1] == '{' {
                    match find_from(s, '}', 2) {
                        Some(j) => {
                            let nc = apply_code(s.subrange(2, j), c);
                            let after = s.skip(j + 1);
                            if after.len() == 0 {
                                (None, CodeState { rest: after, remainder: None, color: nc })
                            } else {
                                (
                                    Some((after[0], nc)),
                                    CodeState { rest: after.drop_first(), remainder: None, color: nc },
                                )
                            }
                        },
                        None => (None, st),
                    }
                } else {
                    (Some(('$', c)), CodeState { rest: s.skip(2), remainder: Some(s[1]), color: c })
                }
            } else if s[0] == '\\' {
                if s.len() == 1 {
                    (None, CodeState { rest: seq![], remainder: None, color: c })
                } else {
                    (Some((s[1], c)), CodeState { rest: s.skip(2), remainder: None, color: c })
                }
            } else {
                (Some((s[0], c)), CodeState { rest: s.drop_first(), remainder: None, color: c })
            }
        },
    }
}

/// `next` returns on `st`: an opened `${` is closed by a `}` later on (it
/// waits for one forever otherwise), and the code inside is a name that
/// `colored` reads without panicking.
pub open spec fn next_defined(st: CodeState) -> bool {
    let s = st.rest;
    st.remainder is None && s.len() >= 2 && s[0] == '$' && s[1] == '{' ==> match find_from(
        s,
        '}',
        2,
    ) {
        Some(j) => color_name_safe(s.subrange(2, j)),
        None => false,
    }
}

/// The whole coloured text that `st` still yields, up to the end of the input
/// (or up to an unclosed `${`).
pub open spec fn decode(st: CodeState) -> Seq<(char, ColorCode)>
    decreases st.rest.len(), (if st.remainder is Some { 1int } else { 0int }),
{
    let s = st.rest;
    let c = st.color;
    match st.remainder {
        Some(r) => seq![(r, c)] + decode(CodeState { rest: s, remainder: None, color: c }),
        None => {
            if s.len() == 0 {
                seq![]
            } else if s[0] == '$' {
                if s.len() == 1 {
                    seq![]
                } else if s[1] == '{' {
                    match find_from(s, '}', 2) {
                        Some(j) => {
                            proof { lemma_find_from_bounds(s, '}', 2); }
                            let nc = apply_code(s.subrange(2, j), c);
                            let after = s.skip(j + 1);
                            if after.len() == 0 {
                                seq![]
                            } else {
                                seq![(after[0], nc)] + decode(
                                    CodeState { rest: after.drop_first(), remainder: None, color: nc },
                                )
                            }
                        },
                        None => seq![],
                    }
                } else {
                    seq![('$', c), (s[1], c)] + decode(
                        CodeState { rest: s.skip(2), remainder: None, color: c },
                    )
                }
            } else if s[0] == '\\' {
                if s.len() == 1 {
                    seq![]
                } else {
                    seq![(s[1], c)] + decode(CodeState { rest: s.skip(2), remainder: None, color: c })
                }
            } else {
                seq![(s[0], c)] + decode(CodeState { rest: s.drop_first(), remainder: None, color: c })
            }
        },
    }
}

/// Each call of `next` gives the head of the decoded text and leaves a state
/// that decodes to the rest of it; `None` comes only once all the text has
/// been given, and leaves nothing more to read.
pub proof fn lemma_next_yields_decoded(st: CodeState)
    requires
        next_defined(st),
    ensures
        step(st).0 is None ==> decode(st) == Seq::<(char, ColorCode)>::empty()
            && step(st).1.rest.len() == 0 && step(st).1.remainder is None,
        step(st).0 matches Some(x) ==> decode(st) == seq![x] + decode(step(st).1),
        step(st).0 is None ==> step(step(st).1).0 is None && next_defined(step(st).1),
        step(st).0 is Some ==> pending(step(st).1) < pending(st),
{
    let s = st.rest;
    let c = st.color;
    if st.remainder is None && s.len() >= 2 && s[0] == '$' && s[1] != '{' {
        let st2 = CodeState { rest: s.skip(2), remainder: None, color: c };
        assert(decode(step(st).1) == seq![(s[1], c)] + decode(st2));
        assert(seq![('$', c), (s[1], c)] + decode(st2) =~= seq![('$', c)] + (seq![(s[1], c)]
            + decode(st2)));
    }
    if st.remainder is None && s.len() >= 2 && s[0] == '$' && s[1] == '{' {
        lemma_find_from_bounds(s, '}', 2);
        let j = find_from(s, '}', 2)->0;
        if s.skip(j + 1).len() == 0 {
            assert(step(st).1.rest.len() == 0);
        }
    }
}

/// The characters still to be given out: those not read yet, and the one
/// held back.
pub open spec fn pending(st: CodeState) -> nat {
    st.rest.len() + if st.remainder is Some { 1nat } else { 0nat }
}

/// The decoded text has at most one item for each pending character, so a
/// run of `next` calls gives `Some` at most that many times.
pub proof fn lemma_decode_len(st: CodeState)
    ensures
        decode(st).len() <= pending(st),
    decreases st.rest.len(), (if st.remainder is Some { 1int } else { 0int }),
{
    let s = st.rest;
    let c = st.color;
    match st.remainder {
        Some(r) => {
            lemma_decode_len(CodeState { rest: s, remainder: None, color: c });
        },
        None => {
            if s.len() == 0 {
            } else if s[0] == '$' {
                if s.len() == 1 {
                } else if s[1] == '{' {
                    lemma_find_from_bounds(s, '}', 2);
                    match find_from(s, '}', 2) {
                        Some(j) => {
                            let nc = apply_code(s.subrange(2, j), c);
                            let after = s.skip(j + 1);
                            if after.len() > 0 {
                                lemma_decode_len(
                                    CodeState { rest: after.drop_first(), remainder: None, color: nc },
                                );
                            }
                        },
                        None => {},
                    }
                } else {
                    lemma_decode_len(CodeState { rest: s.skip(2), remainder: None, color: c });
                }
            } else if s[0] == '\\' {
                if s.len() > 1 {
                    lemma_decode_len(CodeState { rest: s.skip(2), remainder: None, color: c });
                }
            } else {
                lemma_decode_len(CodeState { rest: s.drop_first(), remainder: None, color: c });
            }
        },
    }
}

/// Text without `$` or `\` decodes to itself, every character in the
/// current colour.
pub proof fn lemma_plain_text(s: Seq<char>, c: ColorCode)
    requires
        !s.contains('$'),
        !s.contains('\\'),
    ensures
        decode(CodeState { rest: s, remainder: None, color: c }) == s.map_values(
            |x: char| (x, c),
        ),
    decreases s.len(),
{
    if s.len() > 0 {
        assert(s[0] != '$' && s[0] != '\\') by {
            assert(s.contains(s[0]));
        }
        let t = s.drop_first();
        assert(!t.contains('$') && !t.contains('\\')) by {
            if t.contains('$') {
                let k = choose|k: int| 0 <= k < t.len() && t[k] == '$';
                assert(s[k + 1] == '$');
            }
            if t.contains('\\') {
                let k = choose|k: int| 0 <= k < t.len() && t[k] == '\\';
                assert(s[k + 1] == '\\');
            }
        }
        lemma_plain_text(t, c);
        assert(s.map_values(|x: char| (x, c)) =~= seq![(s[0], c)] + t.map_values(|x: char| (x, c)));
    } else {
        assert(s.map_values(|x: char| (x, c)) =~= Seq::<(char, ColorCode)>::empty());
    }
}

/// Text without `{` or `\\` keeps every character, `$` included, each in
/// the current colour: a `$` that opens no code comes out together with the
/// character after it. Only a `$` left without a following character at the
/// very end is dropped.
pub proof fn lemma_dollars_kept(s: Seq<char>, c: ColorCode)
    requires
        !s.contains('{'),
        !s.contains('\\'),
    ensures
        ({
            let d = decode(CodeState { rest: s, remainder: None, color: c });
            &&& d == s.map_values(|x: char| (x, c)) || (s.len() > 0 && s.last() == '$'
                && d == s.drop_last().map_values(|x: char| (x, c)))
            &&& (s.len() == 0 || s.last() != '$') ==> d == s.map_values(|x: char| (x, c))
            &&& d.len() + 1 >= s.len()
        }),
    decreases s.len(),
{
    let d = decode(CodeState { rest: s, remainder: None, color: c });
    if s.len() == 0 {
        assert(s.map_values(|x: char| (x, c)) =~= d);
    } else {
        assert(s.contains(s[0]));
        if s[0] == '$' && s.len() >= 2 {
            assert(s.contains(s[1]));
            let t = s.skip(2);
            assert(!t.contains('{') && !t.contains('\\')) by {
                if t.contains('{') {
                    let k = choose|k: int| 0 <= k < t.len() && t[k] == '{';
                    assert(s[k + 2] == '{');
                }
                if t.contains('\\') {
                    let k = choose|k: int| 0 <= k < t.len() && t[k] == '\\';
                    assert(s[k + 2] == '\\');
                }
            }
            lemma_dollars_kept(t, c);
            let dt = decode(CodeState { rest: t, remainder: None, color: c });
            assert(d == seq![('$', c), (s[1], c)] + dt);
            assert(s.map_values(|x: char| (x, c)) =~= seq![('$', c), (s[1], c)] + t.map_values(
                |x: char| (x, c),
            ));
            if t.len() > 0 {
                assert(t.last() == s.last());
                assert(s.drop_last().map_values(|x: char| (x, c)) =~= seq![('$', c), (s[1], c)]
                    + t.drop_last().map_values(|x: char| (x, c)));
            }
        } else if s[0] == '$' {
            assert(d.len() == 0);
            assert(s.drop_last().map_values(|x: char| (x, c)) =~= d);
        } else {
            let t = s.drop_first();
            assert(!t.contains('{') && !t.contains('\\')) by {
                if t.contains('{') {
                    let k = choose|k: int| 0 <= k < t.len() && t[k] == '{';
                    assert(s[k + 1] == '{');
                }
                if t.contains('\\') {
                    let k = choose|k: int| 0 <= k < t.len() && t[k] == '\\';
                    assert(s[k + 1] == '\\');
                }
            }
            lemma_dollars_kept(t, c);
            let dt = decode(CodeState { rest: t, remainder: None, color: c });
            assert(d == seq![(s[0], c)] + dt);
            assert(s.map_values(|x: char| (x, c)) =~= seq![(s[0], c)] + t.map_values(
                |x: char| (x, c),
            ));
            if t.len() > 0 {
                assert(t.last() == s.last());
                assert(s.drop_last().map_values(|x: char| (x, c)) =~= seq![(s[0], c)]
                    + t.drop_last().map_values(|x: char| (x, c)));
            }
        }
    }
}

/// Every call of `next` from `st` on, up to the first `None`, returns (see
/// [`next_defined`]).
pub open spec fn all_defined(st: CodeState) -> bool
    decreases pending(st),
{
    if !next_defined(st) {
        false
    } else if step(st).0 is Some {
        proof { lemma_next_yields_decoded(st); }
        all_defined(step(st).1)
    } else {
        true
    }
}

/// The items that successive calls of `next` return from `st`, up to the
/// first `None`.
pub open spec fn iterate(st: CodeState) -> Seq<(char, ColorCode)>
    decreases pending(st),
{
    if !next_defined(st) {
        seq![]
    } else {
        match step(st).0 {
            Some(x) => {
                proof { lemma_next_yields_decoded(st); }
                seq![x] + iterate(step(st).1)
            },
            None => seq![],
        }
    }
}

/// Calling `next` until it gives `None` yields the decoded text, as long as
/// every call returns.
pub proof fn lemma_iterate_decodes(st: CodeState)
    requires
        all_defined(st),
    ensures
        iterate(st) == decode(st),
    decreases pending(st),
{
    lemma_next_yields_decoded(st);
    if step(st).0 is Some {
        lemma_iterate_decodes(step(st).1);
    }
}

/// A code opened at the reading position (if any) is closed, and its name
/// is ASCII.
pub open spec fn front_code_ascii(st: CodeState) -> bool {
    let s = st.remainder is None && st.rest.len() >= 2 && st.rest[0] == '$' && st.rest[1] == '{';
    s ==> match find_from(st.rest, '}', 2) {
        Some(j) => all_ascii(st.rest.subrange(2, j)),
        None => false,
    }
}

proof fn lemma_ascii_code_defined_if(st: CodeState)
    ensures
        front_code_ascii(st) ==> next_defined(st),
{
    if front_code_ascii(st) {
        lemma_ascii_code_defined(st);
    }
}

/// `next` returns whenever a code opened at the reading position is closed
/// and has an ASCII name.
pub proof fn lemma_ascii_code_defined(st: CodeState)
    requires
        front_code_ascii(st),
    ensures
        next_defined(st),
{
    if st.remainder is None && st.rest.len() >= 2 && st.rest[0] == '$' && st.rest[1] == '{' {
        let j = find_from(st.rest, '}', 2)->0;
        lemma_ascii_name_safe(st.rest.subrange(2, j));
    }
}

/// The colour rule: each character comes out in the colour current after
/// the call; the colour changes only when a code is read, and then becomes
/// the colour that the code names, or stays when it names none.
pub proof fn lemma_colour_rule(st: CodeState)
    requires
        next_defined(st),
    ensures
        step(st).0 matches Some((ch, col)) ==> col == step(st).1.color,
        ({
            let s = st.rest;
            if st.remainder is None && s.len() >= 2 && s[0] == '$' && s[1] == '{' {
                step(st).1.color == apply_code(s.subrange(2, find_from(s, '}', 2)->0), st.color)
            } else {
                step(st).1.color == st.color
            }
        }),
{
}

/// Text with no `{` opens no code, so every call of `next` returns; with
/// [`lemma_dollars_kept`] this fixes what `decode_all` gives on such text.
pub proof fn lemma_no_code_all_defined(st: CodeState)
    requires
        !st.rest.contains('{'),
    ensures
        all_defined(st),
    decreases pending(st),
{
    let s = st.rest;
    if st.remainder is None && s.len() >= 2 && s[0] == '$' {
        assert(s.contains(s[1]));
    }
    assert(next_defined(st));
    lemma_next_yields_decoded(st);
    if step(st).0 is Some {
        let r = step(st).1.rest;
        assert(!r.contains('{')) by {
            if r.contains('{') {
                let k = choose|k: int| 0 <= k < r.len() && r[k] == '{';
                if st.remainder is Some {
                    assert(r[k] == s[k]);
                } else if s[0] == '$' || s[0] == '\\' {
                    assert(r[k] == s[k + 2]);
                } else {
                    assert(r[k] == s[k + 1]);
                }
            }
        }
        lemma_no_code_all_defined(step(st).1);
    }
}

/// Reads characters and decodes colour codes in them (see [`decode`]).
pub struct ColorCodeIter {
    chars: Vec<char>,
    pos: usize,
    color: ColorCode,
    remainder: Option<char>,
}

impl ColorCodeIter {
    #[verifier::type_invariant]
    spec fn inv(self) -> bool {
        self.pos <= self.chars@.len()
    }

    /// The abstract state.
    pub closed spec fn state(self) -> CodeState {
        CodeState {
            rest: self.chars@.skip(self.pos as int),
            remainder: self.remainder,
            color: self.color,
        }
    }
}

impl View for ColorCodeIter {
    type V = CodeState;

    open spec fn view(&self) -> CodeState {
        self.state()
    }
}

proof fn lemma_find_from_step(s: Seq<char>, c: char, i: int)
    requires
        0 <= i < s.len(),
        s[i] != c,
    ensures
        find_from(s, c, i) == find_from(s, c, i + 1),
{
}

impl ColorCodeIter {
    /// Starts decoding `chars`, with blue as the current colour.
    pub fn new(chars: Vec<char>) -> (it: Self)
        ensures
            it@ == (CodeState { rest: chars@, remainder: None, color: ColorCode::Blue }),
    {
        let it = ColorCodeIter { chars, pos: 0, color: ColorCode::Blue, remainder: None };
        assert(it.chars@.skip(0) =~= it.chars@);
        it
    }

    /// Whether `next` returns from the current state (see [`next_defined`]).
    pub fn next_is_defined(&self) -> (b: bool)
        ensures
            b == next_defined(self@),
            front_code_ascii(self@) ==> b,
    {
        proof { lemma_ascii_code_defined_if(self@); }
        proof { use_type_invariant(self); }
        let ghost s = self@.rest;
        let n = self.chars.len();
        if self.remainder.is_some() || n - self.pos < 2 {
            return true;
        }
        if self.chars[self.pos] != '$' || self.chars[self.pos + 1] != '{' {
            return true;
        }
        let j = self.find_close();
        if j >= n {
            return false;
        }
        let name = sub_chars(&self.chars, self.pos + 2, j);
        assert(name@ =~= s.subrange(2, j - self.pos));
        let text = string_of(&name);
        crate::color::color_name_safe_exec(text.as_str())
    }

    /// The position of the first `}` after an opening `${` at the reading
    /// position, or the input's length when there is none.
    fn find_close(&self) -> (j: usize)
        requires
            self.pos + 2 <= self.chars@.len(),
        ensures
            self.pos + 2 <= j <= self.chars@.len(),
            j < self.chars@.len() ==> find_from(self@.rest, '}', 2) == Some(j - self.pos),
            j == self.chars@.len() ==> find_from(self@.rest, '}', 2) is None,
    {
        let ghost s = self@.rest;
        let n = self.chars.len();
        let mut j = self.pos + 2;
        while j < n && self.chars[j] != '}'
            invariant
                self.pos + 2 <= j <= n,
                n == self.chars@.len(),
                s == self.chars@.skip(self.pos as int),
                find_from(s, '}', 2) == find_from(s, '}', j - self.pos),
            decreases n - j,
        {
            proof { lemma_find_from_step(s, '}', j - self.pos); }
            j = j + 1;
        }
        j
    }

    /// Gives the next character with its colour, as [`step`] describes.
    pub fn next(&mut self) -> (res: Option<(char, ColorCode)>)
        requires
            next_defined(old(self)@),
        ensures
            (res, final(self)@) == step(old(self)@),
    {
        proof { use_type_invariant(&*self); }
        let ghost s = self@.rest;
        if let Some(r) = self.remainder {
            self.remainder = None;
            return Some((r, self.color));
        }
        let n = self.chars.len();
        if self.pos >= n {
            return None;
        }
        let c0 = self.chars[self.pos];
        if c0 == '$' {
            if self.pos + 1 >= n {
                self.pos = n;
                assert(self.chars@.skip(n as int) =~= Seq::<char>::empty());
                return None;
            }
            let c1 = self.chars[self.pos + 1];
            if c1 == '{' {
                let j = self.find_close();
                let name = sub_chars(&self.chars, self.pos + 2, j);
                assert(name@ =~= s.subrange(2, j - self.pos));
                let text = string_of(&name);
                match colored_color_from_name(text.as_str()) {
                    Some(c) => {
                        self.color = c;
                    },
                    None => {},
                }
                self.pos = j + 1;
                assert(self.chars@.skip(self.pos as int) =~= s.skip(j - old(self).pos + 1));
                if self.pos >= n {
                    return None;
                }
                let out = self.chars[self.pos];
                self.pos = self.pos + 1;
                assert(self.chars@.skip(self.pos as int) =~= s.skip(j - old(self).pos + 1).drop_first());
                return Some((out, self.color));
            } else {
                self.remainder = Some(c1);
                self.pos = self.pos + 2;
                assert(self.chars@.skip(self.pos as int) =~= s.skip(2));
                return Some(('$', self.color));
            }
        } else if c0 == '\\' {
            if self.pos + 1 >= n {
                self.pos = n;
                assert(self.chars@.skip(n as int) =~= Seq::<char>::empty());
                return None;
            }
            let out = self.chars[self.pos + 1];
            self.pos = self.pos + 2;
            assert(self.chars@.skip(self.pos as int) =~= s.skip(2));
            return Some((out, self.color));
        } else {
            self.pos = self.pos + 1;
            assert(self.chars@.skip(self.pos as int) =~= s.drop_first());
            return Some((c0, self.color));
        }
    }

    /// Calls `next` until it gives `None` or would not return, and collects
    /// what it gives: the decoded text whenever every call returns.
    pub fn decode_all(&mut self) -> (out: Vec<(char, ColorCode)>)
        ensures
            out@ == iterate(old(self)@),
            all_defined(old(self)@) ==> out@ == decode(old(self)@),
    {
        let mut out: Vec<(char, ColorCode)> = Vec::new();
        proof {
            if all_defined(self@) {
                lemma_iterate_decodes(self@);
            }
        }
        loop
            invariant
                iterate(old(self)@) == out@ + iterate(self@),
                all_defined(old(self)@) ==> iterate(old(self)@) == decode(old(self)@),
            ensures
                out@ == iterate(old(self)@),
            decreases pending(self@),
        {
            if !self.next_is_defined() {
                assert(iterate(self@) == Seq::<(char, ColorCode)>::empty());
                assert(out@ + Seq::<(char, ColorCode)>::empty() =~= out@);
                break;
            }
            let ghost before = self@;
            proof { lemma_next_yields_decoded(before); }
            match self.next() {
                Some(x) => {
                    let ghost prev = out@;
                    assert(iterate(before) == seq![x] + iterate(self@));
                    out.push(x);
                    assert(out@ + iterate(self@) =~= prev + (seq![x] + iterate(self@)));
                },
                None => {
                    assert(iterate(before) == Seq::<(char, ColorCode)>::empty());
                    assert(out@ + Seq::<(char, ColorCode)>::empty() =~= out@);
                    break;
                },
            }
        }
        out
    }
}

} // verus!
