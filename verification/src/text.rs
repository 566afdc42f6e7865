//! Character sequences: conversion from and to strings, white space,
//! words, trimming and lines, with the meaning `str` gives them.

use vstd::prelude::*;

verus! {

/// Appends one character to a string.
pub assume_specification[ String::push ](s: &mut String, ch: char)
    ensures
        final(s)@ == old(s)@.push(ch),
;

/// The characters of a string, in order.
pub fn chars_of(s: &str) -> (chars: Vec<char>)
    ensures
        chars@ == s@,
{
    let mut chars: Vec<char> = Vec::new();
    for c in it: s.chars()
        invariant
            chars@ == it.seq().take(it.index() as int),
    {
        chars.push(c);
    }
    chars
}

/// A string made of the given characters.
pub fn string_of(chars: &[char]) -> (s: String)
    ensures
        s@ == chars@,
{
    let mut s = String::new();
    for i in 0..chars.len()
        invariant
            s@ == chars@.take(i as int),
    {
        s.push(chars[i]);
    }
    assert(chars@.take(chars@.len() as int) == chars@);
    s
}

/// White space as `char::is_whitespace` has it (the Unicode White_Space property).
pub open spec fn is_white_space(c: char) -> bool {
    let u = c as u32;
    ||| 9 <= u <= 13
    ||| u == 32
    ||| u == 0x85
    ||| u == 0xA0
    ||| u == 0x1680
    ||| 0x2000 <= u <= 0x200A
    ||| u == 0x2028
    ||| u == 0x2029
    ||| u == 0x202F
    ||| u == 0x205F
    ||| u == 0x3000
}

/// Whether `c` is white space.
pub fn white_space(c: char) -> (ws: bool)
    ensures
        ws == is_white_space(c),
{
    let u = c as u32;
    (9 <= u && u <= 13) || u == 32 || u == 0x85 || u == 0xA0 || u == 0x1680 || (0x2000 <= u && u
        <= 0x200A) || u == 0x2028 || u == 0x2029 || u == 0x202F || u == 0x205F || u == 0x3000
}

/// The number of white-space characters at the start of `s`.
pub open spec fn leading_white(s: Seq<char>) -> nat
    decreases s.len(),
{
    if s.len() > 0 && is_white_space(s[0]) {
        1 + leading_white(s.drop_first())
    } else {
        0
    }
}

/// The number of non-white-space characters at the start of `s`.
pub open spec fn leading_word(s: Seq<char>) -> nat
    decreases s.len(),
{
    if s.len() > 0 && !is_white_space(s[0]) {
        1 + leading_word(s.drop_first())
    } else {
        0
    }
}

/// The number of white-space characters at the end of `s`.
pub open spec fn trailing_white(s: Seq<char>) -> nat
    decreases s.len(),
{
    if s.len() > 0 && is_white_space(s.last()) {
        1 + trailing_white(s.drop_last())
    } else {
        0
    }
}

/// `s` without white space at either end, as `str::trim` gives it.
pub open spec fn trimmed(s: Seq<char>) -> Seq<char> {
    let t = s.skip(leading_white(s) as int);
    t.take(t.len() - trailing_white(t))
}

/// The first white-space-separated word of `s` and what follows it, as the
/// first step of `str::split_whitespace` gives them; `None` when `s` is blank.
pub open spec fn first_word(s: Seq<char>) -> Option<(Seq<char>, Seq<char>)> {
    let t = s.skip(leading_white(s) as int);
    if t.len() == 0 {
        None
    } else {
        Some((t.take(leading_word(t) as int), t.skip(leading_word(t) as int)))
    }
}

pub(crate) proof fn lemma_leading_white(s: Seq<char>, n: int)
    requires
        0 <= n <= s.len(),
        forall|i: int| 0 <= i < n ==> is_white_space(#[trigger] s[i]),
        n == s.len() || !is_white_space(s[n]),
    ensures
        leading_white(s) == n,
    decreases n,
{
    if n > 0 {
        let t = s.drop_first();
        assert forall|i: int| 0 <= i < n - 1 implies is_white_space(#[trigger] t[i]) by {
            assert(t[i] == s[i + 1]);
        }
        if n - 1 < t.len() {
            assert(t[n - 1] == s[n]);
        }
        lemma_leading_white(t, n - 1);
    }
}

pub(crate) proof fn lemma_leading_word(s: Seq<char>, n: int)
    requires
        0 <= n <= s.len(),
        forall|i: int| 0 <= i < n ==> !is_white_space(#[trigger] s[i]),
        n == s.len() || is_white_space(s[n]),
    ensures
        leading_word(s) == n,
    decreases n,
{
    if n > 0 {
        let t = s.drop_first();
        assert forall|i: int| 0 <= i < n - 1 implies !is_white_space(#[trigger] t[i]) by {
            assert(t[i] == s[i + 1]);
        }
        if n - 1 < t.len() {
            assert(t[n - 1] == s[n]);
        }
        lemma_leading_word(t, n - 1);
    }
}

pub(crate) proof fn lemma_trailing_white(s: Seq<char>, n: int)
    requires
        0 <= n <= s.len(),
        forall|i: int| s.len() - n <= i < s.len() ==> is_white_space(#[trigger] s[i]),
        n == s.len() || !is_white_space(s[s.len() - n - 1]),
    ensures
        trailing_white(s) == n,
    decreases n,
{
    if n > 0 {
        let t = s.drop_last();
        assert forall|i: int| t.len() - (n - 1) <= i < t.len() implies is_white_space(
            #[trigger] t[i],
        ) by {
            assert(t[i] == s[i]);
        }
        if n - 1 < t.len() {
            assert(t[t.len() - (n - 1) - 1] == s[s.len() - n - 1]);
        }
        lemma_trailing_white(t, n - 1);
    }
}

/// The index of the first non-white-space character of `s` at or after `from`.
pub fn skip_white(s: &[char], from: usize) -> (end: usize)
    requires
        from <= s@.len(),
    ensures
        from <= end <= s@.len(),
        end - from == leading_white(s@.skip(from as int)),
        end == s@.len() || !is_white_space(s@[end as int]),
{
    let mut end = from;
    while end < s.len() && white_space(s[end])
        invariant
            from <= end <= s@.len(),
            forall|i: int| from <= i < end ==> is_white_space(#[trigger] s@[i]),
        decreases s@.len() - end,
    {
        end = end + 1;
    }
    proof {
        let t = s@.skip(from as int);
        assert forall|i: int| 0 <= i < end - from implies is_white_space(#[trigger] t[i]) by {
            assert(t[i] == s@[from + i]);
        }
        if end < s@.len() {
            assert(t[end - from] == s@[end as int]);
        }
        lemma_leading_white(t, end - from);
    }
    end
}

/// The index just past the word of `s` that starts at `from`.
pub fn skip_word(s: &[char], from: usize) -> (end: usize)
    requires
        from <= s@.len(),
    ensures
        from <= end <= s@.len(),
        end - from == leading_word(s@.skip(from as int)),
{
    let mut end = from;
    while end < s.len() && !white_space(s[end])
        invariant
            from <= end <= s@.len(),
            forall|i: int| from <= i < end ==> !is_white_space(#[trigger] s@[i]),
        decreases s@.len() - end,
    {
        end = end + 1;
    }
    proof {
        let t = s@.skip(from as int);
        assert forall|i: int| 0 <= i < end - from implies !is_white_space(#[trigger] t[i]) by {
            assert(t[i] == s@[from + i]);
        }
        if end < s@.len() {
            assert(t[end - from] == s@[end as int]);
        }
        lemma_leading_word(t, end - from);
    }
    end
}

/// The bounds of the first word of `s` at or after `from`, if there is one.
pub fn next_word(s: &[char], from: usize) -> (bounds: Option<(usize, usize)>)
    requires
        from <= s@.len(),
    ensures
        bounds is None ==> first_word(s@.skip(from as int)) is None,
        bounds matches Some((start, end)) ==> {
            &&& from <= start < end <= s@.len()
            &&& first_word(s@.skip(from as int)) == Some(
                (s@.subrange(start as int, end as int), s@.skip(end as int)),
            )
        },
{
    let start = skip_white(s, from);
    if start == s.len() {
        proof {
            let u = s@.skip(from as int);
            assert(u.skip(leading_white(u) as int).len() == 0);
        }
        return None;
    }
    let end = skip_word(s, start);
    proof {
        let u = s@.skip(from as int);
        let t = u.skip(leading_white(u) as int);
        assert(t =~= s@.skip(start as int));
        assert(s@[start as int] == t[0]);
        assert(!is_white_space(t[0]));
        assert(leading_word(t) == end - start);
        assert(leading_word(t) > 0);
        assert(t.len() > 0);
        assert(t.take(leading_word(t) as int) =~= s@.subrange(start as int, end as int));
        assert(t.skip(leading_word(t) as int) =~= s@.skip(end as int));
        assert(first_word(u) == Some((s@.subrange(start as int, end as int), s@.skip(end as int))));
    }
    Some((start, end))
}

/// `s` without white space at either end.
pub fn trim(s: &[char]) -> (t: Vec<char>)
    ensures
        t@ == trimmed(s@),
{
    let start = skip_white(s, 0);
    let mut end = s.len();
    while end > start && white_space(s[end - 1])
        invariant
            start <= end <= s@.len(),
            forall|i: int| end <= i < s@.len() ==> is_white_space(#[trigger] s@[i]),
        decreases end,
    {
        end = end - 1;
    }
    let mut t: Vec<char> = Vec::new();
    for i in start..end
        invariant
            end <= s@.len(),
            t@ == s@.subrange(start as int, i as int),
    {
        t.push(s[i]);
    }
    proof {
        assert(s@.skip(0) =~= s@);
        let u = s@.skip(start as int);
        let n = s@.len() - end;
        assert forall|i: int| u.len() - n <= i < u.len() implies is_white_space(#[trigger] u[i]) by {
            assert(u[i] == s@[start + i]);
        }
        if n < u.len() {
            assert(u[u.len() - n - 1] == s@[end - 1]);
        }
        lemma_trailing_white(u, n);
        assert(t@ =~= u.take(u.len() - n));
    }
    t
}

} // verus!
