//! Strings as sequences of characters: conversion between `str` and
//! `Vec<char>`, and the search primitives the other modules build on.

use vstd::prelude::*;

verus! {

/// `String::push` appends one character to the end of the string.
pub assume_specification[ String::push ](s: &mut String, ch: char)
    ensures
        final(s)@ == old(s)@.push(ch),
;

/// The characters of `s`, in order.
pub fn chars_of(s: &str) -> (v: Vec<char>)
    ensures
        v@ == s@,
{
    let mut v: Vec<char> = Vec::new();
    for c in it: s.chars()
        invariant
            v@ == it.seq().take(it.index() as int),
            it.seq() == s@,
    {
        v.push(c);
    }
    v
}

/// The string made of the characters of `v`, in order.
pub fn string_of(v: &[char]) -> (s: String)
    ensures
        s@ == v@,
{
    let mut s = String::new();
    let mut i: usize = 0;
    while i < v.len()
        invariant
            i <= v.len(),
            s@ == v@.take(i as int),
        decreases v.len() - i,
    {
        s.push(v[i]);
        i += 1;
    }
    s
}

/// The string made of `v[from..to]`.
pub fn string_of_range(v: &[char], from: usize, to: usize) -> (s: String)
    requires
        from <= to <= v.len(),
    ensures
        s@ == v@.subrange(from as int, to as int),
{
    let mut s = String::new();
    let mut i: usize = from;
    while i < to
        invariant
            from <= i <= to <= v.len(),
            s@ == v@.subrange(from as int, i as int),
        decreases to - i,
    {
        s.push(v[i]);
        i += 1;
    }
    s
}

/// `text`, where there is one, holds no closing brace.
pub open spec fn is_brace_free(text: Option<Seq<char>>) -> bool {
    text matches Some(t) ==> !t.contains('}')
}

/// `pattern` occurs in `text` at index `at`.
pub open spec fn occurs_at(text: Seq<char>, pattern: Seq<char>, at: int) -> bool {
    &&& 0 <= at
    &&& at + pattern.len() <= text.len()
    &&& text.subrange(at, at + pattern.len()) == pattern
}

/// `pattern` occurs somewhere in `text`.
pub open spec fn occurs_in(text: Seq<char>, pattern: Seq<char>) -> bool {
    exists|at: int| occurs_at(text, pattern, at)
}

/// `text` with every occurrence of `pattern` replaced by `replacement`,
/// scanning from the left and never looking into a replacement that was
/// already written. An empty pattern occurs nowhere.
pub open spec fn replace_all(text: Seq<char>, pattern: Seq<char>, replacement: Seq<char>) -> Seq<
    char,
>
    decreases text.len(),
{
    if pattern.len() == 0 || text.len() < pattern.len() {
        text
    } else if occurs_at(text, pattern, 0) {
        replacement + replace_all(text.skip(pattern.len() as int), pattern, replacement)
    } else {
        seq![text[0]] + replace_all(text.skip(1), pattern, replacement)
    }
}

/// Tells whether `pattern` occurs in `text` at index `at`.
pub fn matches_at(text: &[char], pattern: &[char], at: usize) -> (found: bool)
    ensures
        found == occurs_at(text@, pattern@, at as int),
{
    if at > text.len() || pattern.len() > text.len() - at {
        return false;
    }
    let mut k: usize = 0;
    while k < pattern.len()
        invariant
            k <= pattern.len(),
            at + pattern.len() <= text.len(),
            forall|j: int| 0 <= j < k ==> text@[at + j] == pattern@[j],
        decreases pattern.len() - k,
    {
        if text[at + k] != pattern[k] {
            assert(text@.subrange(at as int, at + pattern.len())[k as int] != pattern@[k as int]);
            return false;
        }
        k += 1;
    }
    assert(text@.subrange(at as int, at + pattern.len()) =~= pattern@);
    true
}

/// Appends the characters of `tail` to `out`.
pub fn extend(out: &mut Vec<char>, tail: &[char])
    ensures
        final(out)@ == old(out)@ + tail@,
{
    let mut k: usize = 0;
    while k < tail.len()
        invariant
            k <= tail.len(),
            out@ == old(out)@ + tail@.take(k as int),
        decreases tail.len() - k,
    {
        out.push(tail[k]);
        k += 1;
    }
    assert(tail@.take(tail.len() as int) =~= tail@);
}

/// Replaces every occurrence of `pattern` in `text` by `replacement`.
pub fn replace(text: &[char], pattern: &[char], replacement: &[char]) -> (out: Vec<char>)
    ensures
        out@ == replace_all(text@, pattern@, replacement@),
{
    let mut out: Vec<char> = Vec::new();
    if pattern.len() == 0 {
        extend(&mut out, text);
        return out;
    }
    let mut i: usize = 0;
    assert(text@.skip(0) =~= text@);
    assert(out@ + text@ =~= text@);
    while i < text.len() && pattern.len() <= text.len() - i
        invariant
            i <= text.len(),
            pattern.len() > 0,
            replace_all(text@, pattern@, replacement@) == out@ + replace_all(
                text@.skip(i as int),
                pattern@,
                replacement@,
            ),
        decreases text.len() - i,
    {
        let ghost rest = text@.skip(i as int);
        let hit = matches_at(text, pattern, i);
        proof {
            assert(rest.subrange(0, pattern@.len() as int) =~= text@.subrange(
                i as int,
                i + pattern@.len(),
            ));
        }
        if hit {
            proof {
                assert(rest.skip(pattern@.len() as int) =~= text@.skip(i + pattern@.len()));
            }
            extend(&mut out, replacement);
            i += pattern.len();
        } else {
            proof {
                assert(rest.skip(1) =~= text@.skip(i + 1));
                assert(rest[0] == text@[i as int]);
            }
            out.push(text[i]);
            i += 1;
        }
    }
    let ghost done = out@;
    let mut k: usize = i;
    while k < text.len()
        invariant
            i <= k <= text.len(),
            out@ == done + text@.subrange(i as int, k as int),
        decreases text.len() - k,
    {
        out.push(text[k]);
        k += 1;
    }
    assert(text@.subrange(i as int, text.len() as int) =~= text@.skip(i as int));
    out
}

} // verus!
