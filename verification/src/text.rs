//! Character-level utilities for the dump text: conversion between `String`
//! and `Vec<char>`, splitting into lines, and splitting numeric data blocks
//! into whitespace-separated tokens.

use vstd::prelude::*;

verus! {

use vstd::string::StrSliceExecFns;
use vstd::string::StringExecFns;

/// Whitespace that separates tokens inside a numeric data block.
pub open spec fn is_space(c: char) -> bool {
    c == ' ' || c == '\t' || c == '\r'
}

/// Index of the first character satisfying `p`, or `s.len()` if none does.
pub open spec fn find_first(s: Seq<char>, p: spec_fn(char) -> bool) -> nat
    decreases s.len(),
{
    if s.len() == 0 {
        0
    } else if p(s[0]) {
        0
    } else {
        1 + find_first(s.drop_first(), p)
    }
}

pub proof fn lemma_find_first(s: Seq<char>, p: spec_fn(char) -> bool)
    ensures
        find_first(s, p) <= s.len(),
        forall|i: int| 0 <= i < find_first(s, p) ==> !p(s[i]),
        find_first(s, p) < s.len() ==> p(s[find_first(s, p) as int]),
    decreases s.len(),
{
    if s.len() > 0 && !p(s[0]) {
        lemma_find_first(s.drop_first(), p);
        assert forall|i: int| 0 <= i < find_first(s, p) implies !p(s[i]) by {
            if i > 0 {
                assert(s.drop_first()[i - 1] == s[i]);
            }
        }
        if find_first(s, p) < s.len() {
            assert(s.drop_first()[find_first(s, p) - 1] == s[find_first(s, p) as int]);
        }
    }
}

pub proof fn lemma_find_first_is(s: Seq<char>, p: spec_fn(char) -> bool, j: int)
    requires
        0 <= j <= s.len(),
        forall|i: int| 0 <= i < j ==> !p(s[i]),
        j < s.len() ==> p(s[j]),
    ensures
        find_first(s, p) == j,
    decreases s.len(),
{
    if s.len() > 0 && !p(s[0]) {
        assert(j > 0);
        lemma_find_first_is(s.drop_first(), p, j - 1);
    }
}

/// The dump split at every newline: `n` newlines give `n + 1` lines, so a
/// trailing newline contributes one final empty line.
pub open spec fn spec_lines(s: Seq<char>) -> Seq<Seq<char>>
    decreases s.len(),
{
    let k = find_first(s, |c: char| c == '\n');
    if k >= s.len() {
        seq![s]
    } else {
        seq![s.subrange(0, k as int)] + spec_lines(s.subrange(k as int + 1, s.len() as int))
    }
}

/// The views of a sequence of character vectors.
pub open spec fn views_of(r: Seq<Vec<char>>) -> Seq<Seq<char>> {
    r.map_values(|v: Vec<char>| v@)
}

proof fn lemma_lines_whole(pre: Seq<char>)
    requires
        forall|i: int| 0 <= i < pre.len() ==> pre[i] != '\n',
    ensures
        spec_lines(pre) == seq![pre],
{
    lemma_find_first_is(pre, |c: char| c == '\n', pre.len() as int);
}

proof fn lemma_lines_nl(pre: Seq<char>, rest: Seq<char>)
    requires
        forall|i: int| 0 <= i < pre.len() ==> pre[i] != '\n',
        rest.len() > 0,
        rest[0] == '\n',
    ensures
        spec_lines(pre + rest) == seq![pre] + spec_lines(rest.subrange(1, rest.len() as int)),
{
    let s = pre + rest;
    let p = |c: char| c == '\n';
    assert forall|i: int| 0 <= i < pre.len() implies !p(s[i]) by {
        assert(s[i] == pre[i]);
    }
    assert(s[pre.len() as int] == rest[0]);
    lemma_find_first_is(s, p, pre.len() as int);
    assert(s.subrange(0, pre.len() as int) =~= pre);
    assert(s.subrange(pre.len() as int + 1, s.len() as int) =~= rest.subrange(
        1,
        rest.len() as int,
    ));
}

/// Splits the raw text at every newline character.
pub fn split_lines(s: &Vec<char>) -> (r: Vec<Vec<char>>)
    ensures
        views_of(r@) == spec_lines(s@),
{
    let ghost whole = s@;
    let mut out: Vec<Vec<char>> = Vec::new();
    let mut cur: Vec<char> = Vec::new();
    let mut i: usize = 0;
    assert(cur@ + whole.subrange(0, whole.len() as int) =~= whole);
    assert(views_of(out@) =~= Seq::<Seq<char>>::empty());
    while i < s.len()
        invariant
            i <= s.len(),
            whole == s@,
            forall|j: int| 0 <= j < cur@.len() ==> cur@[j] != '\n',
            spec_lines(whole) == views_of(out@) + spec_lines(
                cur@ + whole.subrange(i as int, whole.len() as int),
            ),
        decreases s.len() - i,
    {
        let c = s[i];
        let ghost rest = whole.subrange(i as int, whole.len() as int);
        let ghost rest1 = whole.subrange(i + 1, whole.len() as int);
        assert(rest.subrange(1, rest.len() as int) =~= rest1);
        if c == '\n' {
            proof {
                lemma_lines_nl(cur@, rest);
            }
            let done = cur;
            cur = Vec::new();
            out.push(done);
            assert(views_of(out@) =~= views_of(out@.drop_last()) + seq![done@]);
            assert(cur@ + rest1 =~= rest1);
        } else {
            assert((cur@ + rest) =~= (cur@.push(c) + rest1));
            cur.push(c);
        }
        i += 1;
    }
    assert(cur@ + whole.subrange(s@.len() as int, whole.len() as int) =~= cur@);
    proof {
        lemma_lines_whole(cur@);
    }
    let done = cur;
    out.push(done);
    assert(views_of(out@) =~= views_of(out@.drop_last()) + seq![done@]);
    out
}

/// The whitespace-separated tokens of one data line, in order, with empty
/// pieces dropped.
pub open spec fn spec_tokens(s: Seq<char>) -> Seq<Seq<char>>
    decreases s.len(),
{
    if s.len() == 0 {
        Seq::empty()
    } else if is_space(s[0]) {
        spec_tokens(s.drop_first())
    } else {
        let k = find_first(s, |c: char| is_space(c));
        // The first character is not a space, so the break is at least one
        // character away; the guard only keeps the recursion well-founded.
        if k < 1 || k > s.len() {
            Seq::empty()
        } else {
            seq![s.subrange(0, k as int)] + spec_tokens(s.subrange(k as int, s.len() as int))
        }
    }
}

proof fn lemma_tokens_word(pre: Seq<char>, rest: Seq<char>)
    requires
        pre.len() > 0,
        forall|i: int| 0 <= i < pre.len() ==> !is_space(pre[i]),
        rest.len() == 0 || is_space(rest[0]),
    ensures
        spec_tokens(pre + rest) == seq![pre] + spec_tokens(rest),
{
    let s = pre + rest;
    let p = |c: char| is_space(c);
    assert(!is_space(s[0]));
    assert forall|i: int| 0 <= i < pre.len() implies !p(s[i]) by {
        assert(s[i] == pre[i]);
    }
    if rest.len() > 0 {
        assert(s[pre.len() as int] == rest[0]);
    }
    lemma_find_first_is(s, p, pre.len() as int);
    assert(s.subrange(0, pre.len() as int) =~= pre);
    assert(s.subrange(pre.len() as int, s.len() as int) =~= rest);
}

/// Appends the whitespace-separated tokens of `s` to `out`.
pub fn push_tokens(out: &mut Vec<Vec<char>>, s: &Vec<char>)
    ensures
        views_of(final(out)@) == views_of(old(out)@) + spec_tokens(s@),
{
    let ghost whole = s@;
    let ghost base = views_of(old(out)@);
    let mut cur: Vec<char> = Vec::new();
    let mut i: usize = 0;
    assert(cur@ + whole.subrange(0, whole.len() as int) =~= whole);
    while i < s.len()
        invariant
            i <= s.len(),
            whole == s@,
            forall|j: int| 0 <= j < cur@.len() ==> !is_space(cur@[j]),
            base == views_of(old(out)@),
            base + spec_tokens(whole) == views_of(out@) + spec_tokens(
                cur@ + whole.subrange(i as int, whole.len() as int),
            ),
        decreases s.len() - i,
    {
        let c = s[i];
        let ghost rest = whole.subrange(i as int, whole.len() as int);
        let ghost rest1 = whole.subrange(i + 1, whole.len() as int);
        assert(rest.drop_first() =~= rest1);
        if c == ' ' || c == '\t' || c == '\r' {
            if cur.len() > 0 {
                proof {
                    lemma_tokens_word(cur@, rest);
                }
                let done = cur;
                cur = Vec::new();
                out.push(done);
                assert(views_of(out@) =~= views_of(out@.drop_last()) + seq![done@]);
            }
            assert(cur@ + rest =~= rest);
            assert(cur@ + rest1 =~= rest1);
        } else {
            assert((cur@ + rest) =~= (cur@.push(c) + rest1));
            cur.push(c);
        }
        i += 1;
    }
    assert(cur@ + whole.subrange(s@.len() as int, whole.len() as int) =~= cur@);
    if cur.len() > 0 {
        proof {
            lemma_tokens_word(cur@, Seq::empty());
        }
        assert(cur@ + Seq::<char>::empty() =~= cur@);
        let done = cur;
        out.push(done);
        assert(views_of(out@) =~= views_of(out@.drop_last()) + seq![done@]);
    }
}

/// Turns one string into its character sequence.
pub fn chars_of(s: &str) -> (r: Vec<char>)
    ensures
        r@ == s@,
{
    let n = s.unicode_len();
    let mut r: Vec<char> = Vec::new();
    let mut i: usize = 0;
    while i < n
        invariant
            i <= n,
            n == s@.len(),
            r@ == s@.subrange(0, i as int),
        decreases n - i,
    {
        let c = s.get_char(i);
        r.push(c);
        assert(r@ =~= s@.subrange(0, i + 1));
        i += 1;
    }
    assert(r@ =~= s@);
    r
}

/// Relies on `String::push`: appends exactly the given character to the string.
#[verifier::external_body]
fn push_char(s: &mut String, c: char)
    ensures
        final(s)@ == old(s)@.push(c),
{
    s.push(c);
}

/// Turns a character sequence back into a `String`.
pub fn string_from(v: &Vec<char>) -> (r: String)
    ensures
        r@ == v@,
{
    let mut r = String::new();
    let mut i: usize = 0;
    while i < v.len()
        invariant
            i <= v.len(),
            r@ == v@.subrange(0, i as int),
        decreases v.len() - i,
    {
        push_char(&mut r, v[i]);
        assert(r@ =~= v@.subrange(0, i + 1));
        i += 1;
    }
    assert(r@ =~= v@);
    r
}

} // verus!
