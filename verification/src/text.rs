//! Character sequences: conversion between `str` and `Vec<char>`, search,
//! decimal and radix rendering of integers, and the character classes the
//! string methods rely on.

use vstd::prelude::*;

verus! {

/// `s` viewed as characters, into a vector.
pub fn chars_of(s: &str) -> (r: Vec<char>)
    ensures
        r@ == s@,
{
    broadcast use vstd::string::axiom_spec_iter;
    let mut out: Vec<char> = Vec::new();
    for c in it: s.chars()
        invariant
            it.seq() == s@,
            out@ == it.seq().take(it.index() as int),
    {
        out.push(c);
    }
    out
}

/// Append one character to a string. Calls `String::push`, which appends
/// the character at the end.
#[verifier::external_body]
pub(crate) fn push_char(s: &mut String, c: char)
    ensures
        final(s)@ == old(s)@.push(c),
{
    s.push(c);
}

/// A `String` holding the characters of `v`.
pub fn string_from_chars(v: &[char]) -> (r: String)
    ensures
        r@ == v@,
{
    let mut out = String::new();
    let mut i: usize = 0;
    while i < v.len()
        invariant
            i <= v@.len(),
            out@ == v@.subrange(0, i as int),
        decreases v.len() - i,
    {
        push_char(&mut out, v[i]);
        i = i + 1;
        assert(out@ =~= v@.subrange(0, i as int));
    }
    assert(v@.subrange(0, v@.len() as int) =~= v@);
    out
}

/// A new string holding the characters of the literal or slice `s`.
pub fn str_to_string(s: &str) -> (r: String)
    ensures
        r@ == s@,
{
    String::from_str(s)
}

/// The concatenation of `a` and `b` as a new string.
pub fn concat_str(a: &str, b: &str) -> (r: String)
    ensures
        r@ == a@ + b@,
{
    String::from_str(a).concat(b)
}

/// Whether `a` and `b` hold the same characters.
pub fn str_eq(a: &str, b: &str) -> (r: bool)
    ensures
        r == (a@ == b@),
{
    let x = chars_of(a);
    let y = chars_of(b);
    if x.len() != y.len() {
        return false;
    }
    let mut i: usize = 0;
    while i < x.len()
        invariant
            x@ == a@,
            y@ == b@,
            x@.len() == y@.len(),
            i <= x@.len(),
            forall|j: int| 0 <= j < i ==> x@[j] == y@[j],
        decreases x.len() - i,
    {
        if x[i] != y[i] {
            return false;
        }
        i = i + 1;
    }
    assert(x@ =~= y@);
    true
}

/// Whether `pat` occurs in `s` at position `i`.
pub open spec fn occurs_at<T>(s: Seq<T>, pat: Seq<T>, i: int) -> bool {
    0 <= i && i + pat.len() <= s.len() && s.subrange(i, i + pat.len()) == pat
}

/// Whether `pat` occurs anywhere in `s`.
pub open spec fn seq_contains<T>(s: Seq<T>, pat: Seq<T>) -> bool {
    exists|i: int| occurs_at(s, pat, i)
}

/// Whether `pat` occurs in `s` at position `i` (bytes).
pub fn bytes_match_at(s: &[u8], pat: &[u8], i: usize) -> (r: bool)
    ensures
        r == occurs_at(s@, pat@, i as int),
{
    if i > s.len() || pat.len() > s.len() - i {
        return false;
    }
    let n = s.len();
    let mut k: usize = 0;
    while k < pat.len()
        invariant
            n == s@.len(),
            i + pat@.len() <= s@.len(),
            k <= pat@.len(),
            forall|j: int| 0 <= j < k ==> s@[i + j] == pat@[j],
        decreases pat.len() - k,
    {
        if s[i + k] != pat[k] {
            assert(s@.subrange(i as int, i + pat@.len())[k as int] != pat@[k as int]);
            return false;
        }
        k = k + 1;
    }
    assert(s@.subrange(i as int, i + pat@.len()) =~= pat@);
    true
}

/// Whether `pat` occurs in `s` at position `i` (characters).
pub fn chars_match_at(s: &[char], pat: &[char], i: usize) -> (r: bool)
    ensures
        r == occurs_at(s@, pat@, i as int),
{
    if i > s.len() || pat.len() > s.len() - i {
        return false;
    }
    let n = s.len();
    let mut k: usize = 0;
    while k < pat.len()
        invariant
            n == s@.len(),
            i + pat@.len() <= s@.len(),
            k <= pat@.len(),
            forall|j: int| 0 <= j < k ==> s@[i + j] == pat@[j],
        decreases pat.len() - k,
    {
        if s[i + k] != pat[k] {
            assert(s@.subrange(i as int, i + pat@.len())[k as int] != pat@[k as int]);
            return false;
        }
        k = k + 1;
    }
    assert(s@.subrange(i as int, i + pat@.len()) =~= pat@);
    true
}

/// The first position at or after `from` where `pat` occurs in `s`, or -1.
pub open spec fn find_from<T>(s: Seq<T>, pat: Seq<T>, from: int) -> int
    decreases s.len() - from,
{
    if from < 0 || from + pat.len() > s.len() {
        -1
    } else if occurs_at(s, pat, from) {
        from
    } else if from >= s.len() {
        -1
    } else {
        find_from(s, pat, from + 1)
    }
}

/// The last position `p` with `p + pat.len() <= end` where `pat` occurs in
/// `s`, or -1.
pub open spec fn rfind_to<T>(s: Seq<T>, pat: Seq<T>, end: int) -> int
    decreases end,
{
    if end < pat.len() || end > s.len() {
        -1
    } else if occurs_at(s, pat, end - pat.len()) {
        end - pat.len()
    } else if end <= 0 {
        -1
    } else {
        rfind_to(s, pat, end - 1)
    }
}

/// `find` gives the first position at or after `from` where the pattern
/// occurs, or -1 when it occurs nowhere from there.
pub proof fn law_find_is_first_occurrence<T>(s: Seq<T>, pat: Seq<T>, from: int)
    requires
        0 <= from,
    ensures
        find_from(s, pat, from) >= 0 ==> {
            let p = find_from(s, pat, from);
            &&& from <= p
            &&& occurs_at(s, pat, p)
            &&& forall|j: int| from <= j < p ==> !occurs_at(s, pat, j)
        },
        find_from(s, pat, from) < 0 ==> find_from(s, pat, from) == -1 && forall|j: int| from <= j ==> !occurs_at(s, pat, j),
    decreases s.len() - from,
{
    if from + pat.len() > s.len() {
    } else if occurs_at(s, pat, from) {
    } else if from >= s.len() {
        assert forall|j: int| from <= j implies !occurs_at(s, pat, j) by {
            if j > from { assert(j + pat.len() > s.len()); }
        }
    } else {
        law_find_is_first_occurrence(s, pat, from + 1);
    }
}

/// `rfind` gives the last position `p` with `p + len(pat) <= end` where the
/// pattern occurs, or -1 when there is none.
pub proof fn law_rfind_is_last_occurrence<T>(s: Seq<T>, pat: Seq<T>, end: int)
    requires
        end <= s.len(),
    ensures
        rfind_to(s, pat, end) >= 0 ==> {
            let p = rfind_to(s, pat, end);
            &&& p + pat.len() <= end
            &&& occurs_at(s, pat, p)
            &&& forall|j: int| p < j && j + pat.len() <= end ==> !occurs_at(s, pat, j)
        },
        rfind_to(s, pat, end) < 0 ==> rfind_to(s, pat, end) == -1 && forall|j: int| j + pat.len() <= end ==> !occurs_at(s, pat, j),
    decreases end,
{
    if end < pat.len() {
        assert forall|j: int| j + pat.len() <= end implies !occurs_at(s, pat, j) by {}
    } else if occurs_at(s, pat, end - pat.len()) {
    } else if end <= 0 {
        assert forall|j: int| j + pat.len() <= end implies !occurs_at(s, pat, j) by {}
    } else {
        law_rfind_is_last_occurrence(s, pat, end - 1);
    }
}

} // verus!
