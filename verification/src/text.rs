//! Character-sequence utilities shared by the corpus parser and the excerpt
//! locator: conversion between `str` and `Vec<char>`, whitespace trimming,
//! and first-occurrence substring search.
use vstd::prelude::*;
use vstd::string::StrSliceExecFns;

verus! {

/// True when `sub` occurs in `s` starting at position `i`.
pub open spec fn match_at(s: Seq<char>, sub: Seq<char>, i: int) -> bool {
    0 <= i && i + sub.len() <= s.len() && s.subrange(i, i + sub.len() as int) == sub
}

/// True when `sub` occurs somewhere in `s`.
pub open spec fn occurs_in(s: Seq<char>, sub: Seq<char>) -> bool {
    exists|i: int| match_at(s, sub, i)
}

/// Position of the first occurrence of `sub` in `s` at or after `from`.
pub open spec fn first_match_from(s: Seq<char>, sub: Seq<char>, from: int) -> Option<int>
    decreases s.len() - from + 1,
{
    if from < 0 || from + sub.len() > s.len() {
        None
    } else if match_at(s, sub, from) {
        Some(from)
    } else {
        first_match_from(s, sub, from + 1)
    }
}

pub proof fn lemma_first_match_from(s: Seq<char>, sub: Seq<char>, from: int)
    requires
        from >= 0,
    ensures
        match first_match_from(s, sub, from) {
            Some(i) => from <= i && match_at(s, sub, i) && forall|j: int|
                from <= j < i ==> !match_at(s, sub, j),
            None => forall|j: int| j >= from ==> !match_at(s, sub, j),
        },
    decreases s.len() - from + 1,
{
    if from + sub.len() > s.len() {
    } else if match_at(s, sub, from) {
    } else {
        lemma_first_match_from(s, sub, from + 1);
    }
}

/// The first occurrence exists exactly when some occurrence exists.
pub proof fn lemma_first_match_occurs(s: Seq<char>, sub: Seq<char>)
    ensures
        first_match_from(s, sub, 0) is Some <==> occurs_in(s, sub),
{
    lemma_first_match_from(s, sub, 0);
    if first_match_from(s, sub, 0) is Some {
        let i = first_match_from(s, sub, 0)->Some_0;
        assert(match_at(s, sub, i));
    }
}

/// What splitting `s` once at the first occurrence of `d` yields: the parts
/// before and after the delimiter, or nothing when `d` does not occur.
pub open spec fn split_once_spec(s: Seq<char>, d: Seq<char>) -> Option<(Seq<char>, Seq<char>)> {
    match first_match_from(s, d, 0) {
        Some(i) => Some((s.take(i), s.skip(i + d.len() as int))),
        None => None,
    }
}

/// What splitting `s` at every occurrence of `d` yields: the fragments
/// between consecutive occurrences, always at least one.
pub open spec fn split_all(s: Seq<char>, d: Seq<char>) -> Seq<Seq<char>>
    decreases s.len(),
{
    if d.len() == 0 {
        seq![s]
    } else {
        match first_match_from(s, d, 0) {
            None => seq![s],
            Some(i) => {
                proof {
                    lemma_first_match_from(s, d, 0);
                }
                seq![s.take(i)] + split_all(s.skip(i + d.len() as int), d)
            },
        }
    }
}

/// The characters of `s`, one element per `char`.
pub fn to_chars(s: &str) -> (r: Vec<char>)
    ensures
        r@ == s@,
{
    let n = s.unicode_len();
    let mut r: Vec<char> = Vec::new();
    let mut i: usize = 0;
    while i < n
        invariant
            n == s@.len(),
            i <= n,
            r@ == s@.subrange(0, i as int),
        decreases n - i,
    {
        r.push(s.get_char(i));
        assert(r@ =~= s@.subrange(0, i + 1 as int));
        i += 1;
    }
    assert(r@ =~= s@);
    r
}

/// Relies on `String::from_iter` (through `Iterator::collect`): the string
/// made of exactly the characters of the iterator, in order.
#[verifier::external_body]
pub fn chars_to_string(v: &Vec<char>) -> (r: String)
    ensures
        r@ == v@,
{
    v.iter().collect()
}

/// A copy of `v[a..b]`.
pub fn sub_vec(v: &Vec<char>, a: usize, b: usize) -> (r: Vec<char>)
    requires
        a <= b <= v@.len(),
    ensures
        r@ == v@.subrange(a as int, b as int),
{
    let mut r: Vec<char> = Vec::new();
    let mut i: usize = a;
    while i < b
        invariant
            a <= i <= b <= v@.len(),
            r@ == v@.subrange(a as int, i as int),
        decreases b - i,
    {
        r.push(v[i]);
        assert(r@ =~= v@.subrange(a as int, i + 1 as int));
        i += 1;
    }
    r
}

/// Whether `sub` occurs in `v` starting at position `i`.
pub(crate) fn is_match_at(v: &Vec<char>, sub: &Vec<char>, i: usize) -> (r: bool)
    requires
        i + sub@.len() <= v@.len(),
    ensures
        r == match_at(v@, sub@, i as int),
{
    let n = v.len();
    let mut j: usize = 0;
    while j < sub.len()
        invariant
            n == v@.len(),
            i + sub@.len() <= v@.len(),
            j <= sub@.len(),
            forall|k: int| 0 <= k < j ==> v@[i + k] == sub@[k],
        decreases sub@.len() - j,
    {
        assert(i + j < v@.len());
        if v[i + j] != sub[j] {
            assert(v@.subrange(i as int, i + sub@.len() as int)[j as int] != sub@[j as int]);
            return false;
        }
        j += 1;
    }
    assert(v@.subrange(i as int, i + sub@.len() as int) =~= sub@);
    true
}

/// The position of the first occurrence of `sub` in `v`, if any.
pub fn find_sub(v: &Vec<char>, sub: &Vec<char>) -> (r: Option<usize>)
    ensures
        match r {
            Some(i) => first_match_from(v@, sub@, 0) == Some(i as int),
            None => first_match_from(v@, sub@, 0) is None,
        },
{
    if sub.len() > v.len() {
        return None;
    }
    if sub.len() == 0 {
        assert(v@.subrange(0, 0) =~= sub@);
        return Some(0);
    }
    let mut i: usize = 0;
    while i <= v.len() - sub.len()
        invariant
            1 <= sub@.len() <= v@.len(),
            i <= v@.len() - sub@.len() + 1,
            first_match_from(v@, sub@, 0) == first_match_from(v@, sub@, i as int),
        decreases v@.len() - i,
    {
        if is_match_at(v, sub, i) {
            return Some(i);
        }
        i += 1;
    }
    None
}

/// Filtering a sequence extended by one element keeps the filtered prefix.
pub proof fn lemma_filter_push<A>(s: Seq<A>, p: spec_fn(A) -> bool, x: A)
    ensures
        s.push(x).filter(p) == if p(x) {
            s.filter(p).push(x)
        } else {
            s.filter(p)
        },
{
    reveal(Seq::filter);
    assert(s.push(x).drop_last() =~= s);
    assert(s.push(x).last() == x);
}

/// Every element of a filtered sequence is an element of the original.
pub proof fn lemma_filter_membership<A>(s: Seq<A>, p: spec_fn(A) -> bool, i: int)
    requires
        0 <= i < s.filter(p).len(),
    ensures
        exists|k: int| 0 <= k < s.len() && s[k] == s.filter(p)[i],
    decreases s.len(),
{
    reveal(Seq::filter);
    if s.len() > 0 {
        let d = s.drop_last();
        if p(s.last()) && i == s.filter(p).len() - 1 {
            assert(s[s.len() - 1] == s.filter(p)[i]);
        } else {
            lemma_filter_membership(d, p, i);
            let k = choose|k: int| 0 <= k < d.len() && d[k] == d.filter(p)[i];
            assert(s[k] == s.filter(p)[i]);
        }
    }
}

/// Filtering keeps everything when the predicate holds of every element.
pub proof fn lemma_filter_all<A>(s: Seq<A>, p: spec_fn(A) -> bool)
    requires
        forall|i: int| 0 <= i < s.len() ==> p(s[i]),
    ensures
        s.filter(p) == s,
    decreases s.len(),
{
    reveal(Seq::filter);
    if s.len() > 0 {
        let d = s.drop_last();
        assert(forall|i: int| 0 <= i < d.len() ==> d[i] == s[i] && p(s[i]));
        lemma_filter_all(d, p);
        assert(s.filter(p) =~= s);
    } else {
        assert(s.filter(p) =~= s);
    }
}

/// Two elements of a filtered sequence stem from two elements of the
/// original that stand in the same order.
pub proof fn lemma_filter_pair_order<A>(s: Seq<A>, p: spec_fn(A) -> bool, i: int, j: int)
    requires
        0 <= i <= j < s.filter(p).len(),
    ensures
        exists|i2: int, j2: int|
            0 <= i2 <= j2 < s.len() && s[i2] == s.filter(p)[i] && s[j2] == s.filter(p)[j],
    decreases s.len(),
{
    reveal(Seq::filter);
    if s.len() > 0 {
        let d = s.drop_last();
        let f = s.filter(p);
        let fd = d.filter(p);
        if p(s.last()) {
            assert(f =~= fd.push(s.last()));
            if j < fd.len() {
                lemma_filter_pair_order(d, p, i, j);
                let (i2, j2) = choose|i2: int, j2: int|
                    0 <= i2 <= j2 < d.len() && d[i2] == fd[i] && d[j2] == fd[j];
                assert(s[i2] == f[i] && s[j2] == f[j]);
            } else {
                assert(j == fd.len() && f[j] == s.last());
                if i == j {
                    assert(s[s.len() - 1] == f[i]);
                    assert(0 <= s.len() - 1 <= s.len() - 1 < s.len() && s[s.len() - 1] == f[i]
                        && s[s.len() - 1] == f[j]);
                } else {
                    lemma_filter_membership(d, p, i);
                    let k = choose|k: int| 0 <= k < d.len() && d[k] == fd[i];
                    assert(0 <= k <= s.len() - 1 < s.len() && s[k] == f[i] && s[s.len() - 1]
                        == f[j]);
                }
            }
        } else {
            assert(f =~= fd);
            lemma_filter_pair_order(d, p, i, j);
            let (i2, j2) = choose|i2: int, j2: int|
                0 <= i2 <= j2 < d.len() && d[i2] == fd[i] && d[j2] == fd[j];
            assert(s[i2] == f[i] && s[j2] == f[j]);
        }
    }
}

/// A whitespace character as the title trimmer understands it: the Unicode
/// White_Space set, the one `str::trim` goes by.
pub open spec fn is_space(c: char) -> bool {
    let u = c as u32;
    (9 <= u && u <= 13) || u == 32 || u == 0x85 || u == 0xA0 || u == 0x1680 || (0x2000 <= u && u
        <= 0x200A) || u == 0x2028 || u == 0x2029 || u == 0x202F || u == 0x205F || u == 0x3000
}

/// The position of the first non-space character at or after `i`, or the
/// length of `s` when spaces run to the end.
pub open spec fn first_non_space(s: Seq<char>, i: int) -> int
    decreases s.len() - i,
{
    if i < 0 || i >= s.len() {
        s.len() as int
    } else if is_space(s[i]) {
        first_non_space(s, i + 1)
    } else {
        i
    }
}

/// The position one past the last non-space character at or before `i - 1`,
/// or 0 when spaces run back to the start.
pub open spec fn last_non_space_end(s: Seq<char>, i: int) -> int
    decreases i,
{
    if i <= 0 || i > s.len() {
        0
    } else if is_space(s[i - 1]) {
        last_non_space_end(s, i - 1)
    } else {
        i
    }
}

/// `s` with leading and trailing whitespace removed.
pub open spec fn trim_spec(s: Seq<char>) -> Seq<char> {
    let a = first_non_space(s, 0);
    let b = last_non_space_end(s, s.len() as int);
    if a >= b {
        Seq::<char>::empty()
    } else {
        s.subrange(a, b)
    }
}

fn is_space_exec(c: char) -> (r: bool)
    ensures
        r == is_space(c),
{
    let u = c as u32;
    (9 <= u && u <= 13) || u == 32 || u == 0x85 || u == 0xA0 || u == 0x1680 || (0x2000 <= u && u
        <= 0x200A) || u == 0x2028 || u == 0x2029 || u == 0x202F || u == 0x205F || u == 0x3000
}

/// A copy of `v` with leading and trailing whitespace removed.
pub fn trim_vec(v: &Vec<char>) -> (r: Vec<char>)
    ensures
        r@ == trim_spec(v@),
{
    let mut a: usize = 0;
    while a < v.len() && is_space_exec(v[a])
        invariant
            a <= v@.len(),
            first_non_space(v@, 0) == first_non_space(v@, a as int),
        decreases v@.len() - a,
    {
        a += 1;
    }
    assert(first_non_space(v@, 0) == a);
    let mut b: usize = v.len();
    while b > 0 && is_space_exec(v[b - 1])
        invariant
            b <= v@.len(),
            last_non_space_end(v@, v@.len() as int) == last_non_space_end(v@, b as int),
        decreases b,
    {
        b -= 1;
    }
    assert(last_non_space_end(v@, v@.len() as int) == b);
    if a >= b {
        let r: Vec<char> = Vec::new();
        assert(r@ =~= trim_spec(v@));
        r
    } else {
        sub_vec(v, a, b)
    }
}

} // verus!
