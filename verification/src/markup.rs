//! Cutting a section out of a text template by its opening and closing markers.
use vstd::prelude::*;

use crate::text::{chars_of, matches_at, occurs_at};

verus! {

/// The first position at or after `k` where `pat` occurs in `s`.
pub open spec fn find_from(s: Seq<char>, pat: Seq<char>, k: int) -> Option<int>
    decreases s.len() + 1 - k,
{
    if k < 0 || k + pat.len() > s.len() {
        None
    } else if occurs_at(s, pat, k) {
        Some(k)
    } else {
        find_from(s, pat, k + 1)
    }
}

/// The first position where `pat` occurs in `s`.
pub open spec fn find(s: Seq<char>, pat: Seq<char>) -> Option<int> {
    find_from(s, pat, 0)
}

/// The text strictly between the first `open` in `s` and the first `close` after it.
pub open spec fn between_of(s: Seq<char>, open: Seq<char>, close: Seq<char>) -> Option<Seq<char>> {
    match find(s, open) {
        None => None,
        Some(i) => {
            let start = i + open.len();
            match find(s.skip(start), close) {
                None => None,
                Some(j) => Some(s.subrange(start, start + j)),
            }
        },
    }
}

/// What `find_from` returns: the least occurrence at or after `k`, or none at all.
pub proof fn lemma_find_from(s: Seq<char>, pat: Seq<char>, k: int)
    requires
        0 <= k,
    ensures
        match find_from(s, pat, k) {
            Some(i) => k <= i && occurs_at(s, pat, i) && forall|j: int|
                k <= j < i ==> !occurs_at(s, pat, j),
            None => forall|j: int| k <= j ==> !occurs_at(s, pat, j),
        },
    decreases s.len() + 1 - k,
{
    if k + pat.len() <= s.len() && !occurs_at(s, pat, k) {
        lemma_find_from(s, pat, k + 1);
    }
}

pub(crate) fn find_from_exec(s: &Vec<char>, pat: &Vec<char>, start: usize) -> (r: Option<usize>)
    ensures
        match r {
            Some(i) => find_from(s@, pat@, start as int) == Some(i as int),
            None => find_from(s@, pat@, start as int) is None,
        },
{
    let n = s.len();
    let m = pat.len();
    if m > n {
        return None;
    }
    let mut k: usize = start;
    while k <= n - m
        invariant
            n == s@.len(),
            m == pat@.len(),
            m <= n,
            start <= k,
            find_from(s@, pat@, start as int) == find_from(s@, pat@, k as int),
        decreases n + 1 - k,
    {
        if matches_at(s, pat, k) {
            return Some(k);
        }
        if k == n - m {
            assert(find_from(s@, pat@, k as int + 1) is None);
            return None;
        }
        k = k + 1;
    }
    None
}

/// The last position at or before `k` where `pat` occurs in `s`.
pub open spec fn rfind_upto(s: Seq<char>, pat: Seq<char>, k: int) -> Option<int>
    decreases k + 1,
{
    if k < 0 {
        None
    } else if occurs_at(s, pat, k) {
        Some(k)
    } else {
        rfind_upto(s, pat, k - 1)
    }
}

/// The last position where `pat` occurs in `s`.
pub open spec fn rfind(s: Seq<char>, pat: Seq<char>) -> Option<int> {
    rfind_upto(s, pat, s.len() - pat.len())
}

/// What `rfind_upto` returns: the greatest occurrence at or before `k`, or none.
pub proof fn lemma_rfind_upto(s: Seq<char>, pat: Seq<char>, k: int)
    ensures
        match rfind_upto(s, pat, k) {
            Some(i) => 0 <= i <= k && occurs_at(s, pat, i) && forall|j: int|
                i < j <= k ==> !occurs_at(s, pat, j),
            None => forall|j: int| j <= k ==> !occurs_at(s, pat, j),
        },
    decreases k + 1,
{
    if k >= 0 && !occurs_at(s, pat, k) {
        lemma_rfind_upto(s, pat, k - 1);
    }
}

pub(crate) fn rfind_exec(s: &Vec<char>, pat: &Vec<char>) -> (r: Option<usize>)
    ensures
        match r {
            Some(i) => rfind(s@, pat@) == Some(i as int),
            None => rfind(s@, pat@) is None,
        },
{
    let n = s.len();
    let m = pat.len();
    if m > n {
        return None;
    }
    let mut k: usize = n - m;
    loop
        invariant
            n == s@.len(),
            m == pat@.len(),
            m <= n,
            k <= n - m,
            rfind(s@, pat@) == rfind_upto(s@, pat@, k as int),
        decreases k,
    {
        if matches_at(s, pat, k) {
            return Some(k);
        }
        if k == 0 {
            assert(rfind_upto(s@, pat@, -1) is None);
            return None;
        }
        k = k - 1;
    }
}

/// The part of `s` after the first `open` and before the next `close`, or `None`
/// where either marker is missing.
pub fn between<'a>(s: &'a str, open: &str, close: &str) -> (r: Option<&'a str>)
    ensures
        match r {
            Some(mid) => between_of(s@, open@, close@) == Some(mid@),
            None => between_of(s@, open@, close@) is None,
        },
{
    let sv = chars_of(s);
    let ov = chars_of(open);
    let cv = chars_of(close);
    match find_from_exec(&sv, &ov, 0) {
        None => None,
        Some(i) => {
            proof {
                lemma_find_from(s@, open@, 0);
            }
            let total = sv.len();
            assert(i + ov@.len() <= total);
            let start = i + ov.len();
            let rest = chars_of(s.substring_char(start, sv.len()));
            match find_from_exec(&rest, &cv, 0) {
                None => None,
                Some(j) => {
                    proof {
                        lemma_find_from(rest@, close@, 0);
                    }
                    Some(s.substring_char(start, start + j))
                },
            }
        },
    }
}

/// A found section sits in `s` right after `open` and right before `close`,
/// and holds no complete `close` of its own.
pub proof fn lemma_between_decomposes(s: Seq<char>, open: Seq<char>, close: Seq<char>)
    requires
        between_of(s, open, close) is Some,
    ensures
        ({
            let mid = between_of(s, open, close)->0;
            &&& exists|a: Seq<char>, b: Seq<char>| s == a + open + mid + close + b
            &&& forall|k: int| 0 <= k < mid.len() ==> !occurs_at(mid, close, k)
        }),
{
    lemma_find_from(s, open, 0);
    let i = find(s, open)->0;
    let start = i + open.len();
    let rest = s.skip(start);
    lemma_find_from(rest, close, 0);
    let j = find(rest, close)->0;
    let mid = s.subrange(start, start + j);
    let a = s.subrange(0, i);
    let b = s.skip(start + j + close.len());
    assert(between_of(s, open, close) == Some(mid));
    assert(s.subrange(i, start) == open);
    assert(rest.subrange(j, j + close.len()) == close);
    assert(s =~= a + open + mid + close + b);
    assert(exists|a: Seq<char>, b: Seq<char>| s == a + open + mid + close + b);
    assert forall|k: int| 0 <= k < mid.len() implies !occurs_at(mid, close, k) by {
        if occurs_at(mid, close, k) {
            assert(rest.subrange(k, k + close.len()) =~= mid.subrange(k, k + close.len()));
            assert(occurs_at(rest, close, k));
            assert(!occurs_at(rest, close, k));
        }
    }
    assert(between_of(s, open, close)->0 == mid);
}

} // verus!
