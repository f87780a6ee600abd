//! "The first one that ..." over sequences: the first index where a predicate
//! holds, and the first of a run of checks that reports a problem.

use vstd::prelude::*;

verus! {

/// Index of the first element of `s` for which `p` holds.
pub open spec fn first_where<A>(s: Seq<A>, p: spec_fn(A) -> bool) -> Option<int>
    decreases s.len(),
{
    if s.len() == 0 {
        None
    } else {
        match first_where(s.drop_last(), p) {
            Some(i) => Some(i),
            None => if p(s.last()) {
                Some(s.len() - 1)
            } else {
                None
            },
        }
    }
}

/// `first_where` names the first match, or there is none.
pub proof fn lemma_first_where<A>(s: Seq<A>, p: spec_fn(A) -> bool)
    ensures
        match first_where(s, p) {
            Some(i) => 0 <= i < s.len() && p(s[i]) && forall|j: int| 0 <= j < i ==> !p(#[trigger] s[j]),
            None => forall|j: int| 0 <= j < s.len() ==> !p(#[trigger] s[j]),
        },
    decreases s.len(),
{
    if s.len() > 0 {
        lemma_first_where(s.drop_last(), p);
        assert forall|j: int| 0 <= j < s.len() - 1 implies s.drop_last()[j] == s[j] by {}
    }
}

/// The first match is determined by where `p` does and does not hold.
pub proof fn lemma_first_where_at<A>(s: Seq<A>, p: spec_fn(A) -> bool, i: int)
    requires
        0 <= i < s.len(),
        p(s[i]),
        forall|j: int| 0 <= j < i ==> !p(#[trigger] s[j]),
    ensures
        first_where(s, p) == Some(i),
{
    lemma_first_where(s, p);
}

/// No element satisfies `p`.
pub proof fn lemma_first_where_none<A>(s: Seq<A>, p: spec_fn(A) -> bool)
    requires
        forall|j: int| 0 <= j < s.len() ==> !p(#[trigger] s[j]),
    ensures
        first_where(s, p) is None,
{
    lemma_first_where(s, p);
}

/// Two sequences on which two predicates agree position by position have their
/// first match at the same place.
pub proof fn lemma_first_where_same<A, B>(a: Seq<A>, b: Seq<B>, p: spec_fn(A) -> bool, q: spec_fn(B) -> bool)
    requires
        a.len() == b.len(),
        forall|k: int| 0 <= k < a.len() ==> p(#[trigger] a[k]) == q(b[k]),
    ensures
        first_where(a, p) == first_where(b, q),
{
    lemma_first_where(a, p);
    lemma_first_where(b, q);
    match first_where(a, p) {
        Some(i) => {
            assert(q(b[i]));
            assert forall|j: int| 0 <= j < i implies !q(#[trigger] b[j]) by {
                assert(p(a[j]) == q(b[j]));
            }
            lemma_first_where_at(b, q, i);
        },
        None => {
            assert forall|j: int| 0 <= j < b.len() implies !q(#[trigger] b[j]) by {
                assert(p(a[j]) == q(b[j]));
            }
            lemma_first_where_none(b, q);
        },
    }
}

/// The first problem reported by the checks `f(0)`, ..., `f(n - 1)`, run in order.
pub open spec fn first_some<E>(f: spec_fn(int) -> Option<E>, n: int) -> Option<E>
    decreases n,
{
    if n <= 0 {
        None
    } else {
        match first_some(f, n - 1) {
            Some(e) => Some(e),
            None => f(n - 1),
        }
    }
}

/// Once a check has reported a problem, later checks do not change it.
pub proof fn lemma_first_some_stays<E>(f: spec_fn(int) -> Option<E>, k: int, n: int)
    requires
        k <= n,
        first_some(f, k) is Some,
    ensures
        first_some(f, n) == first_some(f, k),
    decreases n - k,
{
    if k < n {
        lemma_first_some_stays(f, k, n - 1);
    }
}

/// The problem of the first failing check.
pub proof fn lemma_first_some_found<E>(f: spec_fn(int) -> Option<E>, k: int, n: int)
    requires
        0 <= k < n,
        first_some(f, k) is None,
        f(k) is Some,
    ensures
        first_some(f, n) == f(k),
{
    assert(first_some(f, k + 1) == f(k));
    lemma_first_some_stays(f, k + 1, n);
}

/// When no check reports a problem, each one of them passed.
pub proof fn lemma_first_some_none_at<E>(f: spec_fn(int) -> Option<E>, i: int, n: int)
    requires
        0 <= i < n,
        first_some(f, n) is None,
    ensures
        f(i) is None,
    decreases n,
{
    if i < n - 1 {
        lemma_first_some_none_at(f, i, n - 1);
    }
}

} // verus!
