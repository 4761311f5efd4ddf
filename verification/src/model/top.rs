//! The largest elements of a set, held as an increasing sequence.

use vstd::prelude::*;
use crate::model::keyset::{
    increasing, largest, lemma_increasing_unique, lemma_largest, lemma_proper_subset_len,
    lemma_subset_len,
};

verus! {

/// `x` ranks below `y`.
pub open spec fn lower(x: u128, y: u128) -> bool {
    x < y
}

/// Whether `result` holds the `cap` largest elements of `s`, or all of them
/// where they are no more than `cap`.
pub open spec fn is_top(result: Seq<u128>, s: Set<u128>, cap: nat) -> bool {
    &&& increasing(result)
    &&& result.len() <= cap
    &&& forall|x: u128| #[trigger] result.contains(x) ==> s.contains(x)
    &&& forall|x: u128, y: u128|
        s.contains(x) && !result.contains(x) && #[trigger] result.contains(y) ==> #[trigger] lower(
            x,
            y,
        )
    &&& (exists|x: u128| s.contains(x) && !result.contains(x)) ==> result.len() == cap
}

/// The elements of two sequences.
pub open spec fn elements(a: Seq<u128>, b: Seq<u128>) -> Set<u128> {
    Set::new(|x: u128| a.contains(x) || b.contains(x))
}

/// Whether `result` holds the `cap` largest of the elements of `a` and `b`,
/// or all of them where they are no more than `cap`.
pub open spec fn is_top_of(result: Seq<u128>, a: Seq<u128>, b: Seq<u128>, cap: nat) -> bool {
    &&& increasing(result)
    &&& result.len() <= cap
    &&& forall|x: u128| #[trigger] result.contains(x) ==> (a.contains(x) || b.contains(x))
    &&& forall|x: u128, y: u128|
        (a.contains(x) || b.contains(x)) && !result.contains(x) && #[trigger] result.contains(y)
            ==> #[trigger] lower(x, y)
    &&& (exists|x: u128| (a.contains(x) || b.contains(x)) && !result.contains(x)) ==> result.len()
        == cap
}

/// The best of two sequences are the best of their elements.
pub proof fn lemma_top_of_elements(result: Seq<u128>, a: Seq<u128>, b: Seq<u128>, cap: nat)
    ensures
        is_top_of(result, a, b, cap) <==> is_top(result, elements(a, b), cap),
{
    let s = elements(a, b);
    assert forall|x: u128| s.contains(x) <==> (a.contains(x) || b.contains(x)) by {}
    if is_top_of(result, a, b, cap) {
        assert forall|x: u128, y: u128|
            s.contains(x) && !result.contains(x) && #[trigger] result.contains(y) implies #[trigger] lower(
            x,
            y,
        ) by {}
        if exists|x: u128| s.contains(x) && !result.contains(x) {
            let x = choose|x: u128| s.contains(x) && !result.contains(x);
            assert((a.contains(x) || b.contains(x)) && !result.contains(x));
        }
    }
    if is_top(result, s, cap) {
        assert forall|x: u128, y: u128|
            (a.contains(x) || b.contains(x)) && !result.contains(x) && #[trigger] result.contains(
                y,
            ) implies #[trigger] lower(x, y) by {
            assert(s.contains(x));
        }
        if exists|x: u128| (a.contains(x) || b.contains(x)) && !result.contains(x) {
            let x = choose|x: u128| (a.contains(x) || b.contains(x)) && !result.contains(x);
            assert(s.contains(x) && !result.contains(x));
        }
        assert forall|x: u128| #[trigger] result.contains(x) implies (a.contains(x) || b.contains(
            x,
        )) by {
            assert(s.contains(x));
        }
    }
}

/// The largest elements of a set are determined.
pub proof fn lemma_top_unique(first: Seq<u128>, second: Seq<u128>, s: Set<u128>, cap: nat)
    requires
        is_top(first, s, cap),
        is_top(second, s, cap),
    ensures
        first == second,
{
    assert forall|x: u128| first.contains(x) <==> second.contains(x) by {
        if first.contains(x) {
            lemma_top_shared(first, second, s, cap, x);
        }
        if second.contains(x) {
            lemma_top_shared(second, first, s, cap, x);
        }
    }
    lemma_increasing_unique(first, second);
}

proof fn lemma_top_shared(first: Seq<u128>, second: Seq<u128>, s: Set<u128>, cap: nat, x: u128)
    requires
        is_top(first, s, cap),
        is_top(second, s, cap),
        first.contains(x),
    ensures
        second.contains(x),
{
    if !second.contains(x) {
        assert(s.contains(x));
        assert(second.len() == cap);
        assert forall|y: u128| second.contains(y) implies first.contains(y) by {
            assert(lower(x, y));
            if !first.contains(y) {
                assert(s.contains(y));
                assert(lower(y, x));
            }
        }
        lemma_proper_subset_len(second, first, x);
    }
}

/// Taking the largest in two steps gives the largest of the whole: where
/// `inner` holds the largest of `s1`, the largest of `inner` and `s2` are the
/// largest of `s1` and `s2`.
pub proof fn lemma_top_staged(
    inner: Seq<u128>,
    outer: Seq<u128>,
    s1: Set<u128>,
    s2: Set<u128>,
    cap: nat,
)
    requires
        is_top(inner, s1, cap),
        is_top(outer, Set::new(|x: u128| inner.contains(x) || s2.contains(x)), cap),
    ensures
        is_top(outer, s1.union(s2), cap),
{
    let mid = Set::new(|x: u128| inner.contains(x) || s2.contains(x));
    let all = s1.union(s2);
    assert forall|x: u128| #[trigger] outer.contains(x) implies all.contains(x) by {
        assert(mid.contains(x));
    }
    assert forall|x: u128, y: u128|
        all.contains(x) && !outer.contains(x) && #[trigger] outer.contains(y) implies #[trigger] lower(
        x,
        y,
    ) by {
        if mid.contains(x) {
            assert(lower(x, y));
        } else {
            lemma_top_gone(inner, outer, s1, s2, cap, x);
            assert(s1.contains(x) && !inner.contains(x));
            if inner.contains(y) {
                assert(lower(x, y));
            } else if !lower(x, y) {
                assert(mid.contains(y));
                assert(x != y);
                assert forall|z: u128| inner.contains(z) implies outer.contains(z) by {
                    assert(lower(x, z));
                    if !outer.contains(z) {
                        assert(mid.contains(z));
                        assert(lower(z, y));
                    }
                }
                lemma_proper_subset_len(inner, outer, y);
            }
        }
    }
    if exists|x: u128| all.contains(x) && !outer.contains(x) {
        let x = choose|x: u128| all.contains(x) && !outer.contains(x);
        if mid.contains(x) {
            assert(mid.contains(x) && !outer.contains(x));
        } else {
            lemma_top_gone(inner, outer, s1, s2, cap, x);
        }
    }
}

/// What follows for the second step from an element that the first step
/// dropped: the first step was full, and so is the second.
proof fn lemma_top_gone(
    inner: Seq<u128>,
    outer: Seq<u128>,
    s1: Set<u128>,
    s2: Set<u128>,
    cap: nat,
    x: u128,
)
    requires
        is_top(inner, s1, cap),
        is_top(outer, Set::new(|x: u128| inner.contains(x) || s2.contains(x)), cap),
        s1.union(s2).contains(x),
        !inner.contains(x),
        !s2.contains(x),
    ensures
        s1.contains(x),
        inner.len() == cap,
        outer.len() == cap,
{
    let mid = Set::new(|x: u128| inner.contains(x) || s2.contains(x));
    assert(s1.contains(x) && !inner.contains(x));
    assert(inner.len() == cap);
    if exists|z: u128| mid.contains(z) && !outer.contains(z) {
    } else {
        assert forall|z: u128| inner.contains(z) implies outer.contains(z) by {
            assert(mid.contains(z));
        }
        lemma_subset_len(inner, outer);
    }
}

/// The last elements of an increasing sequence are the largest of its
/// elements.
pub proof fn lemma_largest_is_top(s: Seq<u128>, cap: nat)
    requires
        increasing(s),
    ensures
        is_top(largest(s, cap), Set::new(|x: u128| s.contains(x)), cap),
{
    lemma_largest(s, cap);
    let t = largest(s, cap);
    let set = Set::new(|x: u128| s.contains(x));
    assert forall|x: u128, y: u128|
        set.contains(x) && !t.contains(x) && #[trigger] t.contains(y) implies #[trigger] lower(
        x,
        y,
    ) by {}
    if exists|x: u128| set.contains(x) && !t.contains(x) {
        let x = choose|x: u128| set.contains(x) && !t.contains(x);
        assert(t != s);
    }
}

/// The largest of the largest are the largest: dropping elements twice
/// gives what dropping them once gives.
pub proof fn lemma_top_of_nothing(result: Seq<u128>, a: Seq<u128>, cap: nat)
    requires
        is_top_of(result, a, Seq::<u128>::empty(), cap),
        increasing(a),
        a.len() <= cap,
    ensures
        result == a,
{
    assert forall|x: u128| !Seq::<u128>::empty().contains(x) by {}
    if exists|x: u128| a.contains(x) && !result.contains(x) {
        let x = choose|x: u128| a.contains(x) && !result.contains(x);
        assert(result.len() == cap);
        assert forall|y: u128| result.contains(y) implies a.contains(y) by {}
        lemma_proper_subset_len(result, a, x);
    }
    assert forall|x: u128| result.contains(x) <==> a.contains(x) by {}
    lemma_increasing_unique(result, a);
}

} // verus!
