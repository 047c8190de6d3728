//! What a comparison function has to satisfy, and the order that the
//! contracts of the heap are stated with.
//!
//! A comparison function is executable code. What it computes is described
//! by a rank: a relation `rank(a, b)` that reads "`a` is at most `b`". The
//! heap keeps the rank beside the function, and every contract speaks of the
//! rank.

use std::cmp::Ordering;
use vstd::multiset::Multiset;
use vstd::prelude::*;

verus! {

/// `compare` may answer `o` when it is asked about `a` and `b`.
pub open spec fn answers<T, F>(compare: F, a: T, b: T, o: Ordering) -> bool where
    F: Fn(&T, &T) -> Ordering,
 {
    call_ensures(compare, (&a, &b), o)
}

/// The answer that a comparison owes for `a` and `b` under `rank`: `Less`
/// where `b` is not at most `a`, `Greater` where `a` is not at most `b`,
/// `Equal` where each is at most the other.
pub open spec fn verdict<T>(rank: spec_fn(T, T) -> bool, a: T, b: T) -> Ordering {
    if !rank(b, a) {
        Ordering::Less
    } else if rank(a, b) {
        Ordering::Equal
    } else {
        Ordering::Greater
    }
}

/// Any two elements are related one way or the other, and the relation is
/// transitive. Elements that differ may each be at most the other.
pub open spec fn total_preorder<T>(rank: spec_fn(T, T) -> bool) -> bool {
    &&& forall|a: T, b: T| #[trigger] rank(a, b) || rank(b, a)
    &&& forall|a: T, b: T, c: T| #[trigger] rank(a, b) && #[trigger] rank(b, c) ==> rank(a, c)
}

/// In a total preorder every element is at most itself.
pub proof fn lemma_reflexive<T>(rank: spec_fn(T, T) -> bool, a: T)
    requires
        total_preorder(rank),
    ensures
        rank(a, a),
{
    assert(rank(a, a) || rank(a, a));
}

/// `compare` can be asked about any two elements, `rank` is a total
/// preorder, and whatever `compare` answers for a pair is the verdict of
/// `rank` on it.
pub open spec fn ranks<T, F>(rank: spec_fn(T, T) -> bool, compare: F) -> bool where
    F: Fn(&T, &T) -> Ordering,
 {
    &&& forall|a: T, b: T| #[trigger] call_requires(compare, (&a, &b))
    &&& total_preorder(rank)
    &&& forall|a: T, b: T, o: Ordering| #[trigger]
        answers(compare, a, b, o) ==> o == verdict(rank, a, b)
}

/// `compare` is a strict weak ordering: its answers are those of some total
/// preorder.
pub open spec fn strict_weak_order<T, F>(compare: F) -> bool where F: Fn(&T, &T) -> Ordering {
    exists|rank: spec_fn(T, T) -> bool| ranks(rank, compare)
}

/// `x` occurs in `m`, and every element of `m` is at most `x`.
pub open spec fn is_greatest<T>(rank: spec_fn(T, T) -> bool, x: T, m: Multiset<T>) -> bool {
    &&& m.contains(x)
    &&& forall|y: T| #![trigger m.contains(y)] #![trigger rank(y, x)] m.contains(y) ==> rank(y, x)
}

/// Each element of `s` is at most every later one.
pub open spec fn ascending<T>(rank: spec_fn(T, T) -> bool, s: Seq<T>) -> bool {
    forall|i: int, j: int| 0 <= i < j < s.len() ==> #[trigger] rank(s[i], s[j])
}

/// Each element of `s` is at most every earlier one.
pub open spec fn descending<T>(rank: spec_fn(T, T) -> bool, s: Seq<T>) -> bool {
    forall|i: int, j: int| 0 <= i < j < s.len() ==> #[trigger] rank(s[j], s[i])
}

/// What `compare` answers for `a` and `b`: the verdict of every rank that
/// `compare` follows.
pub fn order_of<T, F>(compare: &F, a: &T, b: &T) -> (o: Ordering) where F: Fn(&T, &T) -> Ordering
    requires
        strict_weak_order(*compare),
    ensures
        answers(*compare, *a, *b, o),
        forall|rank: spec_fn(T, T) -> bool| #[trigger]
            ranks(rank, *compare) ==> o == verdict(rank, *a, *b),
{
    let o = compare(a, b);
    assert(answers(*compare, *a, *b, o));
    o
}

/// Whether `a` is at most `b` by `compare`.
pub fn is_at_most<T, F>(compare: &F, a: &T, b: &T) -> (r: bool) where F: Fn(&T, &T) -> Ordering
    requires
        strict_weak_order(*compare),
    ensures
        forall|rank: spec_fn(T, T) -> bool| #[trigger] ranks(rank, *compare) ==> r == rank(*a, *b),
{
    let o = order_of(compare, a, b);
    proof {
        assert forall|rank: spec_fn(T, T) -> bool| #[trigger] ranks(rank, *compare) implies (o
            != Ordering::Greater) == rank(*a, *b) by {
            assert(rank(*a, *b) || rank(*b, *a));
        }
    }
    match o {
        Ordering::Greater => false,
        _ => true,
    }
}

/// Whether `a` and `b` are equal by `compare`: each is at most the other.
/// What the elements' own equality says plays no part.
pub fn is_equal<T, F>(compare: &F, a: &T, b: &T) -> (r: bool) where F: Fn(&T, &T) -> Ordering
    requires
        strict_weak_order(*compare),
    ensures
        forall|rank: spec_fn(T, T) -> bool| #[trigger]
            ranks(rank, *compare) ==> r == (rank(*a, *b) && rank(*b, *a)),
{
    let o = order_of(compare, a, b);
    proof {
        assert forall|rank: spec_fn(T, T) -> bool| #[trigger] ranks(rank, *compare) implies (o
            == Ordering::Equal) == (rank(*a, *b) && rank(*b, *a)) by {
            assert(rank(*a, *b) || rank(*b, *a));
        }
    }
    match o {
        Ordering::Equal => true,
        _ => false,
    }
}

} // verus!
