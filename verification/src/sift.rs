//! The heap order on an array, and the two moves that restore it.

use crate::layout::{ix, parent};
use crate::order::{is_at_most, lemma_reflexive, ranks, total_preorder};
use std::cmp::Ordering;
use vstd::prelude::*;

verus! {

/// The element at `i` is at most the element at its parent's position.
pub open spec fn fits<T>(rank: spec_fn(T, T) -> bool, s: Seq<T>, i: int) -> bool {
    rank(s[i], s[parent(i)])
}

/// Every node whose parent stands at `start` or later is at most its parent.
pub open spec fn heap_from<T>(rank: spec_fn(T, T) -> bool, s: Seq<T>, start: int) -> bool {
    forall|i: int| 0 < i < s.len() && parent(i) >= start ==> #[trigger] fits(rank, s, i)
}

/// Every node but the root is at most its parent.
pub open spec fn is_heap<T>(rank: spec_fn(T, T) -> bool, s: Seq<T>) -> bool {
    heap_from(rank, s, 0)
}

/// `s` with the elements at `i` and `j` exchanged.
pub open spec fn exchanged<T>(s: Seq<T>, i: int, j: int) -> Seq<T> {
    s.update(i, s[j]).update(j, s[i])
}

/// Exchanging two elements keeps the elements.
pub proof fn lemma_exchanged_keeps_elements<T>(s: Seq<T>, i: int, j: int)
    requires
        0 <= i < s.len(),
        0 <= j < s.len(),
    ensures
        exchanged(s, i, j).to_multiset() == s.to_multiset(),
{
    broadcast use vstd::seq_lib::to_multiset_update;

    let t = s.update(i, s[j]);
    assert(t.to_multiset() == s.to_multiset().insert(s[j]).remove(s[i]));
    assert(t[j] == s[j]);
    assert(exchanged(s, i, j).to_multiset() == t.to_multiset().insert(s[i]).remove(s[j]));
    broadcast use vstd::seq_lib::to_multiset_contains;

    assert(s.contains(s[i]));
    assert(s.contains(s[j]));
    assert(exchanged(s, i, j).to_multiset() =~= s.to_multiset());
}

/// In a heap every element is at most the root.
pub proof fn lemma_root_is_greatest<T>(rank: spec_fn(T, T) -> bool, s: Seq<T>, i: int)
    requires
        total_preorder(rank),
        is_heap(rank, s),
        0 <= i < s.len(),
    ensures
        rank(s[i], s[0]),
    decreases i,
{
    if i > 0 {
        lemma_root_is_greatest(rank, s, parent(i));
        assert(fits(rank, s, i));
    } else {
        lemma_reflexive(rank, s[0]);
    }
}

/// `<[T]>::swap` exchanges the elements at two positions of the vector and
/// leaves the others where they are. It panics on a position past the end,
/// which the precondition excludes.
#[verifier::external_body]
pub(crate) fn swap_at<T>(v: &mut Vec<T>, i: usize, j: usize)
    requires
        i < old(v).len(),
        j < old(v).len(),
    ensures
        final(v)@ == exchanged(old(v)@, ix(i), ix(j)),
{
    v.swap(i, j)
}

/// Moves the last element up, exchanging it with its parent while it is not
/// at most the parent, until the whole vector is a heap.
pub(crate) fn sift_up<T, F>(v: &mut Vec<T>, compare: &F, rank: Ghost<spec_fn(T, T) -> bool>) where
    F: Fn(&T, &T) -> Ordering,

    requires
        ranks(rank@, *compare),
        old(v).len() > 0,
        is_heap(rank@, old(v)@.drop_last()),
    ensures
        is_heap(rank@, final(v)@),
        final(v)@.to_multiset() == old(v)@.to_multiset(),
        final(v).len() == old(v).len(),
{
    let mut pos: usize = v.len() - 1;
    let mut settled: bool = false;
    proof {
        assert forall|i: int| 0 < i < v.len() && i != pos implies #[trigger] fits(
            rank@,
            v@,
            i,
        ) by {
            assert(fits(rank@, old(v)@.drop_last(), i));
        }
    }
    while !settled && pos > 0
        invariant
            ranks(rank@, *compare),
            pos < v.len(),
            v.len() == old(v).len(),
            v@.to_multiset() == old(v)@.to_multiset(),
            forall|i: int| 0 < i < v.len() && i != pos ==> #[trigger] fits(rank@, v@, i),
            forall|i: int|
                0 < i < v.len() && parent(i) == pos && pos > 0 ==> rank@(
                    #[trigger] v@[i],
                    v@[parent(ix(pos))],
                ),
            settled && pos > 0 ==> fits(rank@, v@, ix(pos)),
        decreases (if settled { pos + 0 } else { pos + 1 }),
    {
        let up: usize = (pos - 1) / 2;
        if is_at_most(compare, &v[pos], &v[up]) {
            settled = true;
        } else {
            let ghost before = v@;
            swap_at(v, pos, up);
            proof {
                lemma_exchanged_keeps_elements(before, ix(pos), ix(up));
                assert(rank@(before[ix(up)], before[ix(pos)]) || rank@(
                    before[ix(pos)],
                    before[ix(up)],
                ));
                assert forall|i: int| 0 < i < v.len() && i != up implies #[trigger] fits(
                    rank@,
                    v@,
                    i,
                ) by {
                    if i == pos {
                    } else if parent(i) == up {
                        assert(fits(rank@, before, i));
                    } else if parent(i) == pos {
                        assert(rank@(before[i], before[parent(ix(pos))]));
                    } else {
                        assert(fits(rank@, before, i));
                    }
                }
                assert forall|i: int| 0 < i < v.len() && parent(i) == up && up > 0 implies rank@(
                    #[trigger] v@[i],
                    v@[parent(ix(up))],
                ) by {
                    assert(fits(rank@, before, ix(up)));
                    if i != pos {
                        assert(fits(rank@, before, i));
                    }
                }
            }
            pos = up;
        }
    }
}

/// Moves the element at `start` down, exchanging it with the greater of its
/// children while that child is not at most it, until every node from `start`
/// on has its children at most itself.
pub(crate) fn sift_down<T, F>(
    v: &mut Vec<T>,
    compare: &F,
    start: usize,
    rank: Ghost<spec_fn(T, T) -> bool>,
) where F: Fn(&T, &T) -> Ordering
    requires
        ranks(rank@, *compare),
        start < old(v).len(),
        heap_from(rank@, old(v)@, start + 1),
    ensures
        heap_from(rank@, final(v)@, ix(start)),
        final(v)@.to_multiset() == old(v)@.to_multiset(),
        final(v).len() == old(v).len(),
{
    let len: usize = v.len();
    let half: usize = len / 2;
    let mut pos: usize = start;
    let mut settled: bool = false;
    while !settled && pos < half
        invariant
            ranks(rank@, *compare),
            len == v.len(),
            len == old(v).len(),
            half == len / 2,
            start <= pos < len,
            v@.to_multiset() == old(v)@.to_multiset(),
            forall|i: int|
                0 < i < len && parent(i) >= start && parent(i) != pos ==> #[trigger] fits(
                    rank@,
                    v@,
                    i,
                ),
            pos > start ==> parent(ix(pos)) >= start,
            forall|i: int|
                0 < i < len && parent(i) == pos && pos > start ==> rank@(
                    #[trigger] v@[i],
                    v@[parent(ix(pos))],
                ),
            settled ==> forall|i: int|
                0 < i < len && parent(i) == pos ==> #[trigger] fits(rank@, v@, i),
        decreases (if settled { len - pos + 0 } else { len - pos + 1 }),
    {
        let mut child: usize = 2 * pos + 1;
        if child + 1 < len && !is_at_most(compare, &v[child + 1], &v[child]) {
            child = child + 1;
        }
        proof {
            assert forall|i: int| 0 < i < len && parent(i) == pos implies rank@(
                #[trigger] v@[i],
                v@[ix(child)],
            ) by {
                assert(i == 2 * pos + 1 || i == 2 * pos + 2);
                assert(rank@(v@[i], v@[ix(child)]) || rank@(v@[ix(child)], v@[i]));
            }
        }
        if is_at_most(compare, &v[child], &v[pos]) {
            settled = true;
        } else {
            let ghost before = v@;
            swap_at(v, pos, child);
            proof {
                lemma_exchanged_keeps_elements(before, ix(pos), ix(child));
                assert(rank@(before[ix(pos)], before[ix(child)]) || rank@(
                    before[ix(child)],
                    before[ix(pos)],
                ));
                assert forall|i: int|
                    0 < i < len && parent(i) >= start && parent(i) != child implies #[trigger] fits(
                    rank@,
                    v@,
                    i,
                ) by {
                    if i == child {
                    } else if parent(i) == pos {
                        assert(rank@(before[i], before[ix(child)]));
                    } else if i == pos {
                        assert(rank@(before[ix(child)], before[parent(ix(pos))]));
                    } else {
                        assert(fits(rank@, before, i));
                    }
                }
                assert forall|i: int| 0 < i < len && parent(i) == child implies rank@(
                    #[trigger] v@[i],
                    v@[parent(ix(child))],
                ) by {
                    assert(fits(rank@, before, i));
                }
            }
            pos = child;
        }
    }
}

} // verus!
