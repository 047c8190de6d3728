//! The heap: a comparison function and the elements it orders.

use crate::laws::{law_falling_is_pop_sequence, pop_sequence};
use crate::layout::ix;
use crate::order::{
    ascending, descending, is_at_most, is_greatest, lemma_reflexive, ranks, strict_weak_order,
};
use crate::sift::{fits, heap_from, is_heap, lemma_root_is_greatest, sift_down, sift_up};
use std::cmp::Ordering;
use vstd::multiset::Multiset;
use vstd::prelude::*;

verus! {

/// A priority queue over `T` whose order is the comparison function `F` that
/// it was made with. The greatest element by that order leaves first; with
/// the comparison reversed the same queue hands out the least first.
///
/// Beside the function the heap keeps, as ghost state, the rank that the
/// function follows.
#[verifier::reject_recursive_types(T)]
pub struct ComparatorHeap<T, F> {
    compare: F,
    heap: Vec<T>,
    rank: Ghost<spec_fn(T, T) -> bool>,
}

impl<T, F> View for ComparatorHeap<T, F> {
    type V = Multiset<T>;

    /// The elements of the heap, as a bag.
    open spec fn view(&self) -> Multiset<T> {
        self.stored().to_multiset()
    }
}

/// What `pop` does to the bag `pre`: nothing leaves an empty bag; otherwise a
/// greatest element leaves.
pub open spec fn took_greatest<T>(
    rank: spec_fn(T, T) -> bool,
    pre: Multiset<T>,
    r: Option<T>,
    post: Multiset<T>,
) -> bool {
    match r {
        None => pre.len() == 0 && post == pre,
        Some(x) => is_greatest(rank, x, pre) && post == pre.remove(x),
    }
}

/// What `push_pop` does to the bag `pre`: `x` joins, then a greatest element
/// of the whole leaves.
pub open spec fn joined_then_took<T>(
    rank: spec_fn(T, T) -> bool,
    pre: Multiset<T>,
    x: T,
    r: T,
    post: Multiset<T>,
) -> bool {
    is_greatest(rank, r, pre.insert(x)) && post == pre.insert(x).remove(r)
}

/// What `replace` does to the bag `pre`: a greatest element leaves, if there
/// is one, then `x` joins.
pub open spec fn took_then_joined<T>(
    rank: spec_fn(T, T) -> bool,
    pre: Multiset<T>,
    x: T,
    r: Option<T>,
    post: Multiset<T>,
) -> bool {
    match r {
        None => pre.len() == 0 && post == pre.insert(x),
        Some(y) => is_greatest(rank, y, pre) && post == pre.remove(y).insert(x),
    }
}

/// Taking the first element of `s` away by moving the last into its place
/// removes that element from the bag and nothing else.
proof fn lemma_first_replaced_by_last<T>(s: Seq<T>)
    requires
        s.len() > 0,
    ensures
        s.update(0, s.last()).drop_last().to_multiset() == s.to_multiset().remove(s[0]),
{
    broadcast use vstd::seq_lib::group_to_multiset_ensures;

    let t = s.update(0, s.last());
    assert(t.drop_last() =~= t.remove(t.len() - 1));
    assert(t.to_multiset() == s.to_multiset().insert(s.last()).remove(s[0]));
    assert(t.remove(t.len() - 1).to_multiset() == t.to_multiset().remove(t[t.len() - 1]));
    assert(s.contains(s[0]));
    assert(s.contains(s.last()));
    assert(t.drop_last().to_multiset() =~= s.to_multiset().remove(s[0]));
}

/// `Vec::capacity`: how many elements the vector can hold before it has to
/// allocate again. Which number that is depends on the allocator; it is
/// never less than the length.
#[verifier::external_body]
fn capacity_of<T>(v: &Vec<T>) -> (c: usize)
    ensures
        c >= v.len(),
{
    v.capacity()
}

/// `Vec::reserve_exact`: makes room for `additional` more elements and leaves
/// the elements as they are. It panics where the room asked for passes what a
/// vector can address, which the precondition excludes.
#[verifier::external_body]
fn reserve_exact_in<T>(v: &mut Vec<T>, additional: usize)
    requires
        old(v).len() + additional <= usize::MAX,
        (old(v).len() + additional) * vstd::layout::size_of::<T>() <= isize::MAX,
    ensures
        final(v)@ == old(v)@,
{
    v.reserve_exact(additional)
}

impl<T: Clone, F: Copy> Clone for ComparatorHeap<T, F> {
    /// A heap of its own with the same comparison and a clone of each
    /// element, stored in the same order.
    fn clone(&self) -> (r: Self)
        ensures
            r.comparator() == self.comparator(),
            r.rank() == self.rank(),
            r.stored().len() == self.stored().len(),
            forall|i: int|
                0 <= i < self.stored().len() ==> cloned::<T>(
                    #[trigger] self.stored()[i],
                    r.stored()[i],
                ),
            self.stored() =~= r.stored() ==> r@ == self@,
    {
        ComparatorHeap { compare: self.compare, heap: self.heap.clone(), rank: self.rank }
    }
}

impl<T, F> ComparatorHeap<T, F> {
    /// The elements in the order in which the heap stores them.
    pub closed spec fn stored(&self) -> Seq<T> {
        self.heap@
    }

    /// The comparison function that the heap was made with.
    pub closed spec fn comparator(&self) -> F {
        self.compare
    }

    /// The order that the comparison function follows: `rank()(a, b)` reads
    /// "`a` is at most `b`".
    pub closed spec fn rank(&self) -> spec_fn(T, T) -> bool {
        self.rank@
    }

    /// The comparison follows the rank, and every stored element is at most
    /// its parent.
    pub open spec fn wf(&self) -> bool where F: Fn(&T, &T) -> Ordering {
        &&& ranks(self.rank(), self.comparator())
        &&& is_heap(self.rank(), self.stored())
    }

    /// An empty heap ordered by `compare`.
    pub fn new(compare: F) -> (r: Self) where F: Fn(&T, &T) -> Ordering
        requires
            strict_weak_order(compare),
        ensures
            r.wf(),
            r.comparator() == compare,
            r.stored() == Seq::<T>::empty(),
            r@ == Multiset::<T>::empty(),
    {
        let ghost rank = choose|rank: spec_fn(T, T) -> bool| ranks(rank, compare);
        Self::new_with_rank(compare, Ghost(rank))
    }

    /// An empty heap ordered by `compare`, for a caller that names the rank
    /// that `compare` follows; the contracts then speak of that rank.
    pub fn new_with_rank(compare: F, rank: Ghost<spec_fn(T, T) -> bool>) -> (r: Self) where
        F: Fn(&T, &T) -> Ordering,

        requires
            ranks(rank@, compare),
        ensures
            r.wf(),
            r.comparator() == compare,
            r.rank() == rank@,
            r.stored() == Seq::<T>::empty(),
            r@ == Multiset::<T>::empty(),
    {
        broadcast use vstd::seq_lib::group_to_multiset_ensures;

        ComparatorHeap { compare, heap: Vec::new(), rank }
    }

    /// An empty heap ordered by `compare`, with room for `capacity` elements.
    /// The room asked for must be within what a vector can address.
    pub fn with_capacity(compare: F, capacity: usize) -> (r: Self) where F: Fn(&T, &T) -> Ordering
        requires
            strict_weak_order(compare),
            capacity * vstd::layout::size_of::<T>() <= isize::MAX,
        ensures
            r.wf(),
            r.comparator() == compare,
            r.stored() == Seq::<T>::empty(),
            r@ == Multiset::<T>::empty(),
    {
        broadcast use vstd::seq_lib::group_to_multiset_ensures;

        let ghost rank = choose|rank: spec_fn(T, T) -> bool| ranks(rank, compare);
        ComparatorHeap { compare, heap: Vec::with_capacity(capacity), rank: Ghost(rank) }
    }

    /// The number of elements.
    pub fn len(&self) -> (r: usize)
        ensures
            r == self@.len(),
            r == self.stored().len(),
    {
        broadcast use vstd::seq_lib::group_to_multiset_ensures;

        self.heap.len()
    }

    /// Whether the heap holds no element.
    pub fn is_empty(&self) -> (r: bool)
        ensures
            r == (self@.len() == 0),
    {
        broadcast use vstd::seq_lib::group_to_multiset_ensures;

        self.heap.len() == 0
    }

    /// Removes every element.
    pub fn clear(&mut self)
        ensures
            final(self).stored() == Seq::<T>::empty(),
            final(self)@ == Multiset::<T>::empty(),
            final(self).comparator() == old(self).comparator(),
            final(self).rank() == old(self).rank(),
    {
        broadcast use vstd::seq_lib::group_to_multiset_ensures;

        self.heap.clear();
    }

    /// How many elements the heap can hold before it has to allocate again.
    pub fn capacity(&self) -> (r: usize)
        ensures
            r >= self@.len(),
    {
        broadcast use vstd::seq_lib::group_to_multiset_ensures;

        capacity_of(&self.heap)
    }

    /// Makes room for exactly `n` more elements; the elements stay as they
    /// are. The room asked for must be within what a vector can address.
    pub fn reserve_exact(&mut self, n: usize)
        requires
            old(self)@.len() + n <= usize::MAX,
            (old(self)@.len() + n) * vstd::layout::size_of::<T>() <= isize::MAX,
        ensures
            final(self).stored() == old(self).stored(),
            final(self).comparator() == old(self).comparator(),
            final(self).rank() == old(self).rank(),
    {
        broadcast use vstd::seq_lib::group_to_multiset_ensures;

        reserve_exact_in(&mut self.heap, n);
    }

    /// Makes room for at least `n` more elements; the elements stay as they
    /// are. The room asked for must be within what a vector can address.
    pub fn reserve(&mut self, n: usize)
        requires
            old(self)@.len() + n <= usize::MAX,
            (old(self)@.len() + n) * vstd::layout::size_of::<T>() <= isize::MAX,
        ensures
            final(self).stored() == old(self).stored(),
            final(self).comparator() == old(self).comparator(),
            final(self).rank() == old(self).rank(),
    {
        self.heap.reserve(n);
    }

    /// The greatest element, if there is one; it stays in the heap.
    pub fn top(&self) -> (r: Option<&T>) where F: Fn(&T, &T) -> Ordering
        requires
            self.wf(),
        ensures
            match r {
                None => self@.len() == 0,
                Some(x) => self.stored().len() > 0 && *x == self.stored()[0] && is_greatest(
                    self.rank(),
                    *x,
                    self@,
                ),
            },
    {
        broadcast use vstd::seq_lib::group_to_multiset_ensures;

        if self.heap.len() == 0 {
            None
        } else {
            proof {
                self.lemma_first_is_greatest();
            }
            Some(&self.heap[0])
        }
    }

    /// The first stored element of a heap that is not empty is a greatest one.
    pub proof fn lemma_first_is_greatest(&self) where F: Fn(&T, &T) -> Ordering
        requires
            self.wf(),
            self.stored().len() > 0,
        ensures
            is_greatest(self.rank(), self.stored()[0], self@),
    {
        broadcast use vstd::seq_lib::group_to_multiset_ensures;

        let s = self.stored();
        assert(s.contains(s[0]));
        assert forall|y: T| self@.contains(y) implies #[trigger] self.rank()(y, s[0]) by {
            assert(s.contains(y));
            let i = choose|i: int| 0 <= i < s.len() && s[i] == y;
            lemma_root_is_greatest(self.rank(), s, i);
        }
    }

    /// Adds `item`.
    pub fn push(&mut self, item: T) where F: Fn(&T, &T) -> Ordering
        requires
            old(self).wf(),
        ensures
            final(self).wf(),
            final(self).comparator() == old(self).comparator(),
            final(self).rank() == old(self).rank(),
            final(self)@ == old(self)@.insert(item),
            final(self)@.len() == old(self)@.len() + 1,
    {
        broadcast use vstd::seq_lib::group_to_multiset_ensures;

        self.heap.push(item);
        assert(self.heap@.drop_last() =~= old(self).heap@);
        sift_up(&mut self.heap, &self.compare, self.rank);
    }

    /// Removes a greatest element and returns it; `None` on an empty heap,
    /// which stays as it is.
    pub fn pop(&mut self) -> (r: Option<T>) where F: Fn(&T, &T) -> Ordering
        requires
            old(self).wf(),
        ensures
            final(self).wf(),
            final(self).comparator() == old(self).comparator(),
            final(self).rank() == old(self).rank(),
            took_greatest(old(self).rank(), old(self)@, r, final(self)@),
            r.is_some() <==> old(self)@.len() > 0,
            r.is_some() ==> r == Some(old(self).stored()[0]) && final(self)@.len() == old(self)@.len()
                - 1,
            r.is_none() ==> final(self).stored() == old(self).stored(),
    {
        broadcast use vstd::seq_lib::group_to_multiset_ensures;

        if self.heap.len() == 0 {
            return None;
        }
        proof {
            old(self).lemma_first_is_greatest();
            lemma_first_replaced_by_last(old(self).heap@);
        }
        let x = self.heap.swap_remove(0);
        if self.heap.len() > 0 {
            proof {
                let before = old(self).heap@;
                assert forall|i: int|
                    0 < i < self.heap@.len() && crate::layout::parent(i) >= 1 implies #[trigger] fits(
                    self.rank@,
                    self.heap@,
                    i,
                ) by {
                    assert(fits(self.rank@, before, i));
                }
            }
            sift_down(&mut self.heap, &self.compare, 0, self.rank);
        }
        Some(x)
    }

    /// Puts `item` in the root's place, hands the old root out and restores
    /// the heap order.
    fn exchange_root(&mut self, item: T) -> (r: T) where F: Fn(&T, &T) -> Ordering
        requires
            old(self).wf(),
            old(self).stored().len() > 0,
        ensures
            final(self).wf(),
            final(self).comparator() == old(self).comparator(),
            final(self).rank() == old(self).rank(),
            r == old(self).stored()[0],
            is_greatest(old(self).rank(), r, old(self)@),
            final(self)@ == old(self)@.remove(r).insert(item),
            final(self)@ == old(self)@.insert(item).remove(r),
            final(self)@.len() == old(self)@.len(),
    {
        broadcast use vstd::seq_lib::group_to_multiset_ensures;
        broadcast use vstd::multiset::group_multiset_axioms;

        proof {
            old(self).lemma_first_is_greatest();
        }
        let ghost before = self.heap@;
        self.heap.push(item);
        let r = self.heap.swap_remove(0);
        proof {
            assert(self.heap@ =~= before.update(0, item));
            assert(before.contains(r));
            assert(self.heap@.to_multiset() =~= before.to_multiset().remove(r).insert(item));
            assert(self.heap@.to_multiset() =~= before.to_multiset().insert(item).remove(r));
            assert forall|i: int|
                0 < i < self.heap@.len() && crate::layout::parent(i) >= 1 implies #[trigger] fits(
                self.rank@,
                self.heap@,
                i,
            ) by {
                assert(fits(self.rank@, before, i));
            }
        }
        sift_down(&mut self.heap, &self.compare, 0, self.rank);
        r
    }

    /// Adds `item`, then removes a greatest element and returns it. Where
    /// `item` is at least the root it comes straight back; otherwise it takes
    /// the root's place and the root leaves, which saves one pass over the heap.
    pub fn push_pop(&mut self, item: T) -> (r: T) where F: Fn(&T, &T) -> Ordering
        requires
            old(self).wf(),
        ensures
            final(self).wf(),
            final(self).comparator() == old(self).comparator(),
            final(self).rank() == old(self).rank(),
            joined_then_took(old(self).rank(), old(self)@, item, r, final(self)@),
            final(self)@.len() == old(self)@.len(),
    {
        broadcast use vstd::seq_lib::group_to_multiset_ensures;
        broadcast use vstd::multiset::group_multiset_axioms;

        let ghost pre = self@;
        let ghost rank = self.rank@;
        if self.heap.len() > 0 && !is_at_most(&self.compare, &self.heap[0], &item) {
            let ghost root = self.heap@[0];
            let r = self.exchange_root(item);
            proof {
                assert(rank(root, item) || rank(item, root));
                assert forall|y: T|
                    #![trigger pre.insert(item).contains(y)]
                    #![trigger rank(y, r)]
                    pre.insert(item).contains(y) implies rank(y, r) by {
                    if y != item {
                        assert(pre.contains(y));
                    }
                }
            }
            r
        } else {
            proof {
                lemma_reflexive(rank, item);
                if self.heap@.len() > 0 {
                    self.lemma_first_is_greatest();
                }
                assert forall|y: T|
                    #![trigger pre.insert(item).contains(y)]
                    #![trigger rank(y, item)]
                    pre.insert(item).contains(y) implies rank(y, item) by {
                    if y != item {
                        assert(pre.contains(y));
                        assert(rank(y, self.heap@[0]) && rank(self.heap@[0], item));
                    }
                }
                assert(pre.insert(item).remove(item) =~= pre);
            }
            item
        }
    }

    /// Removes a greatest element, if there is one, then adds `item`;
    /// returns what was removed. On a heap that is not empty `item` takes the
    /// root's place, which saves one pass over the heap.
    pub fn replace(&mut self, item: T) -> (r: Option<T>) where F: Fn(&T, &T) -> Ordering
        requires
            old(self).wf(),
        ensures
            final(self).wf(),
            final(self).comparator() == old(self).comparator(),
            final(self).rank() == old(self).rank(),
            took_then_joined(old(self).rank(), old(self)@, item, r, final(self)@),
            r.is_some() <==> old(self)@.len() > 0,
            r.is_some() ==> r == Some(old(self).stored()[0]),
    {
        broadcast use vstd::seq_lib::group_to_multiset_ensures;

        if self.heap.len() > 0 {
            Some(self.exchange_root(item))
        } else {
            self.push(item);
            None
        }
    }

    /// A heap ordered by `compare` that holds the elements of `xs`.
    pub fn from_vec(compare: F, xs: Vec<T>) -> (r: Self) where F: Fn(&T, &T) -> Ordering
        requires
            strict_weak_order(compare),
        ensures
            r.wf(),
            r.comparator() == compare,
            r@ == xs@.to_multiset(),
            r@.len() == xs.len(),
    {
        let ghost rank = choose|rank: spec_fn(T, T) -> bool| ranks(rank, compare);
        Self::from_vec_with_rank(compare, xs, Ghost(rank))
    }

    /// A heap ordered by `compare` that holds the elements of `xs`, for a
    /// caller that names the rank that `compare` follows.
    pub fn from_vec_with_rank(compare: F, xs: Vec<T>, rank: Ghost<spec_fn(T, T) -> bool>) -> (r:
        Self) where F: Fn(&T, &T) -> Ordering
        requires
            ranks(rank@, compare),
        ensures
            r.wf(),
            r.comparator() == compare,
            r.rank() == rank@,
            r@ == xs@.to_multiset(),
            r@.len() == xs.len(),
    {
        broadcast use vstd::seq_lib::group_to_multiset_ensures;

        let mut heap = xs;
        let mut k: usize = heap.len() / 2;
        while k > 0
            invariant
                ranks(rank@, compare),
                k <= heap.len() / 2,
                heap@.to_multiset() == xs@.to_multiset(),
                heap_from(rank@, heap@, ix(k)),
            decreases k,
        {
            k = k - 1;
            sift_down(&mut heap, &compare, k, rank);
        }
        ComparatorHeap { compare, heap, rank }
    }

    /// The elements, in the order in which the heap stored them.
    pub fn into_vec(self) -> (r: Vec<T>)
        ensures
            r@ == self.stored(),
            r@.to_multiset() == self@,
    {
        self.heap
    }

    /// The elements in ascending order: each is at most every later one.
    /// Read backwards, it is an order in which pops would have handed them out.
    pub fn into_sorted_vec(self) -> (r: Vec<T>) where F: Fn(&T, &T) -> Ordering
        requires
            self.wf(),
        ensures
            ascending(self.rank(), r@),
            r@.to_multiset() == self@,
            r.len() == self@.len(),
            pop_sequence(self.rank(), self@, r@.reverse()),
    {
        broadcast use vstd::seq_lib::group_to_multiset_ensures;
        broadcast use vstd::multiset::group_multiset_axioms;

        let mut rest = self;
        let mut falling: Vec<T> = Vec::new();
        while rest.len() > 0
            invariant
                rest.wf(),
                rest.rank() == self.rank(),
                descending(self.rank(), falling@),
                forall|y: T, i: int|
                    rest@.contains(y) && 0 <= i < falling.len() ==> #[trigger] self.rank()(
                        y,
                        falling@[i],
                    ),
                falling@.to_multiset().add(rest@) =~= self@,
            decreases rest@.len(),
        {
            let ghost before = rest@;
            let ghost fallen = falling@;
            let x = rest.pop().unwrap();
            falling.push(x);
            proof {
                assert(before.contains(x));
                assert(falling@ == fallen.push(x));
                vstd::seq_lib::to_multiset_build(fallen, x);
                assert(falling@.to_multiset() == fallen.to_multiset().insert(x));
                assert(rest@ == before.remove(x));
                assert(falling@.to_multiset().add(rest@) =~= fallen.to_multiset().add(before));
                assert forall|y: T| rest@.contains(y) implies before.contains(y) by {}
                assert forall|i: int, j: int|
                    0 <= i < j < falling.len() implies #[trigger] self.rank()(
                    falling@[j],
                    falling@[i],
                ) by {
                    if j < fallen.len() {
                        assert(falling@[j] == fallen[j] && falling@[i] == fallen[i]);
                    } else {
                        assert(falling@[i] == fallen[i]);
                    }
                }
            }
        }
        let ghost full = falling@;
        assert(rest@.len() == 0);
        assert(rest@ =~= Multiset::<T>::empty());
        assert(full.to_multiset() =~= self@);
        let mut rising: Vec<T> = Vec::new();
        while falling.len() > 0
            invariant
                falling.len() + rising.len() == full.len(),
                falling@ == full.take(ix(falling.len())),
                forall|j: int| 0 <= j < rising.len() ==> #[trigger] rising@[j] == full[full.len() - 1 - j],
            decreases falling.len(),
        {
            let x = falling.pop().unwrap();
            rising.push(x);
            assert(falling@ =~= full.take(ix(falling.len())));
        }
        proof {
            assert(rising@ =~= full.reverse());
            full.lemma_reverse_to_multiset();
            assert(rising@.reverse() =~= full);
            law_falling_is_pop_sequence(self.rank(), self@, full);
        }
        rising
    }
}

} // verus!
