//! What holds between the operations of the heap, stated over the relations
//! that their contracts use.

use crate::heap::{joined_then_took, took_greatest, took_then_joined};
use crate::order::{descending, is_greatest, lemma_reflexive, total_preorder};
use vstd::multiset::Multiset;
use vstd::prelude::*;

verus! {

/// `s` lists the elements of the bag `m` in an order in which repeated pops
/// can hand them out until nothing is left.
pub open spec fn pop_sequence<T>(rank: spec_fn(T, T) -> bool, m: Multiset<T>, s: Seq<T>) -> bool
    decreases s.len(),
{
    if s.len() == 0 {
        m.len() == 0
    } else {
        &&& took_greatest(rank, m, Some(s[0]), m.remove(s[0]))
        &&& pop_sequence(rank, m.remove(s[0]), s.drop_first())
    }
}

/// An element that a pop hands out is at least every element that stays
/// behind, and the heap is one element smaller.
pub proof fn law_popped_is_at_least_the_rest<T>(
    rank: spec_fn(T, T) -> bool,
    pre: Multiset<T>,
    x: T,
    post: Multiset<T>,
)
    requires
        took_greatest(rank, pre, Some(x), post),
    ensures
        forall|y: T| #[trigger] post.contains(y) ==> rank(y, x),
        post.len() == pre.len() - 1,
{
    broadcast use vstd::multiset::group_multiset_axioms;

    assert forall|y: T| #[trigger] post.contains(y) implies rank(y, x) by {
        assert(pre.contains(y));
    }
}

/// The elements that repeated pops hand out are those of the heap, and each
/// is at most every one that left before it.
pub proof fn law_pops_fall<T>(rank: spec_fn(T, T) -> bool, m: Multiset<T>, s: Seq<T>)
    requires
        pop_sequence(rank, m, s),
    ensures
        s.to_multiset() == m,
        s.len() == m.len(),
        descending(rank, s),
    decreases s.len(),
{
    broadcast use vstd::multiset::group_multiset_axioms;
    broadcast use vstd::seq_lib::group_to_multiset_ensures;

    if s.len() == 0 {
        vstd::multiset::lemma_multiset_empty_len(m);
        assert(s.to_multiset() =~= m);
    } else {
        let x = s[0];
        let t = s.drop_first();
        law_pops_fall(rank, m.remove(x), t);
        assert(s =~= t.insert(0, x));
        vstd::seq_lib::to_multiset_insert(t, 0, x);
        assert(s.to_multiset() =~= m);
        assert forall|i: int, j: int| 0 <= i < j < s.len() implies #[trigger] rank(s[j], s[i]) by {
            if i == 0 {
                assert(t[j - 1] == s[j]);
                assert(t.contains(s[j]));
                assert(m.remove(x).contains(s[j]));
                assert(m.contains(s[j]));
            } else {
                assert(t[j - 1] == s[j] && t[i - 1] == s[i]);
                assert(rank(t[j - 1], t[i - 1]));
            }
        }
    }
}

/// Every arrangement of a bag in which each element is at most every earlier
/// one is an order in which repeated pops can hand the bag out.
pub proof fn law_falling_is_pop_sequence<T>(rank: spec_fn(T, T) -> bool, m: Multiset<T>, s: Seq<T>)
    requires
        total_preorder(rank),
        s.to_multiset() == m,
        descending(rank, s),
    ensures
        pop_sequence(rank, m, s),
    decreases s.len(),
{
    broadcast use vstd::multiset::group_multiset_axioms;
    broadcast use vstd::seq_lib::group_to_multiset_ensures;

    if s.len() > 0 {
        let x = s[0];
        let t = s.drop_first();
        assert(s.contains(x));
        assert forall|y: T| #![trigger m.contains(y)] #![trigger rank(y, x)] m.contains(y) implies rank(
            y,
            x,
        ) by {
            assert(s.contains(y));
            let j = choose|j: int| 0 <= j < s.len() && s[j] == y;
            if j == 0 {
                lemma_reflexive(rank, x);
            }
        }
        assert(is_greatest(rank, x, m));
        assert(t =~= s.remove(0));
        assert(t.to_multiset() == m.remove(x));
        assert forall|i: int, j: int| 0 <= i < j < t.len() implies #[trigger] rank(t[j], t[i]) by {
            assert(t[j] == s[j + 1] && t[i] == s[i + 1]);
            assert(rank(s[j + 1], s[i + 1]));
        }
        law_falling_is_pop_sequence(rank, m.remove(x), t);
    }
}

/// Where no two different elements rank alike, the pops of a heap under the
/// reversed order come in the reverse of the order in which they come under
/// the order itself.
pub proof fn law_reversed_order_reverses_pops<T>(
    up: spec_fn(T, T) -> bool,
    down: spec_fn(T, T) -> bool,
    m: Multiset<T>,
    p: Seq<T>,
    q: Seq<T>,
)
    requires
        total_preorder(up),
        forall|a: T, b: T| #[trigger] down(a, b) == up(b, a),
        forall|a: T, b: T| #[trigger] up(a, b) && #[trigger] up(b, a) ==> a == b,
        pop_sequence(up, m, p),
        pop_sequence(down, m, q),
    ensures
        q == p.reverse(),
{
    law_pops_fall(up, m, p);
    law_pops_fall(down, m, q);
    let r = p.reverse();
    p.lemma_reverse_to_multiset();
    assert(vstd::relations::sorted_by(q, up)) by {
        assert forall|i: int, j: int| 0 <= i < j < q.len() implies #[trigger] up(q[i], q[j]) by {
            assert(down(q[j], q[i]));
        }
    }
    assert(vstd::relations::sorted_by(r, up)) by {
        assert forall|i: int, j: int| 0 <= i < j < r.len() implies #[trigger] up(r[i], r[j]) by {
            assert(r[i] == p[p.len() - 1 - i] && r[j] == p[p.len() - 1 - j]);
            assert(up(p[p.len() - 1 - i], p[p.len() - 1 - j]));
        }
    }
    assert(vstd::relations::total_ordering(up)) by {
        assert forall|x: T| #[trigger] up(x, x) by {
            lemma_reflexive(up, x);
        }
    }
    vstd::seq_lib::lemma_sorted_unique(q, r, up);
}

/// `push_pop` does what a push followed by a pop does.
pub proof fn law_push_pop_is_push_then_pop<T>(
    rank: spec_fn(T, T) -> bool,
    pre: Multiset<T>,
    x: T,
    r: T,
    post: Multiset<T>,
)
    ensures
        joined_then_took(rank, pre, x, r, post) <==> took_greatest(
            rank,
            pre.insert(x),
            Some(r),
            post,
        ),
        joined_then_took(rank, pre, x, r, post) ==> post.len() == pre.len(),
{
    broadcast use vstd::multiset::group_multiset_axioms;

}

/// `replace` does what a pop followed by a push does, and returns what the
/// pop returns.
pub proof fn law_replace_is_pop_then_push<T>(
    rank: spec_fn(T, T) -> bool,
    pre: Multiset<T>,
    x: T,
    r: Option<T>,
    post: Multiset<T>,
)
    ensures
        took_then_joined(rank, pre, x, r, post) <==> exists|mid: Multiset<T>| #[trigger]
            took_greatest(rank, pre, r, mid) && post == mid.insert(x),
{
    if took_then_joined(rank, pre, x, r, post) {
        let mid = match r {
            None => pre,
            Some(y) => pre.remove(y),
        };
        assert(took_greatest(rank, pre, r, mid) && post == mid.insert(x));
    }
}

} // verus!
