use comparatorheap::order::{is_at_most, is_equal, order_of};
use comparatorheap::ComparatorHeap;
use std::cmp::Ordering;

struct UintWrap {
    val: usize,
    #[allow(dead_code)]
    unord: u8, /* ensure that this type is not ordered */
}

fn wrap(val: usize) -> UintWrap {
    UintWrap { val, unord: 0 }
}

fn uintwrap_max(a: &UintWrap, b: &UintWrap) -> Ordering {
    a.val.cmp(&b.val)
}

fn uintwrap_min(a: &UintWrap, b: &UintWrap) -> Ordering {
    uintwrap_max(a, b).reverse()
}

fn cmp<T: Ord>(a: &T, b: &T) -> Ordering {
    a.cmp(b)
}

fn rev<T: Ord>(a: &T, b: &T) -> Ordering {
    b.cmp(a)
}

/// Orders pairs by their first part only.
fn by_key(a: &(u32, char), b: &(u32, char)) -> Ordering {
    a.0.cmp(&b.0)
}

fn drain<F: Fn(&i64, &i64) -> Ordering>(mut heap: ComparatorHeap<i64, F>) -> Vec<i64> {
    let mut out = Vec::new();
    while let Some(x) = heap.pop() {
        out.push(x);
    }
    out
}

#[test]
/// only need to test that items come out of the heap in proper order
fn test_push() {
    let mut max_heap: ComparatorHeap<UintWrap, _> = ComparatorHeap::new(uintwrap_max);
    let mut min_heap: ComparatorHeap<UintWrap, _> = ComparatorHeap::new(uintwrap_min);

    max_heap.push(wrap(8));
    min_heap.push(wrap(8));
    max_heap.push(wrap(4));
    min_heap.push(wrap(4));
    max_heap.push(wrap(6));
    min_heap.push(wrap(6));

    assert_eq!(max_heap.pop().unwrap().val, 8);
    assert_eq!(max_heap.pop().unwrap().val, 6);
    assert_eq!(max_heap.pop().unwrap().val, 4);
    assert!(max_heap.is_empty());

    assert_eq!(min_heap.pop().unwrap().val, 4);
    assert_eq!(min_heap.pop().unwrap().val, 6);
    assert_eq!(min_heap.pop().unwrap().val, 8);
}

#[test]
fn test_clone() {
    /* uses max ordering, so this is a max heap */
    let mut heap: ComparatorHeap<usize, _> = ComparatorHeap::new(cmp);

    heap.push(5);
    heap.push(12);
    heap.push(3);
    heap.push(7);

    let mut copy = heap.clone();
    assert_eq!(heap.pop(), Some(12));
    assert_eq!(copy.pop(), Some(12));
    assert_eq!(heap.pop(), Some(7));
    assert_eq!(copy.pop(), Some(7));
}

#[test]
fn from_vec_then_clone_pops_alike() {
    let mut heap = ComparatorHeap::from_vec(cmp::<u32>, vec![5, 12, 3, 7]);
    let mut copy = heap.clone();
    assert_eq!(heap.pop(), Some(12));
    assert_eq!(heap.pop(), Some(7));
    assert_eq!(copy.pop(), Some(12));
    assert_eq!(copy.pop(), Some(7));
    assert_eq!(heap.len(), 2);
    assert_eq!(copy.len(), 2);
}

#[test]
fn clone_is_independent() {
    let mut a = ComparatorHeap::from_vec(cmp::<i64>, vec![4, 9, 1]);
    let mut b = a.clone();
    a.push(100);
    assert_eq!(a.pop(), Some(100));
    assert_eq!(a.pop(), Some(9));
    assert_eq!(b.len(), 3);
    assert_eq!(drain(b.clone()), vec![9, 4, 1]);
    b.push(-5);
    assert_eq!(a.len(), 2);
    assert_eq!(drain(a), vec![4, 1]);
    assert_eq!(drain(b), vec![9, 4, 1, -5]);
}

#[test]
fn empty_heap_answers_absence() {
    let mut heap: ComparatorHeap<i64, _> = ComparatorHeap::new(cmp::<i64>);
    assert!(heap.is_empty());
    assert_eq!(heap.len(), 0);
    assert_eq!(heap.top(), None);
    assert_eq!(heap.pop(), None);
    assert_eq!(heap.len(), 0);
    assert_eq!(heap.replace(3), None);
    assert_eq!(heap.len(), 1);
    assert_eq!(heap.top(), Some(&3));
    assert_eq!(heap.into_vec(), vec![3]);
}

#[test]
fn push_pop_on_empty_returns_the_item() {
    let mut heap: ComparatorHeap<i64, _> = ComparatorHeap::new(cmp::<i64>);
    assert_eq!(heap.push_pop(7), 7);
    assert!(heap.is_empty());
}

#[test]
fn popped_element_is_at_least_the_rest() {
    let items: Vec<i64> = vec![3, -1, 14, 15, 9, 2, 6, 5, 3, 5, 8, 9, 7, 9];
    let mut heap = ComparatorHeap::new(cmp::<i64>);
    for x in items.iter() {
        heap.push(*x);
    }
    while let Some(x) = heap.pop() {
        for y in heap.clone().into_vec() {
            assert!(cmp(&x, &y) != Ordering::Less);
        }
    }
}

#[test]
fn reversed_comparison_reverses_the_pops() {
    let items: Vec<i64> = vec![10, 2, 33, 4, 15, 6, 27, 8];
    let up = drain(ComparatorHeap::from_vec(cmp::<i64>, items.clone()));
    let mut down = drain(ComparatorHeap::from_vec(rev::<i64>, items));
    assert_eq!(up, vec![33, 27, 15, 10, 8, 6, 4, 2]);
    down.reverse();
    assert_eq!(up, down);
}

#[test]
fn len_counts_pushes_and_pops() {
    let mut heap = ComparatorHeap::new(cmp::<i64>);
    for k in 0..10 {
        heap.push(k * 3 % 7);
        assert_eq!(heap.len(), (k + 1) as usize);
    }
    for j in 0..4 {
        assert!(heap.pop().is_some());
        assert_eq!(heap.len(), 9 - j);
        assert!(!heap.is_empty());
    }
    heap.clear();
    assert_eq!(heap.len(), 0);
    assert!(heap.is_empty());
    assert_eq!(heap.pop(), None);
}

#[test]
fn push_pop_is_push_then_pop() {
    for x in [-3i64, 0, 5, 6, 7, 20] {
        let mut a = ComparatorHeap::from_vec(cmp::<i64>, vec![6, 1, 9, 4]);
        let mut b = a.clone();
        let r = a.push_pop(x);
        b.push(x);
        assert_eq!(Some(r), b.pop());
        assert_eq!(r, if x > 9 { x } else { 9 });
        assert_eq!(drain(a), drain(b));
    }
}

#[test]
fn replace_is_pop_then_push() {
    for x in [-3i64, 0, 5, 6, 7, 20] {
        let mut a = ComparatorHeap::from_vec(cmp::<i64>, vec![6, 1, 9, 4]);
        let mut b = a.clone();
        let r = a.replace(x);
        let expected = b.pop();
        b.push(x);
        assert_eq!(r, expected);
        assert_eq!(r, Some(9));
        assert_eq!(a.len(), 4);
        assert_eq!(drain(a), drain(b));
    }
}

#[test]
fn sorted_vec_is_ascending_and_a_permutation() {
    let items: Vec<i64> = vec![5, 3, 8, 3, -2, 8, 0, 11, 5];
    let heap = ComparatorHeap::from_vec(cmp::<i64>, items.clone());
    let n = heap.len();
    let mut loose = heap.clone().into_vec();
    let sorted = heap.into_sorted_vec();
    assert_eq!(sorted, vec![-2, 0, 3, 3, 5, 5, 8, 8, 11]);
    assert_eq!(sorted.len(), n);
    loose.sort();
    assert_eq!(loose, sorted);
    let falling = ComparatorHeap::from_vec(rev::<i64>, items).into_sorted_vec();
    assert_eq!(falling, vec![11, 8, 8, 5, 5, 3, 3, 0, -2]);
}

#[test]
fn sorted_vec_of_nothing_and_of_one() {
    let none: ComparatorHeap<i64, _> = ComparatorHeap::new(cmp::<i64>);
    assert_eq!(none.into_sorted_vec(), Vec::<i64>::new());
    let one = ComparatorHeap::from_vec(cmp::<i64>, vec![42]);
    assert_eq!(one.into_sorted_vec(), vec![42]);
    let empty = ComparatorHeap::from_vec(cmp::<i64>, Vec::new());
    assert!(empty.is_empty());
    assert_eq!(empty.into_vec(), Vec::<i64>::new());
}

#[test]
fn top_shows_the_greatest_and_keeps_it() {
    let mut heap = ComparatorHeap::from_vec(cmp::<i64>, vec![2, 17, 4]);
    assert_eq!(heap.top(), Some(&17));
    assert_eq!(heap.len(), 3);
    assert_eq!(heap.pop(), Some(17));
    assert_eq!(heap.top(), Some(&4));
}

#[test]
fn order_by_key_ignores_the_rest_of_the_element() {
    let mut heap = ComparatorHeap::new(by_key);
    heap.push((2, 'b'));
    heap.push((7, 'x'));
    heap.push((7, 'y'));
    heap.push((1, 'a'));
    let first = heap.pop().unwrap();
    let second = heap.pop().unwrap();
    assert_eq!(first.0, 7);
    assert_eq!(second.0, 7);
    assert_ne!(first.1, second.1);
    assert_eq!(heap.pop(), Some((2, 'b')));
    assert_eq!(heap.pop(), Some((1, 'a')));
    assert_eq!(heap.pop(), None);
}

#[test]
fn into_vec_keeps_every_element_and_the_root_first() {
    let heap = ComparatorHeap::from_vec(cmp::<i64>, vec![1, 2, 3, 4, 5, 6, 7]);
    let stored = heap.into_vec();
    assert_eq!(stored[0], 7);
    for i in 1..stored.len() {
        assert!(stored[(i - 1) / 2] >= stored[i]);
    }
    let mut all = stored.clone();
    all.sort();
    assert_eq!(all, vec![1, 2, 3, 4, 5, 6, 7]);
}

#[test]
fn capacity_and_reserve_leave_the_elements() {
    let mut heap: ComparatorHeap<i64, _> = ComparatorHeap::with_capacity(cmp::<i64>, 16);
    assert!(heap.is_empty());
    assert!(heap.capacity() >= 16);
    heap.push(3);
    heap.push(9);
    heap.reserve(100);
    assert!(heap.capacity() >= 102);
    heap.reserve_exact(200);
    assert!(heap.capacity() >= 202);
    assert_eq!(heap.len(), 2);
    assert_eq!(heap.pop(), Some(9));
    assert_eq!(heap.pop(), Some(3));
}

#[test]
fn many_elements_leave_in_falling_order() {
    let mut heap = ComparatorHeap::new(cmp::<i64>);
    let mut x: i64 = 12345;
    let mut expected: Vec<i64> = Vec::new();
    for _ in 0..500 {
        x = (x * 1103515245 + 12345) % 2147483648;
        heap.push(x % 1000);
        expected.push(x % 1000);
    }
    expected.sort();
    expected.reverse();
    assert_eq!(drain(heap), expected);
}

#[test]
fn order_of_is_the_answer_of_the_comparison() {
    assert_eq!(order_of(&cmp::<i64>, &1, &2), Ordering::Less);
    assert_eq!(order_of(&cmp::<i64>, &2, &2), Ordering::Equal);
    assert_eq!(order_of(&cmp::<i64>, &3, &2), Ordering::Greater);
    assert_eq!(order_of(&rev::<i64>, &1, &2), Ordering::Greater);
    assert_eq!(order_of(&rev::<i64>, &3, &2), Ordering::Less);
}

#[test]
fn at_most_follows_the_comparison() {
    assert!(is_at_most(&cmp::<i64>, &1, &2));
    assert!(is_at_most(&cmp::<i64>, &2, &2));
    assert!(!is_at_most(&cmp::<i64>, &3, &2));
    assert!(!is_at_most(&rev::<i64>, &1, &2));
    assert!(is_at_most(&by_key, &(4, 'a'), &(4, 'b')));
    assert!(is_at_most(&by_key, &(4, 'b'), &(4, 'a')));
}

#[test]
fn equality_is_by_the_comparison_alone() {
    assert!(is_equal(&by_key, &(4, 'a'), &(4, 'b')));
    assert!(!is_equal(&by_key, &(4, 'a'), &(5, 'a')));
    assert!(is_equal(&cmp::<i64>, &7, &7));
    assert!(!is_equal(&cmp::<i64>, &7, &8));
    assert!(!is_equal(&uintwrap_max, &wrap(1), &wrap(2)));
    assert!(is_equal(&uintwrap_min, &wrap(2), &wrap(2)));
}

#[test]
fn push_pop_may_hand_back_an_element_that_ranks_alike() {
    let mut heap = ComparatorHeap::from_vec(by_key, vec![(3, 'a'), (9, 'b')]);
    let r = heap.push_pop((9, 'c'));
    assert_eq!(r.0, 9);
    let rest = heap.into_sorted_vec();
    assert_eq!(rest.len(), 2);
    assert_eq!(rest[0], (3, 'a'));
    assert_eq!(rest[1].0, 9);
    assert_ne!(rest[1].1, r.1);
}
