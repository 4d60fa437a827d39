use dary_heap::{Arity, DaryHeap, PeekMut, QuaternaryHeap, D2, D3, D4, D5, D6, D7, D8};

fn sorted(data: &[i32]) -> Vec<i32> {
    let mut v = data.to_vec();
    v.sort();
    v
}

fn check_all_ops<D: Arity>() {
    let mut heap = DaryHeap::<i32, D>::new();
    let inputs = [7, -3, 12, 12, 0, 5, -8, 30, 2, 2, 19, -1, 4];
    for &x in inputs.iter() {
        heap.push(x);
        assert!(heap.assert_valid_state());
    }
    assert_eq!(heap.pop(), Some(30));
    assert!(heap.assert_valid_state());
    let mut other = DaryHeap::<i32, D>::from(vec![40, -20, 6]);
    heap.append(&mut other);
    assert!(heap.assert_valid_state());
    assert!(other.is_empty());
    heap.retain(|x| *x != 12);
    assert!(heap.assert_valid_state());
    if let Some(top) = heap.peek_mut() {
        PeekMut::set(top, -50);
    }
    assert!(heap.assert_valid_state());
    assert_eq!(
        heap.into_sorted_vec(),
        vec![-50, -20, -8, -3, -1, 0, 2, 2, 4, 5, 6, 7, 19]
    );
}

#[test]
fn scenario_ternary_from_vec_then_pop() {
    let mut heap = DaryHeap::<i32, D3>::from(vec![1, 5, 2, 3, 3]);
    assert_eq!(heap.peek(), Some(&5));
    assert_eq!(heap.pop(), Some(5));
    assert_eq!(heap.pop(), Some(3));
    assert_eq!(heap.pop(), Some(3));
    assert_eq!(heap.pop(), Some(2));
    assert_eq!(heap.pop(), Some(1));
    assert_eq!(heap.pop(), None);
}

#[test]
fn scenario_quaternary_push() {
    let mut heap = QuaternaryHeap::new();
    heap.push(3);
    heap.push(5);
    heap.push(1);
    assert_eq!(heap.len(), 3);
    assert_eq!(heap.peek(), Some(&5));
}

#[test]
fn scenario_octonary_append() {
    let mut a = DaryHeap::<i32, D8>::from(vec![-10, 1, 2, 3, 3]);
    let mut b = DaryHeap::<i32, D8>::from(vec![-20, 5, 43]);
    a.append(&mut b);
    assert!(b.is_empty());
    assert_eq!(a.into_sorted_vec(), vec![-20, -10, 1, 2, 3, 3, 5, 43]);
}

#[test]
fn scenario_retain_even() {
    let mut heap = DaryHeap::<i32, D2>::from(vec![-10, -5, 1, 2, 4, 13]);
    heap.retain(|x| x % 2 == 0);
    assert!(heap.assert_valid_state());
    assert_eq!(heap.into_sorted_vec(), vec![-10, 2, 4]);
}

#[test]
fn empty_heap_operations_return_none() {
    let mut heap = DaryHeap::<i32, D4>::new();
    assert_eq!(heap.pop(), None);
    assert_eq!(heap.peek(), None);
    assert!(heap.peek_mut().is_none());
    assert_eq!(heap.len(), 0);
    assert!(heap.is_empty());
    assert_eq!(heap.into_vec(), Vec::<i32>::new());
}

#[test]
fn append_conserves_lengths() {
    for (n, m) in [(0usize, 0usize), (0, 4), (4, 0), (3, 9), (9, 3), (50, 2), (2, 50), (200, 150)] {
        let mut a = DaryHeap::<i32, D3>::from((0..n as i32).collect::<Vec<_>>());
        let mut b = DaryHeap::<i32, D3>::from((0..m as i32).map(|x| 1000 - x).collect::<Vec<_>>());
        a.append(&mut b);
        assert_eq!(a.len(), n + m);
        assert_eq!(b.len(), 0);
        assert!(a.assert_valid_state());
        assert!(b.assert_valid_state());
    }
}

#[test]
fn append_large_heap_sifts_tail_up() {
    let mut a = DaryHeap::<i32, D2>::from((0..5000).collect::<Vec<_>>());
    let mut b = DaryHeap::<i32, D2>::from(vec![7000, -3, 2500]);
    a.append(&mut b);
    assert_eq!(a.len(), 5003);
    assert!(a.assert_valid_state());
    assert_eq!(a.peek(), Some(&7000));
}

#[test]
fn round_trip_is_a_permutation() {
    let v = vec![9, -1, 4, 4, 0, 17, 3, -12, 8];
    let heap = DaryHeap::<i32, D5>::from(v.clone());
    let back: Vec<i32> = Vec::from(heap);
    assert_eq!(back.len(), v.len());
    assert_eq!(sorted(&back), sorted(&v));
    let heap = DaryHeap::<i32, D6>::from(v.clone());
    assert_eq!(sorted(heap.as_slice()), sorted(&v));
    assert_eq!(sorted(&heap.into_vec()), sorted(&v));
}

#[test]
fn heap_sort_and_pops_are_ordered() {
    let v = vec![31, 4, 15, 9, 26, 5, 35, 8, 97, 9, 32, 38, 46, 26, 43];
    let heap = DaryHeap::<i32, D7>::from(v.clone());
    assert_eq!(heap.into_sorted_vec(), sorted(&v));
    let mut heap = DaryHeap::<i32, D7>::from(v.clone());
    let mut popped = Vec::new();
    while let Some(x) = heap.pop() {
        popped.push(x);
    }
    let mut expected = sorted(&v);
    expected.reverse();
    assert_eq!(popped, expected);
}

#[test]
fn invariant_holds_after_every_operation() {
    check_all_ops::<D2>();
    check_all_ops::<D3>();
    check_all_ops::<D4>();
    check_all_ops::<D5>();
    check_all_ops::<D6>();
    check_all_ops::<D7>();
    check_all_ops::<D8>();
}

#[test]
fn peek_mut_set_and_pop() {
    let mut heap = DaryHeap::<i32, D2>::from(vec![3, 9, 1, 7]);
    {
        let top = heap.peek_mut().unwrap();
        assert_eq!(*top.get(), 9);
        PeekMut::set(top, 2);
    }
    assert_eq!(heap.peek(), Some(&7));
    assert!(heap.assert_valid_state());
    let top = heap.peek_mut().unwrap();
    assert_eq!(PeekMut::pop(top), 7);
    assert_eq!(heap.len(), 3);
    assert_eq!(heap.into_sorted_vec(), vec![1, 2, 3]);
}

#[test]
fn iterators_visit_every_element() {
    let heap = DaryHeap::<i32, D3>::from(vec![4, 8, 15, 16, 23, 42]);
    let mut seen = Vec::new();
    let mut it = heap.iter();
    assert_eq!(it.len(), 6);
    while let Some(x) = it.next() {
        seen.push(*x);
    }
    assert_eq!(sorted(&seen), vec![4, 8, 15, 16, 23, 42]);
    let mut it = heap.iter();
    assert_eq!(it.next_back(), Some(&heap.as_slice()[5]));
    assert_eq!(it.next(), Some(&heap.as_slice()[0]));
    assert_eq!(it.len(), 4);

    let order = heap.as_slice().to_vec();
    let mut owned = heap.into_iter();
    assert_eq!(owned.next(), Some(order[0]));
    assert_eq!(owned.next_back(), Some(order[5]));
    assert_eq!(owned.len(), 4);
}

#[test]
fn sorted_iterators_hand_out_greatest_first() {
    let heap = DaryHeap::<i32, D2>::from(vec![5, 1, 9, 3, 7]);
    let mut it = heap.into_iter_sorted();
    assert_eq!(it.len(), 5);
    let mut out = Vec::new();
    while let Some(x) = it.next() {
        out.push(x);
    }
    assert_eq!(out, vec![9, 7, 5, 3, 1]);

    let mut heap = DaryHeap::<i32, D4>::from(vec![2, 6, 4]);
    {
        let mut drain = heap.drain_sorted();
        assert_eq!(drain.next(), Some(6));
        assert_eq!(drain.len(), 2);
    }
    assert!(heap.is_empty());
}

#[test]
fn drain_and_clear_empty_the_heap() {
    let mut heap = DaryHeap::<i32, D2>::from(vec![1, 2, 3]);
    let order = heap.as_slice().to_vec();
    let mut taken = Vec::new();
    {
        let mut drain = heap.drain();
        assert_eq!(drain.len(), 3);
        while let Some(x) = drain.next() {
            taken.push(x);
        }
    }
    assert_eq!(taken, order);
    assert!(heap.is_empty());
    let mut heap = DaryHeap::<i32, D2>::from(vec![1, 2, 3]);
    let mut drain = heap.drain();
    assert_eq!(drain.next_back(), Some(order[2]));
    drop(drain);
    assert!(heap.is_empty());
    let mut heap = DaryHeap::<i32, D2>::from(vec![1, 2, 3]);
    heap.clear();
    assert!(heap.is_empty());
}

#[test]
fn capacity_changes_keep_elements() {
    let mut heap = DaryHeap::<i32, D2>::with_capacity(16);
    assert!(heap.capacity() >= 16);
    heap.extend(vec![5, 3, 8]);
    let before = heap.as_slice().to_vec();
    heap.reserve(100);
    assert!(heap.capacity() >= 103);
    heap.reserve_exact(200);
    assert!(heap.capacity() >= 203);
    assert_eq!(heap.as_slice(), &before[..]);
    heap.shrink_to(10);
    assert_eq!(heap.as_slice(), &before[..]);
    heap.shrink_to_fit();
    assert_eq!(heap.as_slice(), &before[..]);
    assert!(heap.capacity() >= 3);
}

#[test]
fn extend_pushes_each_item() {
    let mut heap = DaryHeap::<i32, D3>::from(vec![10, 20]);
    heap.extend(vec![15, 30, 5]);
    assert_eq!(heap.len(), 5);
    assert!(heap.assert_valid_state());
    assert_eq!(heap.into_sorted_vec(), vec![5, 10, 15, 20, 30]);
}

#[test]
fn default_heap_is_empty() {
    let heap: DaryHeap<i32, D8> = Default::default();
    assert!(heap.is_empty());
}

/// A key whose order can be changed while it sits in a heap.
#[derive(Debug)]
struct Key(std::rc::Rc<std::cell::Cell<i32>>);

impl PartialEq for Key {
    fn eq(&self, other: &Self) -> bool {
        self.0.get() == other.0.get()
    }
}

impl Eq for Key {}

impl PartialOrd for Key {
    fn partial_cmp(&self, other: &Self) -> Option<std::cmp::Ordering> {
        Some(self.cmp(other))
    }
}

impl Ord for Key {
    fn cmp(&self, other: &Self) -> std::cmp::Ordering {
        self.0.get().cmp(&other.0.get())
    }
}

#[test]
fn invalid_state_is_reported() {
    let low = std::rc::Rc::new(std::cell::Cell::new(1));
    let heap = DaryHeap::<Key, D2>::from(vec![
        Key(std::rc::Rc::new(std::cell::Cell::new(10))),
        Key(low.clone()),
        Key(std::rc::Rc::new(std::cell::Cell::new(5))),
    ]);
    assert!(heap.assert_valid_state());
    low.set(99);
    assert!(!heap.assert_valid_state());
    assert_eq!(heap.len(), 3);
}

#[test]
fn push_of_small_item_moves_nothing() {
    let mut heap = DaryHeap::<i32, D2>::from(vec![10, 5, 3, 4]);
    let mut expected = heap.as_slice().to_vec();
    heap.push(1);
    expected.push(1);
    assert_eq!(heap.as_slice(), &expected[..]);
    heap.push(11);
    assert_eq!(heap.peek(), Some(&11));
}

#[test]
fn append_with_an_empty_side_keeps_the_order() {
    let mut a = DaryHeap::<i32, D3>::from(vec![4, 9, 1, 7, 7]);
    let before = a.as_slice().to_vec();
    let mut empty = DaryHeap::<i32, D3>::new();
    a.append(&mut empty);
    assert_eq!(a.as_slice(), &before[..]);
    assert!(empty.is_empty());

    let mut b = DaryHeap::<i32, D3>::new();
    let mut c = DaryHeap::<i32, D3>::from(vec![2, 8, 6]);
    let c_order = c.as_slice().to_vec();
    b.append(&mut c);
    assert_eq!(b.as_slice(), &c_order[..]);
    assert!(c.is_empty());
}

#[test]
fn retain_keeping_everything_changes_nothing() {
    let mut heap = DaryHeap::<i32, D4>::from(vec![3, 14, 15, 92, 65, 35]);
    let before = heap.as_slice().to_vec();
    heap.retain(|_| true);
    assert_eq!(heap.as_slice(), &before[..]);
}

#[test]
fn peek_mut_release_leaves_the_heap() {
    let mut heap = DaryHeap::<i32, D2>::from(vec![3, 9, 1, 7]);
    let before = heap.as_slice().to_vec();
    let top = heap.peek_mut().unwrap();
    assert_eq!(*top.get(), 9);
    PeekMut::release(top);
    assert_eq!(heap.as_slice(), &before[..]);
}
