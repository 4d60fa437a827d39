use dary_heap::{Arity, DaryHeap, PeekMut, D2, D3, D4, D5, D6, D7, D8};

struct D1;

impl Arity for D1 {
    const D: usize = 1;

    fn lemma_arity_positive() {}
}

/// Reads the bytes as little-endian 16-bit numbers, dropping an odd last byte.
fn to_u16_vec(data: &[u8]) -> Vec<u16> {
    data.chunks_exact(2).map(|c| u16::from_le_bytes([c[0], c[1]])).collect()
}

fn heap<D: Arity>(data: &[u16]) -> DaryHeap<u16, D> {
    DaryHeap::<_, D>::from(Vec::from(data))
}

fn sorted(data: &[u16]) -> Vec<u16> {
    let mut sort_data = Vec::from(data);
    sort_data.sort();
    sort_data
}

fn peek_mut<D: Arity>(data: &[u16]) {
    if let Some((&first, data)) = data.split_first() {
        let mut heap = heap::<D>(data);
        if let Some(peek) = heap.peek_mut() {
            PeekMut::set(peek, first);
        }
        assert!(heap.assert_valid_state());
        assert_eq!(heap.len(), data.len());
    }
}

fn pop<D: Arity>(data: &[u16]) {
    let mut heap = heap::<D>(data);
    let sort_data = sorted(data);
    assert_eq!(sort_data.len(), heap.len());
    for &x in sort_data.iter().rev() {
        assert_eq!(heap.pop(), Some(x));
        assert!(heap.assert_valid_state());
    }
    assert_eq!(heap.pop(), None);
}

fn push<D: Arity>(data: &[u16]) {
    let mut heap = DaryHeap::<_, D>::with_capacity(data.len());
    for &x in data {
        heap.push(x);
        assert!(heap.assert_valid_state());
    }
}

fn into_sorted_vec<D: Arity>(data: &[u16]) {
    let heap = heap::<D>(data);
    let sort_data = sorted(data);
    let sorted = heap.into_sorted_vec();
    assert_eq!(sorted, sort_data);
}

fn append<D: Arity>(data: &[u16]) {
    if let Some((&first, data)) = data.split_first() {
        let first = first as usize % (data.len() + 1);
        let (data1, data2) = data.split_at(first);
        let mut heap1 = heap::<D>(data1);
        let mut heap2 = heap::<D>(data2);
        heap1.append(&mut heap2);
        assert!(heap2.is_empty());
        assert!(heap1.len() == data.len());
        assert!(heap1.assert_valid_state());
    }
}

fn make_heap<D: Arity>(data: &[u16]) {
    let heap = heap::<D>(data);
    assert!(heap.assert_valid_state());
}

fn run_all<D: Arity>() {
    let inputs: [&[u8]; 5] = [
        &[],
        &[7, 0],
        &[3, 0, 9, 1, 9, 1, 0, 0, 255, 255, 4, 0, 4, 0],
        b"a d-ary heap keeps its greatest element at the root!",
        &[1, 2, 3, 4, 5, 6, 7, 8, 9, 10, 11, 12, 13, 14, 15, 16, 17, 18, 19, 20, 21, 22, 23],
    ];
    for bytes in inputs.iter() {
        let data = to_u16_vec(bytes);
        peek_mut::<D>(&data);
        pop::<D>(&data);
        push::<D>(&data);
        into_sorted_vec::<D>(&data);
        append::<D>(&data);
        make_heap::<D>(&data);
    }
}

#[test]
fn fuzz_checks_d1() {
    run_all::<D1>();
}

#[test]
fn fuzz_checks_d2() {
    run_all::<D2>();
}

#[test]
fn fuzz_checks_d3() {
    run_all::<D3>();
}

#[test]
fn fuzz_checks_d4() {
    run_all::<D4>();
}

#[test]
fn fuzz_checks_d5() {
    run_all::<D5>();
}

#[test]
fn fuzz_checks_d6() {
    run_all::<D6>();
}

#[test]
fn fuzz_checks_d7() {
    run_all::<D7>();
}

#[test]
fn fuzz_checks_d8() {
    run_all::<D8>();
}
