use dary_heap::{Arity, DaryHeap, D2, D3, D4, D5, D6, D7, D8};

/// A fixed pseudo-random permutation of `0..n`.
fn shuffled(n: i32, seed: u64) -> Vec<i32> {
    let mut data: Vec<i32> = (0..n).collect();
    let mut state = seed.wrapping_mul(6364136223846793005).wrapping_add(1442695040888963407);
    for i in (1..data.len()).rev() {
        state ^= state << 13;
        state ^= state >> 7;
        state ^= state << 17;
        let j = (state % (i as u64 + 1)) as usize;
        data.swap(i, j);
    }
    data
}

fn pop<D: Arity>() {
    let ntest = 10;
    let nelem = 1000;
    for t in 0..ntest {
        let data = shuffled(nelem, t as u64 + 1);
        let mut heap = DaryHeap::<_, D>::from(data);
        assert!(heap.assert_valid_state());
        for i in (0..nelem).rev() {
            assert_eq!(heap.pop(), Some(i));
            assert!(heap.assert_valid_state());
        }
        assert_eq!(heap.pop(), None);
    }
}

struct D1;

impl Arity for D1 {
    const D: usize = 1;

    fn lemma_arity_positive() {}
}

#[test]
fn pop_d1() {
    pop::<D1>();
}

#[test]
fn pop_d2() {
    pop::<D2>();
}

#[test]
fn pop_d3() {
    pop::<D3>();
}

#[test]
fn pop_d4() {
    pop::<D4>();
}

#[test]
fn pop_d5() {
    pop::<D5>();
}

#[test]
fn pop_d6() {
    pop::<D6>();
}

#[test]
fn pop_d7() {
    pop::<D7>();
}

#[test]
fn pop_d8() {
    pop::<D8>();
}
