use vstd::prelude::*;

verus! {

/// Marker supplying the arity *d* of a *d*-ary heap: the largest number of
/// children a node can have.
///
/// An arity of one is allowed (every node then has one child, which makes the
/// heap a sorted list). An arity of zero cannot be used: every implementation
/// proves that its `D` is positive, so verified code never meets one.
///
/// Code built without verification can still implement this trait with
/// `D = 0` (the proof item then compiles to an empty function). Such a heap is
/// not rejected up front: `new`, a `push` into an empty heap and building a
/// heap from a single element succeed without a panic. Other operations divide
/// by `D` or rely on it being positive, and may panic or never return.
pub trait Arity {
    /// The value of *d*.
    const D: usize;

    /// The arity is at least one.
    proof fn lemma_arity_positive()
        ensures
            Self::D > 0,
    ;
}

/// Marker for arity *d* = 2.
pub struct D2;

/// Marker for arity *d* = 3.
pub struct D3;

/// Marker for arity *d* = 4.
pub struct D4;

/// Marker for arity *d* = 5.
pub struct D5;

/// Marker for arity *d* = 6.
pub struct D6;

/// Marker for arity *d* = 7.
pub struct D7;

/// Marker for arity *d* = 8.
pub struct D8;

impl Arity for D2 {
    const D: usize = 2;

    proof fn lemma_arity_positive() {
    }
}

impl Arity for D3 {
    const D: usize = 3;

    proof fn lemma_arity_positive() {
    }
}

impl Arity for D4 {
    const D: usize = 4;

    proof fn lemma_arity_positive() {
    }
}

impl Arity for D5 {
    const D: usize = 5;

    proof fn lemma_arity_positive() {
    }
}

impl Arity for D6 {
    const D: usize = 6;

    proof fn lemma_arity_positive() {
    }
}

impl Arity for D7 {
    const D: usize = 7;

    proof fn lemma_arity_positive() {
    }
}

impl Arity for D8 {
    const D: usize = 8;

    proof fn lemma_arity_positive() {
    }
}

} // verus!
