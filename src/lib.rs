//! A priority queue implemented with a *d*-ary max-heap, whose arity *d* is
//! chosen through a type parameter.

mod arity;
mod heap;
mod hole;
mod iter;
mod laws;
mod model;
mod order;
mod peek_mut;
mod storage;

pub use arity::{Arity, D2, D3, D4, D5, D6, D7, D8};
pub use heap::{
    BinaryHeap, DaryHeap, OctonaryHeap, QuaternaryHeap, QuinaryHeap, SenaryHeap, SeptenaryHeap,
    TernaryHeap,
};
pub use iter::{Drain, DrainSorted, IntoIter, IntoIterSorted, Iter};
pub use laws::{
    antisymmetric, law_heap_children_ordered, law_heap_sort, law_pops_descend, law_pops_sorted,
    law_round_trip, lemma_sorted_unique, popped_in_turn,
};
pub use model::{children_ordered, is_heap, kept, sorted_ascending};
pub use order::{le, lemma_le_reflexive, lemma_le_total, lemma_le_transitive};
pub use peek_mut::PeekMut;
