use vstd::prelude::*;
use vstd::laws_cmp::obeys_cmp;
use crate::arity::Arity;
use crate::storage::swap_slots;
use crate::order::{le, reveal_cmp_laws, lemma_le_reflexive, lemma_le_total, lemma_le_transitive};

verus! {

/// A sift in progress: the slot `pos` of the heap's own sequence that holds
/// the element being moved. Every other slot holds a settled element, and
/// relocating the hole trades places with one of them. The elements never
/// leave the sequence, so when a comparison panics mid-sift the sequence still
/// holds each element exactly once.
pub(crate) struct Hole<T> {
    pub(crate) pos: usize,
    pub(crate) marker: core::marker::PhantomData<T>,
}

impl<T> Hole<T> {
    /// Opens a hole at `pos`.
    pub(crate) fn new(data: &Vec<T>, pos: usize) -> (hole: Self)
        requires
            pos < data@.len(),
        ensures
            hole.pos == pos,
    {
        Hole { pos, marker: core::marker::PhantomData }
    }

    pub(crate) fn pos(&self) -> (r: usize)
        ensures
            r == self.pos,
    {
        self.pos
    }

    /// The element being moved.
    pub(crate) fn element<'b>(&self, data: &'b Vec<T>) -> (r: &'b T)
        requires
            self.pos < data@.len(),
        ensures
            *r == data@[self.pos as int],
    {
        &data[self.pos]
    }

    /// A settled element.
    pub(crate) fn get<'b>(&self, data: &'b Vec<T>, index: usize) -> (r: &'b T)
        requires
            index < data@.len(),
            index != self.pos,
        ensures
            *r == data@[index as int],
    {
        &data[index]
    }

    /// Moves the settled element at `index` into the hole's slot; the hole is
    /// then at `index`.
    pub(crate) fn move_to(&mut self, data: &mut Vec<T>, index: usize)
        requires
            index < old(data)@.len(),
            old(self).pos < old(data)@.len(),
            index != old(self).pos,
        ensures
            final(self).pos == index,
            final(data)@ == old(data)@.update(
                old(self).pos as int,
                old(data)@[index as int],
            ).update(index as int, old(data)@[old(self).pos as int]),
    {
        swap_slots(data, self.pos, index);
        self.pos = index;
    }
}

impl<T: Ord> Hole<T> {
    /// The greater of two settled elements; the later one on a tie.
    pub(crate) fn max(&self, data: &Vec<T>, elem1: usize, elem2: usize) -> (r: usize)
        requires
            elem1 < data@.len(),
            elem2 < data@.len(),
            elem1 != self.pos,
            elem2 != self.pos,
        ensures
            r == elem1 || r == elem2,
            obeys_cmp::<T>() ==> le(data@[elem1 as int], data@[r as int]) && le(
                data@[elem2 as int],
                data@[r as int],
            ),
    {
        proof {
            if obeys_cmp::<T>() {
                reveal_cmp_laws::<T>();
                lemma_le_reflexive(data@[elem1 as int]);
                lemma_le_reflexive(data@[elem2 as int]);
                lemma_le_total(data@[elem1 as int], data@[elem2 as int]);
            }
        }
        if *self.get(data, elem1) <= *self.get(data, elem2) {
            elem2
        } else {
            elem1
        }
    }

    /// The greatest of the `D` siblings starting at `first_sibling`.
    pub(crate) fn max_sibling<A: Arity>(&self, data: &Vec<T>, first_sibling: usize) -> (r: usize)
        requires
            first_sibling + A::D <= data@.len(),
            self.pos < first_sibling || self.pos >= first_sibling + A::D,
        ensures
            first_sibling <= r < first_sibling + A::D,
            obeys_cmp::<T>() ==> forall|j: int|
                first_sibling <= j < first_sibling + A::D ==> #[trigger] le(
                    data@[j],
                    data@[r as int],
                ),
    {
        proof {
            A::lemma_arity_positive();
        }
        proof {
            // The sequence length is a `usize`, so the sibling indices below fit.
            assert(data@.len() == data.len());
        }
        let s = first_sibling;
        if A::D == 2 {
            self.max(data, s, s + 1)
        } else if A::D == 3 {
            let a = self.max(data, s, s + 1);
            let r = self.max(data, a, s + 2);
            proof {
                if obeys_cmp::<T>() {
                    lemma_le_transitive(data@[s as int], data@[a as int], data@[r as int]);
                    lemma_le_transitive(data@[s + 1], data@[a as int], data@[r as int]);
                }
            }
            r
        } else if A::D == 4 {
            let a = self.max(data, s, s + 1);
            let b = self.max(data, s + 2, s + 3);
            let r = self.max(data, a, b);
            proof {
                if obeys_cmp::<T>() {
                    lemma_le_transitive(data@[s as int], data@[a as int], data@[r as int]);
                    lemma_le_transitive(data@[s + 1], data@[a as int], data@[r as int]);
                    lemma_le_transitive(data@[s + 2], data@[b as int], data@[r as int]);
                    lemma_le_transitive(data@[s + 3], data@[b as int], data@[r as int]);
                }
            }
            r
        } else {
            self.max_sibling_to::<A>(data, s, s + A::D)
        }
    }

    /// The greatest of the siblings from `first_sibling` up to `end`, where
    /// fewer than `D` of them remain; `first_sibling` itself when none does.
    pub(crate) fn max_sibling_to<A: Arity>(&self, data: &Vec<T>, first_sibling: usize, end: usize) -> (r: usize)
        requires
            end <= data@.len(),
            end <= first_sibling + A::D,
            self.pos < first_sibling || self.pos >= end,
        ensures
            first_sibling < end ==> first_sibling <= r < end,
            first_sibling >= end ==> r == first_sibling,
            obeys_cmp::<T>() ==> forall|j: int|
                first_sibling <= j < end ==> #[trigger] le(data@[j], data@[r as int]),
    {
        let mut sibling = first_sibling;
        if first_sibling >= end {
            return sibling;
        }
        proof {
            if obeys_cmp::<T>() {
                lemma_le_reflexive(data@[first_sibling as int]);
            }
        }
        let mut other_sibling = first_sibling + 1;
        while other_sibling < end
            invariant
                first_sibling <= sibling < other_sibling <= end,
                end <= data@.len(),
                self.pos < first_sibling || self.pos >= end,
                obeys_cmp::<T>() ==> forall|j: int|
                    first_sibling <= j < other_sibling ==> #[trigger] le(
                        data@[j],
                        data@[sibling as int],
                    ),
            decreases end - other_sibling,
        {
            let old_sibling = sibling;
            if *self.get(data, sibling) <= *self.get(data, other_sibling) {
                sibling = other_sibling;
            }
            proof {
                if obeys_cmp::<T>() {
                    reveal_cmp_laws::<T>();
                    lemma_le_total(data@[old_sibling as int], data@[other_sibling as int]);
                    lemma_le_reflexive(data@[sibling as int]);
                    assert forall|j: int|
                        first_sibling <= j < other_sibling + 1 implies #[trigger] le(
                        data@[j],
                        data@[sibling as int],
                    ) by {
                        if j < other_sibling {
                            lemma_le_transitive(
                                data@[j],
                                data@[old_sibling as int],
                                data@[sibling as int],
                            );
                        }
                    }
                }
            }
            other_sibling += 1;
        }
        sibling
    }
}

} // verus!
