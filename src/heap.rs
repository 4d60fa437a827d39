use vstd::prelude::*;
use vstd::laws_cmp::obeys_cmp;
use crate::arity::{Arity, D2, D3, D4, D5, D6, D7, D8};
use crate::iter::{Drain, DrainSorted, IntoIter, IntoIterSorted, Iter};
use crate::model::{
    children_ordered, is_heap, kept, lemma_bound_by_multiset, lemma_heap_iff_children_ordered,
    lemma_parent_before, lemma_root_is_max, lemma_swap_multiset, ordered_prefix, parent_of,
    sorted_ascending,
};
use crate::order::{le, lemma_lt_not_le, reveal_cmp_laws};
use crate::peek_mut::PeekMut;
use crate::storage::{
    swap_slots, vec_capacity, vec_reserve_exact, vec_shrink_to, vec_shrink_to_fit,
};

mod sift;

verus! {

/// A priority queue implemented with a *d*-ary max-heap, where *d* is given by
/// the arity marker `A`.
///
/// The elements are kept in one growable sequence, index 0 being the root.
/// When the order of `T` is lawful, every element is at most its parent; when
/// it is not, the heap stays memory safe and keeps every element, but its
/// order is unspecified.
pub struct DaryHeap<T, A: Arity> {
    data: Vec<T>,
    marker: core::marker::PhantomData<A>,
}

/// A binary heap (*d* = 2).
pub type BinaryHeap<T> = DaryHeap<T, D2>;

/// A ternary heap (*d* = 3).
pub type TernaryHeap<T> = DaryHeap<T, D3>;

/// A quaternary heap (*d* = 4).
pub type QuaternaryHeap<T> = DaryHeap<T, D4>;

/// A quinary heap (*d* = 5).
pub type QuinaryHeap<T> = DaryHeap<T, D5>;

/// A senary heap (*d* = 6).
pub type SenaryHeap<T> = DaryHeap<T, D6>;

/// A septenary heap (*d* = 7).
pub type SeptenaryHeap<T> = DaryHeap<T, D7>;

/// An octonary heap (*d* = 8).
pub type OctonaryHeap<T> = DaryHeap<T, D8>;

impl<T, A: Arity> View for DaryHeap<T, A> {
    type V = Seq<T>;

    /// The backing sequence, in heap order.
    closed spec fn view(&self) -> Seq<T> {
        self.data@
    }
}

impl<T, A: Arity> DaryHeap<T, A> {
    /// The number of elements.
    pub fn len(&self) -> (r: usize)
        ensures
            r == self@.len(),
    {
        self.data.len()
    }

    /// Whether the heap holds no element.
    pub fn is_empty(&self) -> (r: bool)
        ensures
            r == (self@.len() == 0),
    {
        self.len() == 0
    }

    /// The backing sequence, in heap order.
    pub fn as_slice(&self) -> (r: &[T])
        ensures
            r@ == self@,
    {
        self.data.as_slice()
    }

    /// The backing sequence, in heap order, without copying.
    pub fn into_vec(self) -> (r: Vec<T>)
        ensures
            r@ == self@,
    {
        self.data
    }

    /// The elements, borrowed, in heap order.
    pub fn iter(&self) -> (r: Iter<'_, T>)
        ensures
            r.remaining() == self@,
    {
        Iter::new(self.data.as_slice())
    }

    /// The elements, owned, in heap order.
    pub fn into_iter(self) -> (r: IntoIter<T>)
        ensures
            r.remaining() == self@,
    {
        IntoIter::new(self.data)
    }

    /// The number of elements the heap can hold without reallocating.
    pub fn capacity(&self) -> (r: usize)
        ensures
            r >= self@.len(),
    {
        vec_capacity(&self.data)
    }

    /// Reserves room for exactly `additional` more elements.
    pub fn reserve_exact(&mut self, additional: usize)
        requires
            old(self)@.len() + additional <= usize::MAX,
            (old(self)@.len() + additional) * vstd::layout::size_of::<T>() <= isize::MAX,
        ensures
            final(self)@ == old(self)@,
    {
        vec_reserve_exact(&mut self.data, additional);
    }

    /// Reserves room for at least `additional` more elements.
    pub fn reserve(&mut self, additional: usize)
        requires
            old(self)@.len() + additional <= usize::MAX,
            (old(self)@.len() + additional) * vstd::layout::size_of::<T>() <= isize::MAX,
        ensures
            final(self)@ == old(self)@,
    {
        self.data.reserve(additional);
    }

    /// Gives back as much unused room as possible.
    pub fn shrink_to_fit(&mut self)
        ensures
            final(self)@ == old(self)@,
    {
        vec_shrink_to_fit(&mut self.data);
    }

    /// Gives back unused room, keeping room for at least `min_capacity`
    /// elements.
    pub fn shrink_to(&mut self, min_capacity: usize)
        ensures
            final(self)@ == old(self)@,
    {
        vec_shrink_to(&mut self.data, min_capacity);
    }

    /// Takes every element out, in heap order; the heap is left empty.
    pub fn drain(&mut self) -> (r: Drain<'_, T>)
        ensures
            r.remaining() == old(self)@,
            final(self)@ == Seq::<T>::empty(),
    {
        Drain::new(self.take_data())
    }

    /// Takes the backing sequence out, leaving an empty one in its place.
    fn take_data(&mut self) -> (r: Vec<T>)
        ensures
            r@ == old(self)@,
            final(self)@ == Seq::<T>::empty(),
    {
        let mut data = Vec::new();
        core::mem::swap(&mut data, &mut self.data);
        data
    }

    /// Drops every element.
    pub fn clear(&mut self)
        ensures
            final(self)@ == Seq::<T>::empty(),
    {
        self.data.clear();
    }

}

impl<T: Ord, A: Arity> DaryHeap<T, A> {
    /// The heap property holds whenever the order of `T` is lawful.
    pub open spec fn wf(&self) -> bool {
        obeys_cmp::<T>() ==> is_heap(self@, A::D as int)
    }

    /// An empty heap.
    pub fn new() -> (heap: Self)
        ensures
            heap@ == Seq::<T>::empty(),
            heap.wf(),
    {
        DaryHeap { data: Vec::new(), marker: core::marker::PhantomData }
    }

    /// An empty heap with room for at least `capacity` elements.
    pub fn with_capacity(capacity: usize) -> (heap: Self)
        requires
            capacity * vstd::layout::size_of::<T>() <= isize::MAX,
        ensures
            heap@ == Seq::<T>::empty(),
            heap.wf(),
    {
        DaryHeap { data: Vec::with_capacity(capacity), marker: core::marker::PhantomData }
    }

    /// The greatest element, or `None` when the heap is empty.
    pub fn peek(&self) -> (r: Option<&T>)
        ensures
            self@.len() == 0 ==> r is None,
            self@.len() > 0 ==> r == Some(&self@[0]),
            obeys_cmp::<T>() && self.wf() && self@.len() > 0 ==> forall|i: int|
                0 <= i < self@.len() ==> #[trigger] le(self@[i], self@[0]),
    {
        proof {
            if obeys_cmp::<T>() && self.wf() && self@.len() > 0 {
                A::lemma_arity_positive();
                assert forall|i: int| 0 <= i < self@.len() implies #[trigger] le(
                    self@[i],
                    self@[0],
                ) by {
                    lemma_root_is_max(self@, A::D as int, self@.len() as int, i);
                }
            }
        }
        if self.data.len() == 0 {
            None
        } else {
            Some(&self.data[0])
        }
    }

    /// Adds `item` to the heap.
    pub fn push(&mut self, item: T)
        requires
            old(self).wf(),
        ensures
            final(self).wf(),
            final(self)@.len() == old(self)@.len() + 1,
            final(self)@.to_multiset() == old(self)@.to_multiset().insert(item),
            obeys_cmp::<T>() && (old(self)@.len() == 0 || le(
                item,
                old(self)@[parent_of(old(self)@.len() as int, A::D as int)],
            )) ==> final(self)@ == old(self)@.push(item),
    {
        proof {
            A::lemma_arity_positive();
            broadcast use vstd::seq_lib::group_to_multiset_ensures;
        }
        let old_len = self.data.len();
        self.data.push(item);
        proof {
            let s = self@;
            let d = A::D as int;
            if obeys_cmp::<T>() {
                assert forall|i: int| 0 < i < old_len && i < s.len() implies #[trigger] le(
                    s[i],
                    s[parent_of(i, d)],
                ) by {
                    lemma_parent_before(i, d);
                    assert(le(old(self)@[i], old(self)@[parent_of(i, d)]));
                }
                if old_len > 0 {
                    lemma_parent_before(old_len as int, d);
                }
            }
        }
        self.sift_up(0, old_len);
    }

    /// Removes the greatest element and returns it, or `None` when the heap is
    /// empty.
    pub fn pop(&mut self) -> (r: Option<T>)
        requires
            old(self).wf(),
        ensures
            final(self).wf(),
            old(self)@.len() == 0 ==> r is None && final(self)@ == old(self)@,
            old(self)@.len() > 0 ==> r == Some(old(self)@[0]) && final(self)@.len() == old(self)@.len() - 1 && final(self)@.to_multiset() == old(self)@.to_multiset().remove(
                old(self)@[0],
            ),
            obeys_cmp::<T>() && old(self)@.len() > 0 ==> forall|i: int|
                0 <= i < old(self)@.len() ==> #[trigger] le(old(self)@[i], old(self)@[0]),
    {
        proof {
            A::lemma_arity_positive();
            broadcast use vstd::seq_lib::group_to_multiset_ensures;
            broadcast use vstd::multiset::group_multiset_axioms;

            let s = self@;
            if obeys_cmp::<T>() && s.len() > 0 {
                assert forall|i: int| 0 <= i < s.len() implies #[trigger] le(s[i], s[0]) by {
                    lemma_root_is_max(s, A::D as int, s.len() as int, i);
                }
            }
        }
        let ghost s = self@;
        match self.data.pop() {
            None => None,
            Some(mut item) => {
                proof {
                    assert(s =~= self@.push(item));
                }
                if !self.data.is_empty() {
                    core::mem::swap(&mut item, &mut self.data[0]);
                    proof {
                        let d = A::D as int;
                        let s1 = s.drop_last();
                        assert(self@ =~= s1.update(0, s[s.len() - 1]));
                        assert(self@.to_multiset() =~= s.to_multiset().remove(s[0]));
                        if obeys_cmp::<T>() {
                            assert forall|i: int|
                                0 < i < self@.len() && parent_of(i, d) >= 1 implies #[trigger] le(
                                self@[i],
                                self@[parent_of(i, d)],
                            ) by {
                                assert(le(s[i], s[parent_of(i, d)]));
                            }
                        }
                    }
                    self.sift_down_to_bottom(0);
                    proof {
                        if obeys_cmp::<T>() {
                            assert forall|i: int| 0 < i < self@.len() implies #[trigger] le(
                                self@[i],
                                self@[parent_of(i, A::D as int)],
                            ) by {
                                lemma_parent_before(i, A::D as int);
                            }
                        }
                    }
                } else {
                    proof {
                        assert(self@.to_multiset() =~= s.to_multiset().remove(s[0]));
                    }
                }
                Some(item)
            },
        }
    }

    /// Exclusive access to the greatest element, or `None` when the heap is
    /// empty.
    pub fn peek_mut(&mut self) -> (r: Option<PeekMut<'_, T, A>>)
        requires
            old(self).wf(),
        ensures
            old(self)@.len() == 0 ==> r is None && *final(self) == *old(self),
            old(self)@.len() > 0 ==> (r matches Some(p) && *p.borrow() == *old(self) && *final(p.borrow())
                == *final(self)),
    {
        if self.is_empty() {
            None
        } else {
            Some(PeekMut::new(self))
        }
    }

    /// Puts `value` in place of the greatest element, which it returns, and
    /// sifts `value` down to its place.
    pub(crate) fn replace_top(&mut self, value: T) -> (r: T)
        requires
            old(self).wf(),
            old(self)@.len() > 0,
        ensures
            final(self).wf(),
            r == old(self)@[0],
            final(self)@.len() == old(self)@.len(),
            final(self)@.to_multiset() == old(self)@.to_multiset().insert(value).remove(
                old(self)@[0],
            ),
    {
        proof {
            broadcast use vstd::seq_lib::group_to_multiset_ensures;
        }
        let mut item = value;
        core::mem::swap(&mut item, &mut self.data[0]);
        proof {
            let d = A::D as int;
            A::lemma_arity_positive();
            if obeys_cmp::<T>() {
                assert forall|i: int|
                    0 < i < self@.len() && parent_of(i, d) >= 1 implies #[trigger] le(
                    self@[i],
                    self@[parent_of(i, d)],
                ) by {
                    lemma_parent_before(i, d);
                    assert(le(old(self)@[i], old(self)@[parent_of(i, d)]));
                }
            }
        }
        self.sift_down(0);
        proof {
            if obeys_cmp::<T>() {
                assert forall|i: int| 0 < i < self@.len() implies #[trigger] le(
                    self@[i],
                    self@[parent_of(i, A::D as int)],
                ) by {
                    lemma_parent_before(i, A::D as int);
                }
            }
        }
        item
    }

    /// Sorts the elements in ascending order, in place, and returns them.
    pub fn into_sorted_vec(self) -> (r: Vec<T>)
        requires
            self.wf(),
        ensures
            r@.len() == self@.len(),
            r@.to_multiset() == self@.to_multiset(),
            obeys_cmp::<T>() ==> sorted_ascending(r@),
    {
        proof {
            A::lemma_arity_positive();
        }
        let ghost d = A::D as int;
        let ghost s0 = self@;
        let mut heap = self;
        let len = heap.len();
        let mut end = len;
        while end > 1
            invariant
                d == A::D > 0,
                end <= len == heap@.len() == s0.len(),
                heap@.to_multiset() == s0.to_multiset(),
                obeys_cmp::<T>() ==> ordered_prefix(heap@, d, end as int),
                obeys_cmp::<T>() ==> forall|i: int, j: int|
                    end <= i < j < len ==> #[trigger] le(heap@[i], heap@[j]),
                obeys_cmp::<T>() ==> forall|i: int, j: int|
                    0 <= i < end <= j < len ==> #[trigger] le(heap@[i], heap@[j]),
            decreases end,
        {
            end -= 1;
            let ghost s = heap@;
            swap_slots(&mut heap.data, 0, end);
            let ghost s1 = heap@;
            proof {
                lemma_swap_multiset(s, 0, end as int);
                if obeys_cmp::<T>() {
                    assert forall|i: int|
                        0 < i < end && parent_of(i, d) >= 1 implies #[trigger] le(
                        s1[i],
                        s1[parent_of(i, d)],
                    ) by {
                        lemma_parent_before(i, d);
                        assert(le(s[i], s[parent_of(i, d)]));
                    }
                }
            }
            heap.sift_down_range(0, end);
            proof {
                let s2 = heap@;
                if obeys_cmp::<T>() {
                    assert forall|i: int, j: int|
                        0 <= i < end <= j < len implies #[trigger] le(s2[i], s2[j]) by {
                        let p1 = s1.subrange(0, end as int);
                        let p2 = s2.subrange(0, end as int);
                        assert forall|a: int| 0 <= a < p1.len() implies #[trigger] le(
                            p1[a],
                            s1[j],
                        ) by {
                            if j == end {
                                lemma_root_is_max(s, d, end + 1, if a == 0 {
                                    end as int
                                } else {
                                    a
                                });
                            } else {
                                assert(le(s[if a == 0 {
                                    end as int
                                } else {
                                    a
                                }], s[j]));
                            }
                        }
                        lemma_bound_by_multiset(p1, p2, s1[j]);
                        assert(le(p2[i], s1[j]));
                    }
                    assert forall|i: int, j: int| end <= i < j < len implies #[trigger] le(
                        s2[i],
                        s2[j],
                    ) by {
                        if i == end {
                            assert(le(s[0], s[j]));
                        } else {
                            assert(le(s[i], s[j]));
                        }
                    }
                    assert(ordered_prefix(s2, d, end as int));
                }
            }
        }
        proof {
            if obeys_cmp::<T>() {
                assert forall|i: int, j: int| 0 <= i < j < heap@.len() implies #[trigger] le(
                    heap@[i],
                    heap@[j],
                ) by {
                    // Either `i` is in the remaining prefix, of at most one
                    // element, or both lie in the sorted suffix.
                    assert(i < end ==> j >= end);
                }
            }
        }
        heap.into_vec()
    }

    /// Moves every element of `other` into `self`, leaving `other` empty.
    pub fn append(&mut self, other: &mut Self)
        requires
            old(self).wf(),
            old(other).wf(),
        ensures
            final(self).wf(),
            final(other).wf(),
            final(self)@.len() == old(self)@.len() + old(other)@.len(),
            final(self)@.to_multiset() == old(self)@.to_multiset().add(old(other)@.to_multiset()),
            final(other)@ == Seq::<T>::empty(),
            old(other)@.len() == 0 ==> final(self)@ == old(self)@,
            old(self)@.len() == 0 ==> final(self)@ == old(other)@,
    {
        proof {
            broadcast use vstd::seq_lib::lemma_multiset_commutative;
            broadcast use vstd::multiset::group_multiset_properties;
        }
        if self.len() < other.len() {
            core::mem::swap(self, other);
        }
        let start = self.data.len();
        let ghost s = self@;
        let ghost o = other@;
        self.data.append(&mut other.data);
        proof {
            assert(self@ == s + o);
            if o.len() == 0 {
                assert(self@ =~= s);
            }
            if obeys_cmp::<T>() {
                assert forall|i: int| 0 < i < start && i < self@.len() implies #[trigger] le(
                    self@[i],
                    self@[parent_of(i, A::D as int)],
                ) by {
                    A::lemma_arity_positive();
                    lemma_parent_before(i, A::D as int);
                    assert(le(s[i], s[parent_of(i, A::D as int)]));
                }
            }
            assert(old(self)@.to_multiset().add(old(other)@.to_multiset()) =~= s.to_multiset().add(
                o.to_multiset(),
            ));
        }
        self.rebuild_tail(start);
    }

    /// Keeps only the elements for which `f` returns `true`, in one pass, then
    /// repairs the heap from the first slot that lost its element on.
    pub fn retain<F: Fn(&T) -> bool>(&mut self, f: F)
        requires
            old(self).wf(),
            forall|x: &T| #[trigger] call_requires(f, (x,)),
        ensures
            final(self).wf(),
            exists|keep: Seq<bool>|
                #![trigger kept(old(self)@, keep)]
                {
                    &&& keep.len() == old(self)@.len()
                    &&& forall|i: int|
                        0 <= i < keep.len() ==> call_ensures(f, (&old(self)@[i],), #[trigger] keep[i])
                    &&& final(self)@.to_multiset() == kept(old(self)@, keep).to_multiset()
                    &&& (forall|i: int| 0 <= i < keep.len() ==> keep[i]) ==> final(self)@ == old(
                        self,
                    )@
                },
    {
        let ghost s0 = self@;
        let ghost d = A::D as int;
        let len = self.len();
        // Kept elements are gathered at the front, in order, by swaps within
        // the sequence itself, so every element stays in the heap while `f`
        // runs; the others are dropped at the end.
        let mut kept_len: usize = 0;
        let mut first_removed = len;
        let mut i: usize = 0;
        let ghost mut keep: Seq<bool> = Seq::empty();
        while i < len
            invariant
                kept_len <= i <= len == s0.len() == self.data@.len(),
                keep.len() == i,
                forall|j: int| 0 <= j < i ==> call_ensures(f, (&s0[j],), #[trigger] keep[j]),
                forall|x: &T| #[trigger] call_requires(f, (x,)),
                self.data@.subrange(0, kept_len as int) == kept(s0.subrange(0, i as int), keep),
                forall|j: int| i <= j < len ==> #[trigger] self.data@[j] == s0[j],
                self.data@.to_multiset() == s0.to_multiset(),
                first_removed <= len,
                first_removed == len ==> kept_len == i && self.data@ == s0,
                first_removed < len ==> !keep[first_removed as int],
                first_removed < len ==> first_removed < i && first_removed <= kept_len,
                first_removed < len ==> forall|j: int|
                    0 <= j < first_removed ==> #[trigger] self.data@[j] == s0[j],
            decreases len - i,
        {
            let ghost prefix = s0.subrange(0, i as int);
            let ghost prev_keep = keep;
            let ghost before = self.data@;
            let k = f(&self.data[i]);
            proof {
                keep = keep.push(k);
                let next = s0.subrange(0, i + 1);
                assert(next.drop_last() =~= prefix);
                assert(keep.subrange(0, i as int) =~= prev_keep);
                assert(next.last() == s0[i as int]);
            }
            if k {
                swap_slots(&mut self.data, kept_len, i);
                proof {
                    lemma_swap_multiset(before, kept_len as int, i as int);
                    assert(self.data@.subrange(0, kept_len + 1) =~= before.subrange(
                        0,
                        kept_len as int,
                    ).push(s0[i as int]));
                    if first_removed == len {
                        assert(self.data@ =~= s0);
                    }
                }
                kept_len += 1;
            } else if i < first_removed {
                first_removed = i;
            }
            i += 1;
        }
        proof {
            assert(s0.subrange(0, len as int) =~= s0);
        }
        self.data.truncate(kept_len);
        proof {
            if first_removed == len {
                assert(self.data@ =~= s0);
            }
            if obeys_cmp::<T>() {
                A::lemma_arity_positive();
                assert forall|j: int| 0 < j < first_removed && j < self@.len() implies #[trigger] le(
                    self@[j],
                    self@[parent_of(j, d)],
                ) by {
                    lemma_parent_before(j, d);
                    assert(le(s0[j], s0[parent_of(j, d)]));
                }
            }
        }
        self.rebuild_tail(first_removed);
    }

    /// Adds every element of `items`, in order, as `push` would one by one.
    pub fn extend(&mut self, items: Vec<T>)
        requires
            old(self).wf(),
            old(self)@.len() + items@.len() <= usize::MAX,
            (old(self)@.len() + items@.len()) * vstd::layout::size_of::<T>() <= isize::MAX,
        ensures
            final(self).wf(),
            final(self)@.len() == old(self)@.len() + items@.len(),
            final(self)@.to_multiset() == old(self)@.to_multiset().add(items@.to_multiset()),
    {
        self.extend_desugared(items);
    }

    fn extend_desugared(&mut self, items: Vec<T>)
        requires
            old(self).wf(),
            old(self)@.len() + items@.len() <= usize::MAX,
            (old(self)@.len() + items@.len()) * vstd::layout::size_of::<T>() <= isize::MAX,
        ensures
            final(self).wf(),
            final(self)@.len() == old(self)@.len() + items@.len(),
            final(self)@.to_multiset() == old(self)@.to_multiset().add(items@.to_multiset()),
    {
        proof {
            broadcast use vstd::seq_lib::group_to_multiset_ensures;
            broadcast use vstd::multiset::group_multiset_axioms;
        }
        self.reserve(items.len());
        let ghost added = items@;
        let mut rest = IntoIter::new(items);
        while rest.len() > 0
            invariant
                self.wf(),
                self@.len() + rest.remaining().len() == old(self)@.len() + added.len(),
                self@.to_multiset().add(rest.remaining().to_multiset()) == old(
                    self,
                )@.to_multiset().add(added.to_multiset()),
            decreases rest.remaining().len(),
        {
            let ghost before = rest.remaining();
            let item = rest.next().unwrap();
            proof {
                assert(before.remove(0) =~= before.drop_first());
                vstd::seq_lib::to_multiset_remove(before, 0);
                assert(item == before[0]);
                assert(before.contains(item));
                vstd::seq_lib::to_multiset_contains(before, item);
                assert(before.to_multiset().count(item) > 0);
            }
            self.push(item);
            proof {
                assert(self@.to_multiset().add(rest.remaining().to_multiset()) =~= old(
                    self,
                )@.to_multiset().add(added.to_multiset()));
            }
        }
        proof {
            assert(rest.remaining().to_multiset() =~= vstd::multiset::Multiset::empty());
            assert(self@.to_multiset() =~= self@.to_multiset().add(rest.remaining().to_multiset()));
        }
    }

    /// The elements, owned, handed out greatest first.
    pub fn into_iter_sorted(self) -> (r: IntoIterSorted<T, A>)
        requires
            self.wf(),
        ensures
            r.heap() == self,
    {
        IntoIterSorted::new(self)
    }

    /// Takes every element out, greatest first; the heap is left empty.
    pub fn drain_sorted(&mut self) -> (r: DrainSorted<'_, T, A>)
        requires
            old(self).wf(),
        ensures
            r.heap()@ == old(self)@,
            final(self)@ == Seq::<T>::empty(),
            final(self).wf(),
    {
        let data = self.take_data();
        DrainSorted::new(DaryHeap { data, marker: core::marker::PhantomData })
    }

    /// Walks every occupied slot and checks it against each of its children;
    /// `true` exactly when every slot is at least each of its children.
    pub fn assert_valid_state(&self) -> (r: bool)
        ensures
            obeys_cmp::<T>() ==> (r == children_ordered(self@, A::D as int)),
            obeys_cmp::<T>() && self.wf() ==> r,
    {
        proof {
            A::lemma_arity_positive();
            lemma_heap_iff_children_ordered(self@, A::D as int);
        }
        let ghost s = self@;
        let ghost d = A::D as int;
        let len = self.data.len();
        let mut i: usize = 0;
        while i < len
            invariant
                d == A::D > 0,
                len == s.len(),
                s == self@,
                i <= len,
                obeys_cmp::<T>() ==> forall|a: int, c: int|
                    0 <= a < i && d * a + 1 <= c <= d * a + d && c < len ==> #[trigger] le(
                        s[c],
                        s[a],
                    ),
            decreases len - i,
        {
            let first = Self::first_child(i);
            if first >= len {
                proof {
                    if obeys_cmp::<T>() {
                        assert forall|a: int, c: int|
                            0 <= a < len && d * a + 1 <= c <= d * a + d && c < len implies #[trigger] le(
                            s[c],
                            s[a],
                        ) by {
                            if a >= i {
                                assert(d * a + 1 >= d * i + 1) by (nonlinear_arith)
                                    requires
                                        a >= i,
                                        d > 0,
                                ;
                            }
                        }
                    }
                }
                return true;
            }
            let last = first.saturating_add(A::D - 1);
            let mut j = first;
            while j < len && j <= last
                invariant
                    d == A::D > 0,
                    len == s.len(),
                    s == self@,
                    i < len,
                    first == d * i + 1,
                    last == if d * i + d <= usize::MAX {
                        d * i + d
                    } else {
                        usize::MAX as int
                    },
                    first <= j,
                    j <= len,
                    obeys_cmp::<T>() ==> forall|a: int, c: int|
                        0 <= a < i && d * a + 1 <= c <= d * a + d && c < len ==> #[trigger] le(
                            s[c],
                            s[a],
                        ),
                    obeys_cmp::<T>() ==> forall|c: int|
                        first <= c < j ==> #[trigger] le(s[c], s[i as int]),
                decreases len - j,
            {
                if !(self.data[i] >= self.data[j]) {
                    proof {
                        if obeys_cmp::<T>() {
                            reveal_cmp_laws::<T>();
                            lemma_lt_not_le(s[i as int], s[j as int]);
                            assert(d * i + 1 <= j <= d * i + d);
                            if children_ordered(s, d) {
                                assert(le(s[j as int], s[i as int]));
                            }
                            lemma_heap_iff_children_ordered(s, d);
                        }
                    }
                    return false;
                }
                proof {
                    if obeys_cmp::<T>() {
                        reveal_cmp_laws::<T>();
                        lemma_lt_not_le(s[i as int], s[j as int]);
                    }
                }
                j += 1;
            }
            proof {
                if obeys_cmp::<T>() {
                    assert forall|a: int, c: int|
                        0 <= a < i + 1 && d * a + 1 <= c <= d * a + d && c < len implies #[trigger] le(
                        s[c],
                        s[a],
                    ) by {
                        if a == i {
                            assert(c < j);
                        }
                    }
                }
            }
            i += 1;
        }
        true
    }
}

impl<T: Ord, A: Arity> From<Vec<T>> for DaryHeap<T, A> {
    /// Builds a heap out of the elements of `vec`, in linear time.
    fn from(vec: Vec<T>) -> (heap: Self)
        ensures
            heap@.len() == vec@.len(),
            heap@.to_multiset() == vec@.to_multiset(),
            heap.wf(),
    {
        let mut heap = DaryHeap { data: vec, marker: core::marker::PhantomData };
        heap.rebuild();
        heap
    }
}

impl<T: Ord, A: Arity> vstd::std_specs::convert::FromSpecImpl<Vec<T>> for DaryHeap<T, A> {
    /// The heap order depends on more than the multiset of elements, so no
    /// single spec value describes the result.
    open spec fn obeys_from_spec() -> bool {
        false
    }

    open spec fn from_spec(v: Vec<T>) -> Self {
        arbitrary()
    }
}

impl<T, A: Arity> From<DaryHeap<T, A>> for Vec<T> {
    /// The backing sequence, in heap order, without copying.
    fn from(heap: DaryHeap<T, A>) -> (r: Vec<T>)
        ensures
            r@ == heap@,
    {
        heap.data
    }
}

impl<T, A: Arity> vstd::std_specs::convert::FromSpecImpl<DaryHeap<T, A>> for Vec<T> {
    open spec fn obeys_from_spec() -> bool {
        true
    }

    closed spec fn from_spec(heap: DaryHeap<T, A>) -> Vec<T> {
        heap.data
    }
}

impl<T: Ord, A: Arity> Default for DaryHeap<T, A> {
    /// An empty heap.
    fn default() -> (heap: Self)
        ensures
            heap@ == Seq::<T>::empty(),
            heap.wf(),
    {
        DaryHeap::new()
    }
}

impl<T: Clone, A: Arity> Clone for DaryHeap<T, A> {
    /// A heap holding a clone of each element, in the same slots.
    fn clone(&self) -> (r: Self)
        ensures
            r@.len() == self@.len(),
            forall|i: int| 0 <= i < self@.len() ==> vstd::pervasive::cloned::<T>(self@[i], r@[i]),
    {
        DaryHeap { data: self.data.clone(), marker: core::marker::PhantomData }
    }
}

} // verus!
