use vstd::prelude::*;
use crate::arity::Arity;
use crate::heap::DaryHeap;

verus! {

/// Exclusive access to the greatest element of a non-empty `DaryHeap`.
pub struct PeekMut<'a, T: Ord, A: Arity> {
    heap: &'a mut DaryHeap<T, A>,
}

impl<'a, T: Ord, A: Arity> PeekMut<'a, T, A> {
    /// The borrow of the heap that this access holds.
    pub closed spec fn borrow(&self) -> &'a mut DaryHeap<T, A> {
        self.heap
    }

    pub(crate) fn new(heap: &'a mut DaryHeap<T, A>) -> (r: Self)
        ensures
            *r.borrow() == *old(heap),
            *final(r.borrow()) == *final(heap),
    {
        PeekMut { heap }
    }

    /// The heap is well formed and not empty.
    pub open spec fn wf(&self) -> bool {
        self.borrow().wf() && self.borrow()@.len() > 0
    }

    /// The greatest element.
    pub fn get(&self) -> (r: &T)
        requires
            self.wf(),
        ensures
            *r == self.borrow()@[0],
    {
        self.heap.peek().unwrap()
    }

    /// Replaces the greatest element by `value`, which then moves down to its
    /// place in the heap.
    pub fn set(this: Self, value: T)
        requires
            this.wf(),
        ensures
            final(this.borrow()).wf(),
            final(this.borrow())@.len() == this.borrow()@.len(),
            final(this.borrow())@.to_multiset() == this.borrow()@.to_multiset().insert(
                value,
            ).remove(this.borrow()@[0]),
    {
        let PeekMut { heap } = this;
        heap.replace_top(value);
    }

    /// Ends the access without changing the heap.
    pub fn release(this: Self)
        ensures
            *final(this.borrow()) == *this.borrow(),
    {
        let PeekMut { heap: _ } = this;
    }

    /// Removes the greatest element from the heap and returns it.
    pub fn pop(this: Self) -> (r: T)
        requires
            this.wf(),
        ensures
            r == this.borrow()@[0],
            final(this.borrow()).wf(),
            final(this.borrow())@.len() == this.borrow()@.len() - 1,
            final(this.borrow())@.to_multiset() == this.borrow()@.to_multiset().remove(r),
    {
        let PeekMut { heap } = this;
        heap.pop().unwrap()
    }
}

} // verus!
