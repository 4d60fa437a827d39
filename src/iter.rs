use vstd::prelude::*;
use vstd::laws_cmp::obeys_cmp;
use std::collections::VecDeque;
use crate::arity::Arity;
use crate::heap::DaryHeap;
use crate::order::le;

verus! {

/// Moves the elements of `v`, in order, into a double-ended queue.
fn into_deque<T>(v: Vec<T>) -> (r: VecDeque<T>)
    ensures
        r@ == v@,
{
    let ghost all = v@;
    let mut rest = v;
    let mut queue = VecDeque::new();
    while rest.len() > 0
        invariant
            rest@ + queue@ == all,
        decreases rest@.len(),
    {
        let x = rest.pop().unwrap();
        queue.push_front(x);
        proof {
            assert(rest@ + queue@ =~= all);
        }
    }
    proof {
        assert(queue@ =~= all);
    }
    queue
}

/// The elements of a heap, borrowed, in heap order (which is not sorted).
pub struct Iter<'a, T> {
    slice: &'a [T],
    front: usize,
    back: usize,
}

impl<'a, T> Iter<'a, T> {
    #[verifier::type_invariant]
    spec fn inv(&self) -> bool {
        self.front <= self.back <= self.slice@.len()
    }

    /// The elements not yet handed out.
    pub closed spec fn remaining(&self) -> Seq<T> {
        self.slice@.subrange(self.front as int, self.back as int)
    }

    pub(crate) fn new(slice: &'a [T]) -> (r: Self)
        ensures
            r.remaining() == slice@,
    {
        proof {
            assert(slice@.subrange(0, slice@.len() as int) =~= slice@);
        }
        Iter { slice, front: 0, back: slice.len() }
    }

    /// The next element from the front.
    pub fn next(&mut self) -> (r: Option<&'a T>)
        ensures
            old(self).remaining().len() == 0 ==> r is None && final(self).remaining() == old(self).remaining(),
            old(self).remaining().len() > 0 ==> r == Some(&old(self).remaining()[0])
                && final(self).remaining() == old(self).remaining().drop_first(),
    {
        proof {
            use_type_invariant(&*self);
        }
        if self.front == self.back {
            None
        } else {
            let slice: &'a [T] = self.slice;
            let item = &slice[self.front];
            self.front = self.front + 1;
            proof {
                assert(self.remaining() =~= old(self).remaining().drop_first());
            }
            Some(item)
        }
    }

    /// The next element from the back.
    pub fn next_back(&mut self) -> (r: Option<&'a T>)
        ensures
            old(self).remaining().len() == 0 ==> r is None && final(self).remaining() == old(self).remaining(),
            old(self).remaining().len() > 0 ==> r == Some(&old(self).remaining().last())
                && final(self).remaining() == old(self).remaining().drop_last(),
    {
        proof {
            use_type_invariant(&*self);
        }
        if self.front == self.back {
            None
        } else {
            let slice: &'a [T] = self.slice;
            self.back = self.back - 1;
            let item = &slice[self.back];
            proof {
                assert(self.remaining() =~= old(self).remaining().drop_last());
            }
            Some(item)
        }
    }

    /// The number of elements not yet handed out.
    pub fn len(&self) -> (r: usize)
        ensures
            r == self.remaining().len(),
    {
        proof {
            use_type_invariant(self);
        }
        self.back - self.front
    }
}

impl<'a, T> Clone for Iter<'a, T> {
    /// An iterator over the same remaining elements.
    fn clone(&self) -> (r: Self)
        ensures
            r.remaining() == self.remaining(),
    {
        proof {
            use_type_invariant(self);
        }
        Iter { slice: self.slice, front: self.front, back: self.back }
    }
}

/// The elements of a heap, owned, in heap order (which is not sorted).
pub struct IntoIter<T> {
    queue: VecDeque<T>,
}

impl<T> IntoIter<T> {
    /// The elements not yet handed out.
    pub closed spec fn remaining(&self) -> Seq<T> {
        self.queue@
    }

    pub(crate) fn new(v: Vec<T>) -> (r: Self)
        ensures
            r.remaining() == v@,
    {
        IntoIter { queue: into_deque(v) }
    }

    /// The next element from the front.
    pub fn next(&mut self) -> (r: Option<T>)
        ensures
            old(self).remaining().len() == 0 ==> r is None && final(self).remaining() == old(self).remaining(),
            old(self).remaining().len() > 0 ==> r == Some(old(self).remaining()[0])
                && final(self).remaining() == old(self).remaining().drop_first(),
    {
        let r = self.queue.pop_front();
        proof {
            assert(self.remaining() =~= old(self).remaining().drop_first() || r is None);
        }
        r
    }

    /// The next element from the back.
    pub fn next_back(&mut self) -> (r: Option<T>)
        ensures
            old(self).remaining().len() == 0 ==> r is None && final(self).remaining() == old(self).remaining(),
            old(self).remaining().len() > 0 ==> r == Some(old(self).remaining().last())
                && final(self).remaining() == old(self).remaining().drop_last(),
    {
        self.queue.pop_back()
    }

    /// The number of elements not yet handed out.
    pub fn len(&self) -> (r: usize)
        ensures
            r == self.remaining().len(),
    {
        self.queue.len()
    }
}

/// The elements taken out of a heap by `DaryHeap::drain`, in heap order
/// (which is not sorted).
pub struct Drain<'a, T> {
    inner: IntoIter<T>,
    marker: core::marker::PhantomData<&'a T>,
}

impl<'a, T> Drain<'a, T> {
    /// The elements not yet handed out.
    pub closed spec fn remaining(&self) -> Seq<T> {
        self.inner.remaining()
    }

    pub(crate) fn new(v: Vec<T>) -> (r: Self)
        ensures
            r.remaining() == v@,
    {
        Drain { inner: IntoIter::new(v), marker: core::marker::PhantomData }
    }

    /// The next element from the front.
    pub fn next(&mut self) -> (r: Option<T>)
        ensures
            old(self).remaining().len() == 0 ==> r is None && final(self).remaining() == old(self).remaining(),
            old(self).remaining().len() > 0 ==> r == Some(old(self).remaining()[0])
                && final(self).remaining() == old(self).remaining().drop_first(),
    {
        self.inner.next()
    }

    /// The next element from the back.
    pub fn next_back(&mut self) -> (r: Option<T>)
        ensures
            old(self).remaining().len() == 0 ==> r is None && final(self).remaining() == old(self).remaining(),
            old(self).remaining().len() > 0 ==> r == Some(old(self).remaining().last())
                && final(self).remaining() == old(self).remaining().drop_last(),
    {
        self.inner.next_back()
    }

    /// The number of elements not yet handed out.
    pub fn len(&self) -> (r: usize)
        ensures
            r == self.remaining().len(),
    {
        self.inner.len()
    }
}

/// The elements of a heap, owned, handed out greatest first.
pub struct IntoIterSorted<T: Ord, A: Arity> {
    inner: DaryHeap<T, A>,
}

impl<T: Ord, A: Arity> IntoIterSorted<T, A> {
    /// The heap of the elements not yet handed out.
    pub closed spec fn heap(&self) -> DaryHeap<T, A> {
        self.inner
    }

    pub(crate) fn new(inner: DaryHeap<T, A>) -> (r: Self)
        requires
            inner.wf(),
        ensures
            r.heap() == inner,
            r.heap().wf(),
    {
        IntoIterSorted { inner }
    }

    /// Takes the greatest remaining element out.
    pub fn next(&mut self) -> (r: Option<T>)
        requires
            old(self).heap().wf(),
        ensures
            final(self).heap().wf(),
            old(self).heap()@.len() == 0 ==> r is None && final(self).heap()@ == old(self).heap()@,
            old(self).heap()@.len() > 0 ==> r == Some(old(self).heap()@[0]) && final(self).heap()@.len() == old(self).heap()@.len() - 1 && final(self).heap()@.to_multiset()
                == old(self).heap()@.to_multiset().remove(old(self).heap()@[0]),
            obeys_cmp::<T>() && old(self).heap()@.len() > 0 ==> forall|i: int|
                0 <= i < old(self).heap()@.len() ==> #[trigger] le(
                    old(self).heap()@[i],
                    old(self).heap()@[0],
                ),
    {
        self.inner.pop()
    }

    /// The number of elements not yet handed out.
    pub fn len(&self) -> (r: usize)
        ensures
            r == self.heap()@.len(),
    {
        self.inner.len()
    }
}

/// The elements taken out of a heap by `DaryHeap::drain_sorted`, handed out
/// greatest first.
pub struct DrainSorted<'a, T: Ord, A: Arity> {
    inner: DaryHeap<T, A>,
    marker: core::marker::PhantomData<&'a T>,
}

impl<'a, T: Ord, A: Arity> DrainSorted<'a, T, A> {
    /// The heap of the elements not yet handed out.
    pub closed spec fn heap(&self) -> DaryHeap<T, A> {
        self.inner
    }

    pub(crate) fn new(inner: DaryHeap<T, A>) -> (r: Self)
        requires
            inner.wf(),
        ensures
            r.heap() == inner,
            r.heap().wf(),
    {
        DrainSorted { inner, marker: core::marker::PhantomData }
    }

    /// Takes the greatest remaining element out.
    pub fn next(&mut self) -> (r: Option<T>)
        requires
            old(self).heap().wf(),
        ensures
            final(self).heap().wf(),
            old(self).heap()@.len() == 0 ==> r is None && final(self).heap()@ == old(self).heap()@,
            old(self).heap()@.len() > 0 ==> r == Some(old(self).heap()@[0]) && final(self).heap()@.len() == old(self).heap()@.len() - 1 && final(self).heap()@.to_multiset()
                == old(self).heap()@.to_multiset().remove(old(self).heap()@[0]),
            obeys_cmp::<T>() && old(self).heap()@.len() > 0 ==> forall|i: int|
                0 <= i < old(self).heap()@.len() ==> #[trigger] le(
                    old(self).heap()@[i],
                    old(self).heap()@[0],
                ),
    {
        self.inner.pop()
    }

    /// The number of elements not yet handed out.
    pub fn len(&self) -> (r: usize)
        ensures
            r == self.heap()@.len(),
    {
        self.inner.len()
    }
}

} // verus!
