use vstd::prelude::*;

verus! {

/// Relies on `<[T]>::swap`: the elements at `a` and `b` trade places. It
/// panics only on an index out of bounds, which `requires` excludes.
#[verifier::external_body]
pub(crate) fn swap_slots<T>(v: &mut Vec<T>, a: usize, b: usize)
    requires
        a < old(v)@.len(),
        b < old(v)@.len(),
    ensures
        final(v)@ == old(v)@.update(a as int, old(v)@[b as int]).update(
            b as int,
            old(v)@[a as int],
        ),
{
    v.swap(a, b);
}

/// Relies on `Vec::capacity`: the number of elements the allocation can hold,
/// never fewer than the elements held. Beyond that it depends on the
/// allocator, so nothing more is promised.
#[verifier::external_body]
pub(crate) fn vec_capacity<T>(v: &Vec<T>) -> (r: usize)
    ensures
        r >= v@.len(),
{
    v.capacity()
}

/// Relies on `Vec::reserve_exact`: it changes the capacity only, never the
/// elements. It panics when the capacity it needs, `len + additional`,
/// overflows `usize` or exceeds `isize::MAX` bytes; `requires` excludes both.
#[verifier::external_body]
pub(crate) fn vec_reserve_exact<T>(v: &mut Vec<T>, additional: usize)
    requires
        old(v)@.len() + additional <= usize::MAX,
        (old(v)@.len() + additional) * vstd::layout::size_of::<T>() <= isize::MAX,
    ensures
        final(v)@ == old(v)@,
{
    v.reserve_exact(additional);
}

/// Relies on `Vec::shrink_to_fit`: it changes the capacity only, never the
/// elements.
#[verifier::external_body]
pub(crate) fn vec_shrink_to_fit<T>(v: &mut Vec<T>)
    ensures
        final(v)@ == old(v)@,
{
    v.shrink_to_fit();
}

/// Relies on `Vec::shrink_to`: it changes the capacity only, never the
/// elements.
#[verifier::external_body]
pub(crate) fn vec_shrink_to<T>(v: &mut Vec<T>, min_capacity: usize)
    ensures
        final(v)@ == old(v)@,
{
    v.shrink_to(min_capacity);
}

} // verus!
