use vstd::prelude::*;
use vstd::laws_cmp::obeys_cmp;
use crate::arity::Arity;
use crate::heap::DaryHeap;
use crate::model::{
    children_ordered, is_heap, lemma_heap_iff_children_ordered, lemma_root_is_max,
    sorted_ascending,
};
use crate::order::{le, lemma_le_transitive};

verus! {

/// An order in which two values that are each at most the other are equal,
/// as for the integers.
pub open spec fn antisymmetric<T: PartialOrd>() -> bool {
    forall|x: T, y: T| le(x, y) && le(y, x) ==> x == y
}

/// Two ascending sequences holding the same elements are equal, when the
/// order is antisymmetric.
pub proof fn lemma_sorted_unique<T: Ord>(a: Seq<T>, b: Seq<T>)
    requires
        obeys_cmp::<T>(),
        antisymmetric::<T>(),
        sorted_ascending(a),
        sorted_ascending(b),
        a.to_multiset() == b.to_multiset(),
    ensures
        a == b,
    decreases a.len(),
{
    broadcast use vstd::seq_lib::group_to_multiset_ensures;

    vstd::seq_lib::to_multiset_len(a);
    vstd::seq_lib::to_multiset_len(b);
    if a.len() == 0 {
        assert(b.len() == 0);
        assert(a =~= b);
    } else {
        assert(b.len() == a.len());
        let x = a.last();
        let y = b.last();
        assert(a.contains(x));
        assert(a.to_multiset().count(x) > 0);
        assert(b.contains(x));
        let j = choose|j: int| 0 <= j < b.len() && b[j] == x;
        if j < b.len() - 1 {
            assert(le(b[j], b[b.len() - 1]));
        } else {
            crate::order::lemma_le_reflexive(x);
        }
        assert(b.to_multiset().count(y) > 0);
        assert(a.contains(y));
        let i = choose|i: int| 0 <= i < a.len() && a[i] == y;
        if i < a.len() - 1 {
            assert(le(a[i], a[a.len() - 1]));
        } else {
            crate::order::lemma_le_reflexive(y);
        }
        assert(x == y);
        assert(a.drop_last().to_multiset() == b.drop_last().to_multiset()) by {
            assert(a.remove(a.len() - 1) =~= a.drop_last());
            assert(b.remove(b.len() - 1) =~= b.drop_last());
        }
        lemma_sorted_unique(a.drop_last(), b.drop_last());
        assert(a =~= a.drop_last().push(x));
        assert(b =~= b.drop_last().push(y));
    }
}

/// A heap holds the heap property in the form of each slot against its
/// children: every occupied slot `i` is at least each occupied child slot in
/// `d * i + 1 ..= d * i + d`.
pub proof fn law_heap_children_ordered<T: Ord, A: Arity>(heap: DaryHeap<T, A>)
    requires
        obeys_cmp::<T>(),
        heap.wf(),
    ensures
        children_ordered(heap@, A::D as int),
{
    A::lemma_arity_positive();
    lemma_heap_iff_children_ordered(heap@, A::D as int);
}

/// Sorting the heap built out of `v` gives the elements of `v` in ascending
/// order, and for an antisymmetric order that is the one ascending
/// arrangement of them.
///
/// `heap` is what `DaryHeap::from` returns for `v`, and `sorted` what
/// `into_sorted_vec` returns for `heap`.
pub proof fn law_heap_sort<T: Ord, A: Arity>(v: Seq<T>, heap: DaryHeap<T, A>, sorted: Seq<T>)
    requires
        obeys_cmp::<T>(),
        heap@.to_multiset() == v.to_multiset(),
        heap.wf(),
        sorted.to_multiset() == heap@.to_multiset(),
        sorted_ascending(sorted),
    ensures
        sorted.to_multiset() == v.to_multiset(),
        sorted_ascending(sorted),
        antisymmetric::<T>() ==> forall|t: Seq<T>|
            sorted_ascending(t) && #[trigger] t.to_multiset() == v.to_multiset() ==> t == sorted,
{
    if antisymmetric::<T>() {
        assert forall|t: Seq<T>|
            sorted_ascending(t) && #[trigger] t.to_multiset() == v.to_multiset() implies t
            == sorted by {
            lemma_sorted_unique(t, sorted);
        }
    }
}

/// Popping twice from a heap gives a second element at most the first, so
/// popping until the heap is empty gives its elements in descending order.
///
/// `first` and `rest` are what `pop` returns and leaves for `heap`; `second`
/// is what it returns for `rest`.
pub proof fn law_pops_descend<T: Ord, A: Arity>(
    heap: DaryHeap<T, A>,
    first: T,
    rest: DaryHeap<T, A>,
    second: T,
)
    requires
        obeys_cmp::<T>(),
        heap.wf(),
        heap@.len() > 0,
        first == heap@[0],
        rest@.to_multiset() == heap@.to_multiset().remove(first),
        rest@.len() > 0,
        second == rest@[0],
    ensures
        le(second, first),
{
    broadcast use vstd::seq_lib::group_to_multiset_ensures;
    broadcast use vstd::multiset::group_multiset_axioms;

    A::lemma_arity_positive();
    assert(rest@.contains(second));
    assert(rest@.to_multiset().count(second) > 0);
    assert(heap@.to_multiset().count(second) > 0);
    assert(heap@.contains(second));
    let i = choose|i: int| 0 <= i < heap@.len() && heap@[i] == second;
    lemma_root_is_max(heap@, A::D as int, heap@.len() as int, i);
}

/// Taking the sequence back out of a heap built from `v` gives a permutation
/// of `v`.
///
/// `heap` is what `DaryHeap::from` returns for `v`, and `back` what
/// `into_vec` returns for `heap`.
pub proof fn law_round_trip<T: Ord, A: Arity>(v: Seq<T>, heap: DaryHeap<T, A>, back: Seq<T>)
    requires
        heap@.len() == v.len(),
        heap@.to_multiset() == v.to_multiset(),
        back == heap@,
    ensures
        back.len() == v.len(),
        back.to_multiset() == v.to_multiset(),
{
}

/// The successive results of popping: `heaps[k + 1]` and `out[k]` are what
/// the `k`-th call of `pop` on `heaps[k]` leaves and returns.
pub open spec fn popped_in_turn<T: Ord, A: Arity>(heaps: Seq<DaryHeap<T, A>>, out: Seq<T>) -> bool {
    &&& heaps.len() == out.len() + 1
    &&& forall|k: int| 0 <= k < heaps.len() ==> #[trigger] heaps[k].wf()
    &&& forall|k: int|
        #![trigger out[k]]
        0 <= k < out.len() ==> heaps[k]@.len() > 0 && out[k] == heaps[k]@[0] && heaps[k
            + 1]@.to_multiset() == heaps[k]@.to_multiset().remove(out[k])
}

/// After `k` pops, the elements popped and those left make up the first heap.
proof fn lemma_popped_accounted<T: Ord, A: Arity>(
    heaps: Seq<DaryHeap<T, A>>,
    out: Seq<T>,
    k: int,
)
    requires
        popped_in_turn(heaps, out),
        0 <= k <= out.len(),
    ensures
        heaps[0]@.to_multiset() == out.subrange(0, k).to_multiset().add(heaps[k]@.to_multiset()),
    decreases k,
{
    broadcast use vstd::seq_lib::group_to_multiset_ensures;
    broadcast use vstd::multiset::group_multiset_axioms;

    if k == 0 {
        assert(out.subrange(0, 0).to_multiset() =~= vstd::multiset::Multiset::empty());
        assert(heaps[0]@.to_multiset() =~= out.subrange(0, 0).to_multiset().add(
            heaps[0]@.to_multiset(),
        ));
    } else {
        lemma_popped_accounted(heaps, out, k - 1);
        let prev = heaps[k - 1]@;
        let x = out[k - 1];
        assert(heaps[k]@.to_multiset() == prev.to_multiset().remove(x));
        assert(prev.contains(x));
        assert(prev.to_multiset().count(x) > 0);
        assert(out.subrange(0, k) =~= out.subrange(0, k - 1).push(x));
        assert(heaps[0]@.to_multiset() =~= out.subrange(0, k).to_multiset().add(
            heaps[k]@.to_multiset(),
        ));
    }
}

/// What a later heap holds, an earlier one held.
proof fn lemma_popped_shrinks<T: Ord, A: Arity>(
    heaps: Seq<DaryHeap<T, A>>,
    out: Seq<T>,
    i: int,
    j: int,
    x: T,
)
    requires
        popped_in_turn(heaps, out),
        0 <= i <= j < heaps.len(),
    ensures
        heaps[j]@.to_multiset().count(x) <= heaps[i]@.to_multiset().count(x),
    decreases j - i,
{
    broadcast use vstd::multiset::group_multiset_axioms;

    if i < j {
        lemma_popped_shrinks(heaps, out, i, j - 1, x);
        assert(heaps[j]@.to_multiset() == heaps[j - 1]@.to_multiset().remove(out[j - 1]));
    }
}

/// Popping a heap until it is empty gives its elements in descending order:
/// the sequence popped holds exactly the elements of the first heap, each one
/// at most every one popped before it, and for an antisymmetric order it is
/// the one ascending arrangement of them, reversed. One more `pop` then
/// returns `None`, as the last heap is empty.
pub proof fn law_pops_sorted<T: Ord, A: Arity>(heaps: Seq<DaryHeap<T, A>>, out: Seq<T>)
    requires
        obeys_cmp::<T>(),
        popped_in_turn(heaps, out),
        heaps.last()@.len() == 0,
    ensures
        out.to_multiset() == heaps[0]@.to_multiset(),
        forall|i: int, j: int| 0 <= i < j < out.len() ==> #[trigger] le(out[j], out[i]),
        antisymmetric::<T>() ==> forall|t: Seq<T>|
            sorted_ascending(t) && #[trigger] t.to_multiset() == heaps[0]@.to_multiset() ==> out
                == t.reverse(),
{
    broadcast use vstd::seq_lib::group_to_multiset_ensures;
    broadcast use vstd::multiset::group_multiset_axioms;

    A::lemma_arity_positive();
    let n = out.len() as int;
    lemma_popped_accounted(heaps, out, n);
    assert(heaps[n]@.to_multiset() =~= vstd::multiset::Multiset::empty());
    assert(out.subrange(0, n) =~= out);
    assert(out.to_multiset() =~= heaps[0]@.to_multiset());
    assert forall|i: int, j: int| 0 <= i < j < out.len() implies #[trigger] le(out[j], out[i]) by {
        let x = out[j];
        assert(heaps[j]@.len() > 0 && x == heaps[j]@[0]);
        assert(heaps[j]@.contains(x));
        assert(heaps[j]@.to_multiset().count(x) > 0);
        lemma_popped_shrinks(heaps, out, i, j, x);
        assert(heaps[i]@.to_multiset().count(x) > 0);
        assert(heaps[i]@.contains(x));
        let h = heaps[i]@;
        let idx = choose|idx: int| 0 <= idx < h.len() && h[idx] == x;
        assert(heaps[i].wf());
        lemma_root_is_max(h, A::D as int, h.len() as int, idx);
    }
    if antisymmetric::<T>() {
        let r = out.reverse();
        out.lemma_reverse_to_multiset();
        assert forall|a: int, b: int| 0 <= a < b < r.len() implies #[trigger] le(r[a], r[b]) by {
            assert(le(out[n - 1 - a], out[n - 1 - b]));
        }
        assert forall|t: Seq<T>|
            sorted_ascending(t) && #[trigger] t.to_multiset() == heaps[0]@.to_multiset() implies out
            == t.reverse() by {
            lemma_sorted_unique(r, t);
            assert(out =~= r.reverse());
        }
    }
}

} // verus!
