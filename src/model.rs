use vstd::prelude::*;
use vstd::laws_cmp::obeys_cmp;
use crate::order::{le, lemma_le_reflexive, lemma_le_transitive};

verus! {

/// Index of the parent of slot `i` in a heap of arity `d`.
pub open spec fn parent_of(i: int, d: int) -> int {
    (i - 1) / d
}

/// Among the first `n` slots, every slot below the root holds a value at most
/// the value of its parent.
pub open spec fn ordered_prefix<T: PartialOrd>(s: Seq<T>, d: int, n: int) -> bool {
    forall|i: int| 0 < i < n && i < s.len() ==> #[trigger] le(s[i], s[parent_of(i, d)])
}

/// `s` is a max-heap of arity `d`.
pub open spec fn is_heap<T: PartialOrd>(s: Seq<T>, d: int) -> bool {
    ordered_prefix(s, d, s.len() as int)
}

/// Every occupied slot `i` holds a value at least that of each occupied child
/// slot in `d * i + 1 ..= d * i + d`.
pub open spec fn children_ordered<T: PartialOrd>(s: Seq<T>, d: int) -> bool {
    forall|i: int, c: int|
        0 <= i < s.len() && d * i + 1 <= c <= d * i + d && c < s.len() ==> #[trigger] le(
            s[c],
            s[i],
        )
}

/// `s` is in ascending order.
pub open spec fn sorted_ascending<T: PartialOrd>(s: Seq<T>) -> bool {
    forall|i: int, j: int| 0 <= i < j < s.len() ==> #[trigger] le(s[i], s[j])
}

/// The parent of a slot comes before it.
pub proof fn lemma_parent_before(i: int, d: int)
    requires
        d > 0,
        i > 0,
    ensures
        0 <= parent_of(i, d) < i,
{
    assert(0 <= (i - 1) / d <= i - 1) by (nonlinear_arith)
        requires
            d > 0,
            i > 0,
    ;
}

/// Slot `k` lies in the subtree rooted at slot `start`: following parents up
/// from `k` reaches `start`.
pub open spec fn in_subtree(k: int, start: int, d: int) -> bool
    decreases k,
    via lemma_in_subtree_decreases
{
    if k <= start || d <= 0 || start < 0 {
        k == start
    } else {
        in_subtree(parent_of(k, d), start, d)
    }
}

#[via_fn]
proof fn lemma_in_subtree_decreases(k: int, start: int, d: int) {
    if !(k <= start || d <= 0 || start < 0) {
        lemma_parent_before(k, d);
    }
}

/// Every slot lies in the subtree of the root.
pub proof fn lemma_in_subtree_of_root(k: int, d: int)
    requires
        k >= 0,
        d > 0,
    ensures
        in_subtree(k, 0, d),
    decreases k,
{
    if k > 0 {
        lemma_parent_before(k, d);
        lemma_in_subtree_of_root(parent_of(k, d), d);
    }
}

/// A slot in the subtree of `start` comes no earlier than `start`, and so does
/// its parent unless it is `start` itself.
pub proof fn lemma_in_subtree_after(k: int, start: int, d: int)
    requires
        in_subtree(k, start, d),
        d > 0,
        start >= 0,
    ensures
        k >= start,
        k > start ==> parent_of(k, d) >= start && in_subtree(parent_of(k, d), start, d),
    decreases k,
{
    if k > start {
        lemma_parent_before(k, d);
        lemma_in_subtree_after(parent_of(k, d), start, d);
    }
}

/// The children of a slot in the subtree of `start` are in it too.
pub proof fn lemma_child_in_subtree(k: int, c: int, start: int, d: int)
    requires
        in_subtree(k, start, d),
        d > 0,
        start >= 0,
        c > 0,
        parent_of(c, d) == k,
    ensures
        in_subtree(c, start, d),
{
    lemma_in_subtree_after(k, start, d);
    lemma_parent_before(c, d);
}

/// `c` is a child of `i` exactly when `i` is the parent of `c`.
pub proof fn lemma_child_parent(i: int, c: int, d: int)
    requires
        d > 0,
        i >= 0,
        c > 0,
    ensures
        (d * i + 1 <= c <= d * i + d) <==> parent_of(c, d) == i,
{
    assert((d * i + 1 <= c <= d * i + d) <==> (c - 1) / d == i) by (nonlinear_arith)
        requires
            d > 0,
            i >= 0,
            c > 0,
    {
        if d * i + 1 <= c <= d * i + d {
            assert(d * i <= c - 1 < d * (i + 1));
            vstd::arithmetic::div_mod::lemma_fundamental_div_mod(c - 1, d);
        }
    }
}

/// The two ways of writing down the heap property agree.
pub proof fn lemma_heap_iff_children_ordered<T: PartialOrd>(s: Seq<T>, d: int)
    requires
        d > 0,
    ensures
        is_heap(s, d) <==> children_ordered(s, d),
{
    if is_heap(s, d) {
        assert forall|i: int, c: int|
            0 <= i < s.len() && d * i + 1 <= c <= d * i + d && c < s.len() implies #[trigger] le(
            s[c],
            s[i],
        ) by {
            lemma_child_parent(i, c, d);
            assert(le(s[c], s[parent_of(c, d)]));
        }
    }
    if children_ordered(s, d) {
        assert forall|c: int| 0 < c < s.len() && c < s.len() implies #[trigger] le(
            s[c],
            s[parent_of(c, d)],
        ) by {
            let i = parent_of(c, d);
            lemma_parent_before(c, d);
            lemma_child_parent(i, c, d);
            assert(le(s[c], s[i]));
        }
    }
}

/// A slot whose index is at least `end - d + 1` has no child below `end`.
pub proof fn lemma_no_child_below(c: int, d: int, end: int)
    requires
        d > 0,
        c >= 1,
        c + d > end,
    ensures
        forall|i: int| 0 < i && parent_of(i, d) == c ==> i >= end,
{
    assert forall|i: int| 0 < i && parent_of(i, d) == c implies i >= end by {
        lemma_child_parent(c, i, d);
        assert(d * c + 1 >= end) by (nonlinear_arith)
            requires
                d > 0,
                c >= 1,
                c + d > end,
        {
            assert((d - 1) * (c - 1) >= 0);
        }
    }
}

/// Exchanging two slots below `end` keeps the multiset of the first `end`
/// elements.
pub proof fn lemma_swap_prefix_multiset<T>(s: Seq<T>, i: int, j: int, end: int)
    requires
        0 <= i < end,
        0 <= j < end,
        end <= s.len(),
    ensures
        s.update(i, s[j]).update(j, s[i]).subrange(0, end).to_multiset() == s.subrange(
            0,
            end,
        ).to_multiset(),
{
    let p = s.subrange(0, end);
    assert(s.update(i, s[j]).update(j, s[i]).subrange(0, end) =~= p.update(i, p[j]).update(j, p[i]));
    lemma_swap_multiset(p, i, j);
}

/// In a heap, or in a heap-ordered prefix of a sequence, the root is at least
/// every element of it.
pub proof fn lemma_root_is_max<T: Ord>(s: Seq<T>, d: int, n: int, i: int)
    requires
        obeys_cmp::<T>(),
        d > 0,
        n <= s.len(),
        ordered_prefix(s, d, n),
        0 <= i < n,
    ensures
        le(s[i], s[0]),
    decreases i,
{
    if i == 0 {
        lemma_le_reflexive(s[0]);
    } else {
        lemma_parent_before(i, d);
        lemma_root_is_max(s, d, n, parent_of(i, d));
        assert(le(s[i], s[parent_of(i, d)]));
        lemma_le_transitive(s[i], s[parent_of(i, d)], s[0]);
    }
}

/// Every element of `b` is at most `x` when every element of `a` is and the
/// two hold the same elements.
pub proof fn lemma_bound_by_multiset<T: PartialOrd>(a: Seq<T>, b: Seq<T>, x: T)
    requires
        a.to_multiset() == b.to_multiset(),
        forall|i: int| 0 <= i < a.len() ==> #[trigger] le(a[i], x),
    ensures
        forall|j: int| 0 <= j < b.len() ==> #[trigger] le(b[j], x),
{
    broadcast use vstd::seq_lib::group_to_multiset_ensures;

    assert forall|j: int| 0 <= j < b.len() implies #[trigger] le(b[j], x) by {
        assert(b.contains(b[j]));
        assert(b.to_multiset().count(b[j]) > 0);
        assert(a.to_multiset().count(b[j]) > 0);
        assert(a.contains(b[j]));
        let i = choose|i: int| 0 <= i < a.len() && a[i] == b[j];
        assert(le(a[i], x));
    }
}

/// The elements of `s` whose entry in `keep` is `true`, in order.
pub open spec fn kept<T>(s: Seq<T>, keep: Seq<bool>) -> Seq<T>
    decreases s.len(),
{
    if s.len() == 0 || keep.len() < s.len() {
        Seq::empty()
    } else {
        let prev = kept(s.drop_last(), keep.subrange(0, s.len() - 1));
        if keep[s.len() - 1] {
            prev.push(s.last())
        } else {
            prev
        }
    }
}

/// The base-two logarithm of `x`, rounded down (0 for 0 and 1).
pub open spec fn log2(x: nat) -> nat
    decreases x,
{
    if x < 2 {
        0
    } else {
        1 + log2(x / 2)
    }
}

/// The leading zeros of a positive 64-bit number count the bits above its
/// highest set bit.
pub proof fn lemma_leading_zeros_log2(x: u64)
    requires
        x > 0,
    ensures
        vstd::std_specs::bits::u64_leading_zeros(x) == 63 - log2(x as nat),
        log2(x as nat) <= 63,
    decreases x,
{
    reveal(vstd::std_specs::bits::u64_leading_zeros);
    vstd::std_specs::bits::axiom_u64_leading_zeros(x);
    if x >= 2 {
        lemma_leading_zeros_log2(x / 2);
    } else {
        assert(vstd::std_specs::bits::u64_leading_zeros(0) == 64);
    }
}

/// Exchanging two slots keeps the multiset of elements.
pub proof fn lemma_swap_multiset<T>(s: Seq<T>, i: int, j: int)
    requires
        0 <= i < s.len(),
        0 <= j < s.len(),
    ensures
        s.update(i, s[j]).update(j, s[i]).to_multiset() == s.to_multiset(),
{
    broadcast use vstd::seq_lib::group_to_multiset_ensures;
    broadcast use vstd::multiset::group_multiset_axioms;

    if i != j {
        let s1 = s.update(i, s[j]);
        assert(s1[j] == s[j]);
        assert(s1.update(j, s[i]).to_multiset() =~= s.to_multiset());
    } else {
        assert(s.update(i, s[j]).update(j, s[i]) =~= s);
    }
}

} // verus!
