use vstd::prelude::*;
use vstd::laws_cmp::obeys_cmp;
use crate::arity::Arity;
use crate::hole::Hole;
use crate::model::{
    in_subtree, is_heap, lemma_child_in_subtree, lemma_child_parent, lemma_in_subtree_after,
    lemma_in_subtree_of_root, lemma_leading_zeros_log2, lemma_no_child_below,
    lemma_parent_before, lemma_swap_multiset, lemma_swap_prefix_multiset, log2, ordered_prefix,
    parent_of,
};
use crate::order::{le, lemma_le_total, lemma_le_transitive, lemma_lt_not_le, reveal_cmp_laws};
use super::DaryHeap;

verus! {

/// The state of a sift-up toward `start` with the moving element at `k`:
/// among the first `n` slots, every slot whose parent is at `start` or later
/// is at most its parent, except `k`; and when `k` is below `start`, the
/// children of `k` are at most the parent of `k`.
pub(super) open spec fn up_from<T: PartialOrd>(s: Seq<T>, d: int, n: int, start: int, k: int) -> bool {
    &&& forall|i: int|
        0 < i < n && parent_of(i, d) >= start && i != k ==> #[trigger] le(s[i], s[parent_of(i, d)])
    &&& k > start ==> forall|i: int|
        0 < i < n && parent_of(i, d) == k ==> #[trigger] le(s[i], s[parent_of(k, d)])
}

/// Moving the element of a sift-up from `k` to its parent `p`, which it
/// exceeds, keeps the sift-up state.
pub(super) proof fn lemma_up_step<T: Ord>(s: Seq<T>, d: int, n: int, start: int, k: int, p: int)
    requires
        obeys_cmp::<T>(),
        d > 0,
        0 <= start <= p < k < n <= s.len(),
        p == parent_of(k, d),
        p > start ==> parent_of(p, d) >= start,
        up_from(s, d, n, start, k),
        le(s[p], s[k]),
    ensures
        up_from(s.update(k, s[p]).update(p, s[k]), d, n, start, p),
{
    let s1 = s.update(k, s[p]).update(p, s[k]);
    assert forall|i: int| 0 < i < n && parent_of(i, d) >= start && i != p implies #[trigger] le(
        s1[i],
        s1[parent_of(i, d)],
    ) by {
        lemma_parent_before(i, d);
        let q = parent_of(i, d);
        if i == k {
        } else if q == p {
            assert(le(s[i], s[parent_of(i, d)]));
            lemma_le_transitive(s[i], s[p], s[k]);
        } else if q == k {
            assert(le(s[i], s[parent_of(k, d)]));
        } else {
            assert(le(s[i], s[parent_of(i, d)]));
        }
    }
    if p > start {
        lemma_parent_before(p, d);
        assert forall|i: int| 0 < i < n && parent_of(i, d) == p implies #[trigger] le(
            s1[i],
            s1[parent_of(p, d)],
        ) by {
            assert(le(s[p], s[parent_of(p, d)]));
            if i != k {
                assert(le(s[i], s[parent_of(i, d)]));
                lemma_le_transitive(s[i], s[p], s[parent_of(p, d)]);
            }
        }
    }
}

/// Slots below `end` whose parent is at `p` or later are at most their parent.
pub(super) open spec fn ordered_from<T: PartialOrd>(s: Seq<T>, d: int, end: int, p: int) -> bool {
    forall|i: int|
        0 < i < end && i < s.len() && parent_of(i, d) >= p ==> #[trigger] le(
            s[i],
            s[parent_of(i, d)],
        )
}

/// The state of a sift-down from `pos` with the moving element at `k`: every
/// slot below `end` under `pos`'s level is ordered except at `k` and its
/// children, and the children of `k` are at most the parent of `k`.
pub(super) open spec fn down_ready<T: PartialOrd>(s: Seq<T>, d: int, end: int, pos: int, k: int) -> bool {
    &&& forall|i: int|
        0 < i < end && parent_of(i, d) >= pos && i != k && parent_of(i, d) != k ==> #[trigger] le(
            s[i],
            s[parent_of(i, d)],
        )
    &&& k > pos ==> forall|i: int|
        0 < i < end && parent_of(i, d) == k ==> #[trigger] le(s[i], s[parent_of(k, d)])
}

/// Index of the first child of slot `k`, capped at `usize::MAX`.
pub(super) open spec fn first_child_spec(k: int, d: int) -> int {
    if d * k + 1 <= usize::MAX {
        d * k + 1
    } else {
        usize::MAX as int
    }
}

/// Moving the hole of a sift-down from `k` to its greatest child `c` keeps the
/// sift-down state.
pub(super) proof fn lemma_down_step<T: Ord>(s: Seq<T>, d: int, end: int, pos: int, k: int, c: int)
    requires
        obeys_cmp::<T>(),
        d > 0,
        0 <= pos <= k < c < end <= s.len(),
        parent_of(c, d) == k,
        down_ready(s, d, end, pos, k),
        forall|i: int| 0 < i < end && parent_of(i, d) == k ==> #[trigger] le(s[i], s[c]),
    ensures
        down_ready(s.update(k, s[c]).update(c, s[k]), d, end, pos, c),
{
    let s1 = s.update(k, s[c]).update(c, s[k]);
    assert forall|i: int|
        0 < i < end && parent_of(i, d) >= pos && i != c && parent_of(i, d) != c implies #[trigger] le(
        s1[i],
        s1[parent_of(i, d)],
    ) by {
        lemma_parent_before(i, d);
        if i == k {
            assert(le(s[c], s[parent_of(k, d)]));
        } else if parent_of(i, d) == k {
            assert(le(s[i], s[c]));
        } else {
            assert(le(s[i], s[parent_of(i, d)]));
        }
    }
    assert forall|i: int| 0 < i < end && parent_of(i, d) == c implies #[trigger] le(
        s1[i],
        s1[parent_of(c, d)],
    ) by {
        lemma_parent_before(i, d);
        assert(le(s[i], s[parent_of(i, d)]));
    }
}

/// A sift-down whose moving element is at least its children is finished.
pub(super) proof fn lemma_down_done<T: Ord>(s: Seq<T>, d: int, end: int, pos: int, k: int)
    requires
        d > 0,
        0 <= pos <= k < end <= s.len(),
        down_ready(s, d, end, pos, k),
        k > pos ==> le(s[k], s[parent_of(k, d)]),
        forall|i: int| 0 < i < end && parent_of(i, d) == k ==> #[trigger] le(s[i], s[k]),
    ensures
        ordered_from(s, d, end, pos),
{
    assert forall|i: int|
        0 < i < end && i < s.len() && parent_of(i, d) >= pos implies #[trigger] le(
        s[i],
        s[parent_of(i, d)],
    ) by {
        lemma_parent_before(i, d);
        if i == k {
        } else if parent_of(i, d) == k {
            assert(le(s[i], s[k]));
        } else {
            assert(le(s[i], s[parent_of(i, d)]));
        }
    }
}

/// The first child of a slot comes after it.
pub(super) proof fn lemma_first_child_after(k: int, d: int)
    requires
        d > 0,
        0 <= k < usize::MAX,
    ensures
        first_child_spec(k, d) > k,
{
    assert(d * k >= k) by (nonlinear_arith)
        requires
            d > 0,
            k >= 0,
    ;
}

/// The base-two logarithm of `x`, rounded down, from the count of leading
/// zero bits.
fn log2_fast(x: usize) -> (r: usize)
    requires
        x > 0,
    ensures
        r == log2(x as nat),
        r < 64,
{
    proof {
        lemma_leading_zeros_log2(x as u64);
    }
    let zeros = (x as u64).leading_zeros();
    (63 - zeros) as usize
}

impl<T, A: Arity> DaryHeap<T, A> {
    /// Index of the first child of slot `k`; where that lies beyond the range
    /// of `usize`, `usize::MAX`, which is past every slot.
    pub(super) fn first_child(k: usize) -> (r: usize)
        ensures
            r == first_child_spec(k as int, A::D as int),
    {
        match A::D.checked_mul(k) {
            Some(m) => if m < usize::MAX {
                m + 1
            } else {
                usize::MAX
            },
            None => usize::MAX,
        }
    }
}

impl<T: Ord, A: Arity> DaryHeap<T, A> {
    /// Moves the element at `pos` toward the root while it is greater than its
    /// parent, stopping at slot `start`, and returns the slot it ends in.
    pub(super) fn sift_up(&mut self, start: usize, pos: usize) -> (r: usize)
        requires
            pos < old(self)@.len(),
        ensures
            r <= pos,
            final(self)@[r as int] == old(self)@[pos as int],
            final(self)@.len() == old(self)@.len(),
            final(self)@.to_multiset() == old(self)@.to_multiset(),
            forall|j: int| pos < j < old(self)@.len() ==> final(self)@[j] == old(self)@[j],
            pos <= start ==> r == pos && final(self)@ == old(self)@,
            obeys_cmp::<T>() && pos > start && le(
                old(self)@[pos as int],
                old(self)@[parent_of(pos as int, A::D as int)],
            ) ==> r == pos && final(self)@ == old(self)@,
            in_subtree(pos as int, start as int, A::D as int) ==> start <= r && forall|j: int|
                0 <= j < start ==> final(self)@[j] == old(self)@[j],
            obeys_cmp::<T>() && in_subtree(pos as int, start as int, A::D as int) ==> forall|m: int|
                pos < m <= old(self)@.len() && #[trigger] up_from(
                    old(self)@,
                    A::D as int,
                    m,
                    start as int,
                    pos as int,
                ) ==> ordered_from(final(self)@, A::D as int, m, start as int),
            obeys_cmp::<T>() && start == 0 && ordered_prefix(old(self)@, A::D as int, pos as int)
                ==> ordered_prefix(final(self)@, A::D as int, pos + 1),
    {
        proof {
            A::lemma_arity_positive();
        }
        let ghost s0 = self@;
        let ghost d = A::D as int;
        let ghost len = s0.len();
        let ghost inside = in_subtree(pos as int, start as int, d);
        proof {
            if obeys_cmp::<T>() && start == 0 && ordered_prefix(s0, d, pos as int) {
                lemma_in_subtree_of_root(pos as int, d);
                assert forall|i: int|
                    0 < i < pos + 1 && parent_of(i, d) >= 0 && i != pos implies #[trigger] le(
                    s0[i],
                    s0[parent_of(i, d)],
                ) by {}
                assert forall|i: int| 0 < i < pos + 1 && parent_of(i, d) == pos implies #[trigger] le(
                    s0[i],
                    s0[parent_of(pos as int, d)],
                ) by {
                    lemma_parent_before(i, d);
                }
                assert(up_from(s0, d, pos + 1, 0, pos as int));
            }
        }
        let mut hole = Hole::new(&self.data, pos);
        while hole.pos() > start
            invariant
                d == A::D > 0,
                hole.pos <= pos < len == self.data@.len() == s0.len(),
                self.data@[hole.pos as int] == s0[pos as int],
                self.data@.to_multiset() == s0.to_multiset(),
                forall|j: int| pos < j < len ==> self.data@[j] == s0[j],
                hole.pos == pos ==> self.data@ == s0,
                pos <= start ==> hole.pos == pos,
                obeys_cmp::<T>() && pos > start && le(s0[pos as int], s0[parent_of(pos as int, d)])
                    ==> hole.pos == pos,
                inside == in_subtree(pos as int, start as int, d),
                inside ==> in_subtree(hole.pos as int, start as int, d),
                inside ==> forall|j: int| 0 <= j < start ==> self.data@[j] == s0[j],
                obeys_cmp::<T>() && inside ==> forall|m: int|
                    pos < m <= len && #[trigger] up_from(s0, d, m, start as int, pos as int)
                        ==> up_from(self.data@, d, m, start as int, hole.pos as int),
            ensures
                hole.pos <= pos < len == self.data@.len() == s0.len(),
                self.data@[hole.pos as int] == s0[pos as int],
                self.data@.to_multiset() == s0.to_multiset(),
                forall|j: int| pos < j < len ==> self.data@[j] == s0[j],
                hole.pos == pos ==> self.data@ == s0,
                pos <= start ==> hole.pos == pos,
                obeys_cmp::<T>() && pos > start && le(s0[pos as int], s0[parent_of(pos as int, d)])
                    ==> hole.pos == pos,
                inside ==> start <= hole.pos,
                inside ==> forall|j: int| 0 <= j < start ==> self.data@[j] == s0[j],
                obeys_cmp::<T>() && inside ==> forall|m: int|
                    pos < m <= len && #[trigger] up_from(s0, d, m, start as int, pos as int)
                        ==> ordered_from(self.data@, d, m, start as int),
            decreases hole.pos,
        {
            let k = hole.pos();
            let parent = (k - 1) / A::D;
            proof {
                lemma_parent_before(k as int, d);
                if inside {
                    lemma_in_subtree_after(k as int, start as int, d);
                }
            }
            if *hole.element(&self.data) <= *hole.get(&self.data, parent) {
                proof {
                    if obeys_cmp::<T>() {
                        reveal_cmp_laws::<T>();
                    }
                    if obeys_cmp::<T>() && inside {
                        assert forall|m: int|
                            pos < m <= len && #[trigger] up_from(s0, d, m, start as int, pos as int)
                                implies ordered_from(self.data@, d, m, start as int) by {
                            assert(up_from(self.data@, d, m, start as int, k as int));
                        }
                    }
                }
                break;
            }
            let ghost s = self.data@;
            hole.move_to(&mut self.data, parent);
            proof {
                lemma_swap_multiset(s, k as int, parent as int);
                let p = parent as int;
                if obeys_cmp::<T>() {
                    reveal_cmp_laws::<T>();
                    lemma_le_total(s[k as int], s[p]);
                    assert(le(s[p], s[k as int]));
                }
                if inside {
                    lemma_in_subtree_after(p, start as int, d);
                    if obeys_cmp::<T>() {
                        assert forall|m: int|
                            pos < m <= len && #[trigger] up_from(s0, d, m, start as int, pos as int)
                                implies up_from(self.data@, d, m, start as int, p) by {
                            lemma_up_step(s, d, m, start as int, k as int, p);
                        }
                    }
                }
            }
        }
        proof {
            if inside && hole.pos <= start {
                lemma_in_subtree_after(hole.pos as int, start as int, d);
            }
            if obeys_cmp::<T>() && inside && hole.pos == start {
                assert forall|m: int|
                    pos < m <= len && #[trigger] up_from(s0, d, m, start as int, pos as int)
                        implies ordered_from(self.data@, d, m, start as int) by {
                    assert(up_from(self.data@, d, m, start as int, start as int));
                    assert forall|i: int|
                        0 < i < m && i < self.data@.len() && parent_of(i, d) >= start implies #[trigger] le(
                        self.data@[i],
                        self.data@[parent_of(i, d)],
                    ) by {
                        lemma_parent_before(i, d);
                    }
                }
            }
        }
        let r = hole.pos();
        proof {
            if obeys_cmp::<T>() && start == 0 && ordered_prefix(s0, d, pos as int) {
                assert(ordered_from(self@, d, pos + 1, 0));
                assert forall|i: int| 0 < i < pos + 1 && i < self@.len() implies #[trigger] le(
                    self@[i],
                    self@[parent_of(i, d)],
                ) by {
                    lemma_parent_before(i, d);
                }
            }
        }
        r
    }

    /// Moves the element at `pos` toward the leaves while a child is greater,
    /// within the first `end` slots.
    pub(super) fn sift_down_range(&mut self, pos: usize, end: usize)
        requires
            pos < end <= old(self)@.len(),
            obeys_cmp::<T>() ==> ordered_from(old(self)@, A::D as int, end as int, pos + 1),
        ensures
            final(self)@.len() == old(self)@.len(),
            final(self)@.to_multiset() == old(self)@.to_multiset(),
            final(self)@.subrange(0, end as int).to_multiset() == old(self)@.subrange(
                0,
                end as int,
            ).to_multiset(),
            forall|j: int|
                0 <= j < old(self)@.len() && (j < pos || end <= j) ==> final(self)@[j] == old(self)@[j],
            obeys_cmp::<T>() ==> ordered_from(final(self)@, A::D as int, end as int, pos as int),
    {
        proof {
            A::lemma_arity_positive();
        }
        let ghost s0 = self@;
        let ghost d = A::D as int;
        let mut hole = Hole::new(&self.data, pos);
        let mut child = Self::first_child(hole.pos());
        proof {
            if obeys_cmp::<T>() {
                assert forall|i: int|
                    0 < i < end && parent_of(i, d) >= pos && i != pos && parent_of(i, d)
                        != pos implies #[trigger] le(s0[i], s0[parent_of(i, d)]) by {}
            }
        }
        while child <= end.saturating_sub(A::D)
            invariant
                d == A::D > 0,
                s0 == old(self)@,
                pos <= hole.pos < end <= self.data@.len() == s0.len(),
                child == first_child_spec(hole.pos as int, d),
                self.data@.to_multiset() == s0.to_multiset(),
                self.data@.subrange(0, end as int).to_multiset() == s0.subrange(
                    0,
                    end as int,
                ).to_multiset(),
                forall|j: int|
                    0 <= j < s0.len() && (j < pos || end <= j) ==> self.data@[j] == s0[j],
                obeys_cmp::<T>() ==> down_ready(self.data@, d, end as int, pos as int, hole.pos as int),
                obeys_cmp::<T>() && hole.pos > pos ==> le(
                    self.data@[hole.pos as int],
                    self.data@[parent_of(hole.pos as int, d)],
                ),
            decreases end - hole.pos,
        {
            let k = hole.pos();
            let first = child;
            proof {
                lemma_first_child_after(k as int, d);
            }
            child = hole.max_sibling::<A>(&self.data, first);
            proof {
                lemma_child_parent(k as int, child as int, d);
                if obeys_cmp::<T>() {
                    assert forall|i: int|
                        0 < i < end && parent_of(i, d) == k implies #[trigger] le(
                        self.data@[i],
                        self.data@[child as int],
                    ) by {
                        lemma_child_parent(k as int, i, d);
                    }
                }
            }
            if *hole.element(&self.data) >= *hole.get(&self.data, child) {
                proof {
                    if obeys_cmp::<T>() {
                        reveal_cmp_laws::<T>();
                        lemma_lt_not_le(self.data@[k as int], self.data@[child as int]);
                        assert forall|i: int|
                            0 < i < end && parent_of(i, d) == k implies #[trigger] le(
                            self.data@[i],
                            self.data@[k as int],
                        ) by {
                            lemma_le_transitive(
                                self.data@[i],
                                self.data@[child as int],
                                self.data@[k as int],
                            );
                        }
                        lemma_down_done(self.data@, d, end as int, pos as int, k as int);
                    }
                }
                return;
            }
            let ghost s = self.data@;
            hole.move_to(&mut self.data, child);
            proof {
                lemma_swap_multiset(s, k as int, child as int);
                lemma_swap_prefix_multiset(s, k as int, child as int, end as int);
                if obeys_cmp::<T>() {
                    reveal_cmp_laws::<T>();
                    lemma_lt_not_le(s[k as int], s[child as int]);
                    lemma_le_total(s[k as int], s[child as int]);
                    lemma_down_step(s, d, end as int, pos as int, k as int, child as int);
                }
            }
            child = Self::first_child(hole.pos());
        }
        let k = hole.pos();
        let first = child;
        proof {
            lemma_first_child_after(k as int, d);
            assert(first + d > end);
        }
        child = hole.max_sibling_to::<A>(&self.data, first, end);
        proof {
            if first < end {
                lemma_child_parent(k as int, child as int, d);
            }
            if obeys_cmp::<T>() {
                assert forall|i: int| 0 < i < end && parent_of(i, d) == k implies first <= i < end by {
                    lemma_child_parent(k as int, i, d);
                }
            }
        }
        if child < end && *hole.element(&self.data) < *hole.get(&self.data, child) {
            let ghost s = self.data@;
            hole.move_to(&mut self.data, child);
            proof {
                lemma_swap_multiset(s, k as int, child as int);
                lemma_swap_prefix_multiset(s, k as int, child as int, end as int);
                lemma_no_child_below(child as int, d, end as int);
                if obeys_cmp::<T>() {
                    reveal_cmp_laws::<T>();
                    lemma_lt_not_le(s[k as int], s[child as int]);
                    lemma_le_total(s[k as int], s[child as int]);
                    lemma_down_step(s, d, end as int, pos as int, k as int, child as int);
                    lemma_down_done(self.data@, d, end as int, pos as int, child as int);
                }
            }
        } else {
            proof {
                if obeys_cmp::<T>() {
                    reveal_cmp_laws::<T>();
                    if child < end {
                        lemma_lt_not_le(self.data@[k as int], self.data@[child as int]);
                    }
                    assert forall|i: int|
                        0 < i < end && parent_of(i, d) == k implies #[trigger] le(
                        self.data@[i],
                        self.data@[k as int],
                    ) by {
                        lemma_le_transitive(
                            self.data@[i],
                            self.data@[child as int],
                            self.data@[k as int],
                        );
                    }
                    lemma_down_done(self.data@, d, end as int, pos as int, k as int);
                }
            }
        }
    }

    /// Sifts the element at `pos` down over the whole heap.
    pub(super) fn sift_down(&mut self, pos: usize)
        requires
            pos < old(self)@.len(),
            obeys_cmp::<T>() ==> ordered_from(
                old(self)@,
                A::D as int,
                old(self)@.len() as int,
                pos + 1,
            ),
        ensures
            final(self)@.len() == old(self)@.len(),
            final(self)@.to_multiset() == old(self)@.to_multiset(),
            forall|j: int| 0 <= j < pos ==> final(self)@[j] == old(self)@[j],
            obeys_cmp::<T>() ==> ordered_from(
                final(self)@,
                A::D as int,
                final(self)@.len() as int,
                pos as int,
            ),
    {
        let len = self.len();
        self.sift_down_range(pos, len);
    }

    /// Moves the element at `pos` down to a leaf along the path of greatest
    /// children, then up again to its place. An element taken from the bottom
    /// of the heap usually belongs near the bottom, so this costs fewer
    /// comparisons than a plain sift-down.
    pub(super) fn sift_down_to_bottom(&mut self, pos: usize)
        requires
            pos < old(self)@.len(),
        ensures
            final(self)@.len() == old(self)@.len(),
            final(self)@.to_multiset() == old(self)@.to_multiset(),
            forall|j: int| 0 <= j < pos ==> final(self)@[j] == old(self)@[j],
            obeys_cmp::<T>() && ordered_from(
                old(self)@,
                A::D as int,
                old(self)@.len() as int,
                pos + 1,
            ) ==> ordered_from(final(self)@, A::D as int, final(self)@.len() as int, pos as int),
    {
        proof {
            A::lemma_arity_positive();
        }
        let ghost s0 = self@;
        let ghost d = A::D as int;
        let ghost ready = obeys_cmp::<T>() && ordered_from(s0, d, s0.len() as int, pos + 1);
        let end = self.len();
        let start = pos;
        let mut hole = Hole::new(&self.data, pos);
        let mut child = Self::first_child(hole.pos());
        proof {
            if ready {
                assert forall|i: int|
                    0 < i < end && parent_of(i, d) >= pos && i != pos && parent_of(i, d)
                        != pos implies #[trigger] le(s0[i], s0[parent_of(i, d)]) by {}
            }
        }
        while child <= end.saturating_sub(A::D)
            invariant
                d == A::D > 0,
                end == s0.len(),
                pos <= hole.pos < end == self.data@.len(),
                child == first_child_spec(hole.pos as int, d),
                self.data@.to_multiset() == s0.to_multiset(),
                forall|j: int| 0 <= j < pos ==> self.data@[j] == s0[j],
                in_subtree(hole.pos as int, pos as int, d),
                ready == (obeys_cmp::<T>() && ordered_from(s0, d, s0.len() as int, pos + 1)),
                ready ==> down_ready(self.data@, d, end as int, pos as int, hole.pos as int),
            decreases end - hole.pos,
        {
            let k = hole.pos();
            proof {
                lemma_first_child_after(k as int, d);
            }
            child = hole.max_sibling::<A>(&self.data, child);
            let ghost s = self.data@;
            proof {
                lemma_child_parent(k as int, child as int, d);
                lemma_child_in_subtree(k as int, child as int, pos as int, d);
                if ready {
                    assert forall|i: int|
                        0 < i < end && parent_of(i, d) == k implies #[trigger] le(
                        s[i],
                        s[child as int],
                    ) by {
                        lemma_child_parent(k as int, i, d);
                    }
                }
            }
            hole.move_to(&mut self.data, child);
            proof {
                lemma_swap_multiset(s, k as int, child as int);
                if ready {
                    lemma_down_step(s, d, end as int, pos as int, k as int, child as int);
                }
            }
            child = Self::first_child(hole.pos());
        }
        let k = hole.pos();
        let first = child;
        proof {
            lemma_first_child_after(k as int, d);
        }
        child = hole.max_sibling_to::<A>(&self.data, first, end);
        if child < end {
            let ghost s = self.data@;
            proof {
                lemma_child_parent(k as int, child as int, d);
                lemma_child_in_subtree(k as int, child as int, pos as int, d);
                if ready {
                    assert forall|i: int|
                        0 < i < end && parent_of(i, d) == k implies #[trigger] le(
                        s[i],
                        s[child as int],
                    ) by {
                        lemma_child_parent(k as int, i, d);
                    }
                }
            }
            hole.move_to(&mut self.data, child);
            proof {
                lemma_swap_multiset(s, k as int, child as int);
                lemma_no_child_below(child as int, d, end as int);
                if ready {
                    lemma_down_step(s, d, end as int, pos as int, k as int, child as int);
                }
            }
        } else {
            proof {
                assert forall|i: int| 0 < i && parent_of(i, d) == k implies i >= end by {
                    lemma_child_parent(k as int, i, d);
                }
            }
        }
        let leaf = hole.pos();
        let ghost s1 = self.data@;
        proof {
            if ready {
                assert forall|i: int|
                    0 < i < end && parent_of(i, d) >= pos && i != leaf implies #[trigger] le(
                    s1[i],
                    s1[parent_of(i, d)],
                ) by {}
                assert(up_from(s1, d, end as int, pos as int, leaf as int));
            }
        }
        self.sift_up(start, leaf);
    }

    /// Restores the heap property over the whole sequence, bottom up.
    pub(super) fn rebuild(&mut self)
        ensures
            final(self)@.len() == old(self)@.len(),
            final(self)@.to_multiset() == old(self)@.to_multiset(),
            final(self).wf(),
    {
        proof {
            A::lemma_arity_positive();
        }
        let ghost d = A::D as int;
        let len = self.len();
        if len < 2 {
            return;
        }
        let mut n = (len - 1) / A::D + 1;
        proof {
            if obeys_cmp::<T>() {
                assert forall|i: int|
                    0 < i < len && i < self@.len() && parent_of(i, d) >= n implies #[trigger] le(
                    self@[i],
                    self@[parent_of(i, d)],
                ) by {
                    assert((i - 1) / d <= (len - 1) / d) by (nonlinear_arith)
                        requires
                            0 < i < len,
                            d > 0,
                    {
                        vstd::arithmetic::div_mod::lemma_div_is_ordered(i - 1, len - 1, d);
                    }
                }
            }
            assert((len - 1) / d + 1 <= len) by (nonlinear_arith)
                requires
                    len >= 2,
                    d > 0,
            {
                vstd::arithmetic::div_mod::lemma_div_is_ordered_by_denominator(len - 1, 1, d);
            }
        }
        while n > 0
            invariant
                d == A::D > 0,
                n <= len == self@.len(),
                self@.to_multiset() == old(self)@.to_multiset(),
                obeys_cmp::<T>() ==> ordered_from(self@, d, len as int, n as int),
            decreases n,
        {
            n -= 1;
            self.sift_down(n);
        }
        proof {
            if obeys_cmp::<T>() {
                assert forall|i: int| 0 < i < self@.len() implies #[trigger] le(
                    self@[i],
                    self@[parent_of(i, d)],
                ) by {
                    lemma_parent_before(i, d);
                }
            }
        }
    }

    /// Restores the heap property after the elements from `start` on were
    /// added behind a heap. Either sifts each new element up, or rebuilds the
    /// whole heap, whichever the cost estimate finds cheaper.
    pub(super) fn rebuild_tail(&mut self, start: usize)
        requires
            start <= old(self)@.len(),
            obeys_cmp::<T>() ==> ordered_prefix(old(self)@, A::D as int, start as int),
        ensures
            final(self)@.len() == old(self)@.len(),
            final(self)@.to_multiset() == old(self)@.to_multiset(),
            final(self).wf(),
            start == old(self)@.len() ==> final(self)@ == old(self)@,
    {
        proof {
            A::lemma_arity_positive();
        }
        let ghost d = A::D as int;
        let len = self.len();
        if start == len {
            return;
        }
        let tail_len = len - start;
        // A rebuild takes O(len) moves and about len * d / (d - 1) comparisons
        // at worst, sifting each new element up about tail_len * log(start)
        // comparisons. For larger heaps the crossover was measured instead.
        let better_to_rebuild = if start < tail_len {
            true
        } else if len <= 4096 / A::D {
            let log = log2_fast(start);
            proof {
                assert(A::D * len <= 4096 && (A::D - 1) * tail_len <= A::D * len) by (nonlinear_arith)
                    requires
                        len <= 4096int / (A::D as int),
                        A::D > 0,
                        tail_len <= len,
                {
                    vstd::arithmetic::div_mod::lemma_fundamental_div_mod(4096, A::D as int);
                    vstd::arithmetic::div_mod::lemma_mod_bound(4096, A::D as int);
                }
                assert((A::D - 1) * tail_len * log <= 4096 * 64) by (nonlinear_arith)
                    requires
                        (A::D - 1) * tail_len <= 4096,
                        log < 64,
                ;
            }
            A::D * len < (A::D - 1) * tail_len * log
        } else {
            let factor = 13usize.saturating_sub(A::D);
            proof {
                assert((A::D as int) * (len as int) <= u64::MAX * u64::MAX) by (nonlinear_arith)
                    requires
                        A::D <= u64::MAX,
                        len <= u64::MAX,
                ;
            }
            let lhs = (A::D as u128) * (len as u128);
            let rhs = if factor == 0 {
                0u128
            } else {
                proof {
                    assert((A::D - 1) * tail_len <= 12 * u64::MAX && (A::D - 1) * tail_len * factor
                        <= 12 * 13 * u64::MAX) by (nonlinear_arith)
                        requires
                            1 <= A::D <= 13,
                            factor <= 13,
                            tail_len <= u64::MAX,
                    ;
                }
                ((A::D - 1) as u128) * (tail_len as u128) * (factor as u128)
            };
            lhs < rhs
        };
        if better_to_rebuild {
            self.rebuild();
        } else {
            let mut i = start;
            while i < len
                invariant
                    d == A::D > 0,
                    start <= i <= len == self@.len(),
                    self@.to_multiset() == old(self)@.to_multiset(),
                    obeys_cmp::<T>() ==> ordered_prefix(self@, d, i as int),
                decreases len - i,
            {
                self.sift_up(0, i);
                i += 1;
            }
        }
    }

}

} // verus!
