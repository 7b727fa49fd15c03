//! The heap property on a sequence of entries, and the state in which a
//! repair keeps the entries while one of them moves: a heap but for that one
//! entry.
//!
//! The entry at index 0 is the root. The parent of index `i` is `(i - 1) / 2`,
//! the children of `i` are `2 * i + 1` and `2 * i + 2`.

use crate::comparator::{le, lemma_le_reflexive, lemma_le_total, lemma_le_transitive, Compare};
use crate::index::swapped;
use vstd::prelude::*;

verus! {

/// The index of the parent of `i`.
pub open spec fn parent(i: int) -> int {
    (i - 1) / 2
}

/// The value at `i` is not greater than the value at `j`.
pub open spec fn under<K, T, C: Compare<T>>(s: Seq<(K, T)>, c: &C, i: int, j: int) -> bool {
    le(c, &s[i].1, &s[j].1)
}

/// The value at `i` is not greater than the value at its parent.
pub open spec fn link_ok<K, T, C: Compare<T>>(s: Seq<(K, T)>, c: &C, i: int) -> bool {
    under(s, c, i, parent(i))
}

/// Among the first `end` entries, every entry whose parent is at `lo` or
/// after it is not greater than that parent.
pub open spec fn ordered_from<K, T, C: Compare<T>>(s: Seq<(K, T)>, c: &C, lo: int, end: int) -> bool {
    forall|i: int| 0 < i < end && parent(i) >= lo ==> #[trigger] link_ok(s, c, i)
}

/// The heap property: no entry is greater than its parent.
pub open spec fn heap_ordered<K, T, C: Compare<T>>(s: Seq<(K, T)>, c: &C) -> bool {
    ordered_from(s, c, 0, s.len() as int)
}

/// `h` is `start` or lies in the subtree below it.
pub open spec fn descends(start: int, h: int) -> bool
    decreases h,
{
    if h <= start || h <= 0 {
        h == start
    } else {
        descends(start, parent(h))
    }
}

/// The first `end` entries are a heap but for the entry at `h`, where only
/// parents at `lo` or after it count: every entry that is neither `h` nor a
/// child of `h` is not greater than its parent, and the children of `h` are
/// not greater than the parent of `h`.
///
/// This is the state in which a repair finds the entries, and in which it
/// keeps them while the entry at `h` rises or sinks.
pub open spec fn heap_except<K, T, C: Compare<T>>(
    s: Seq<(K, T)>,
    c: &C,
    lo: int,
    end: int,
    h: int,
) -> bool {
    &&& 0 <= lo <= h < end <= s.len()
    &&& forall|i: int|
        0 < i < end && parent(i) >= lo && i != h && parent(i) != h ==> #[trigger] link_ok(s, c, i)
    &&& (h > 0 && parent(h) >= lo && 2 * h + 1 < end) ==> under(s, c, 2 * h + 1, parent(h))
    &&& (h > 0 && parent(h) >= lo && 2 * h + 2 < end) ==> under(s, c, 2 * h + 2, parent(h))
}

/// Among the first `end` entries, no child of `h` is greater than the entry
/// at `h`.
pub open spec fn children_ok<K, T, C: Compare<T>>(s: Seq<(K, T)>, c: &C, end: int, h: int) -> bool {
    &&& 2 * h + 1 < end ==> under(s, c, 2 * h + 1, h)
    &&& 2 * h + 2 < end ==> under(s, c, 2 * h + 2, h)
}

/// `i` lies on the way from `p` down to `pos`: it is `p` or below it, and
/// `pos` is `i` or below it.
pub open spec fn on_path(p: int, i: int, pos: int) -> bool {
    descends(p, i) && descends(i, pos)
}

/// What descends from an index descends from its parent.
pub proof fn lemma_descends_up(h: int, x: int)
    requires
        0 < h,
        descends(h, x),
    ensures
        descends(parent(h), x),
    decreases x,
{
    let p = parent(h);
    if x <= h || x <= 0 {
        assert(x == h);
        assert(descends(p, parent(h)));
    } else {
        lemma_descends_up(h, parent(x));
        assert(descends(p, parent(x)));
    }
}

/// Of two indices from which `pos` descends, the greater descends from the
/// other.
pub proof fn lemma_descends_chain(a: int, b: int, pos: int)
    requires
        0 <= a <= b,
        descends(a, pos),
        descends(b, pos),
    ensures
        descends(a, b),
    decreases pos,
{
    if pos <= b || pos <= 0 {
        assert(pos == b);
    } else {
        assert(descends(b, parent(pos)));
        assert(descends(a, parent(pos)));
        lemma_descends_chain(a, b, parent(pos));
    }
}

/// On the way from the parent of `h` down to `pos`, which goes through `h`,
/// every index but the parent is on the way from `h` down.
pub proof fn lemma_path_below(h: int, i: int, pos: int)
    requires
        0 < h,
        0 <= i,
        descends(h, pos),
        on_path(parent(h), i, pos),
        i != parent(h),
    ensures
        on_path(h, i, pos),
{
    let p = parent(h);
    assert(i > p);
    if i < h {
        lemma_descends_chain(i, h, pos);
        assert(descends(i, parent(h)));
        assert(false);
    }
    lemma_descends_chain(h, i, pos);
}

/// The parent of an index is not on the way from the index down.
pub proof fn lemma_parent_off_path(h: int, pos: int)
    requires
        0 < h,
    ensures
        !on_path(h, parent(h), pos),
        descends(parent(h), h),
{
    assert(descends(parent(h), parent(h)));
}

/// An index that is not its sibling's descendant: the second child of `pos`
/// does not descend from the first.
pub proof fn lemma_sibling_apart(pos: int)
    requires
        0 <= pos,
    ensures
        !descends(2 * pos + 1, 2 * pos + 2),
        !descends(2 * pos + 2, 2 * pos + 1),
        !descends(2 * pos + 1, pos),
        !descends(2 * pos + 2, pos),
{
    assert(parent(2 * pos + 2) == pos);
    assert(descends(2 * pos + 1, 2 * pos + 2) == descends(2 * pos + 1, pos));
}

/// Every index descends from itself.
pub proof fn lemma_descends_self(h: int)
    ensures
        descends(h, h),
{
}

/// Every index descends from the root.
pub proof fn lemma_descends_from_root(h: int)
    requires
        0 <= h,
    ensures
        descends(0, h),
    decreases h,
{
    if h > 0 {
        lemma_descends_from_root(parent(h));
    }
}

/// The parent of a proper descendant of `start` descends from `start`.
pub proof fn lemma_descends_parent(start: int, h: int)
    requires
        0 <= start < h,
        descends(start, h),
    ensures
        descends(start, parent(h)),
        start <= parent(h) < h,
{
    let p = parent(h);
    assert(descends(start, p));
    if p <= start || p <= 0 {
        assert(p == start);
    }
}

/// A child of a descendant of `start` descends from `start`.
pub proof fn lemma_descends_child(start: int, h: int, child: int)
    requires
        0 <= start <= h,
        descends(start, h),
        child == 2 * h + 1 || child == 2 * h + 2,
    ensures
        descends(start, child),
{
    assert(parent(child) == h);
}

/// In a heap no entry is greater than the root.
pub proof fn lemma_root_is_greatest<K, T, C: Compare<T>>(s: Seq<(K, T)>, c: &C, i: int)
    requires
        c.lawful(),
        heap_ordered(s, c),
        0 <= i < s.len(),
    ensures
        under(s, c, i, 0),
    decreases i,
{
    if i == 0 {
        lemma_le_reflexive(c, &s[0].1);
    } else {
        assert(link_ok(s, c, i));
        lemma_root_is_greatest(s, c, parent(i));
        lemma_le_transitive(c, &s[i].1, &s[parent(i)].1, &s[0].1);
    }
}

/// Whether the first `end` entries are ordered depends on those entries
/// alone.
pub proof fn lemma_ordered_same_prefix<K, T, C: Compare<T>>(
    s: Seq<(K, T)>,
    t: Seq<(K, T)>,
    c: &C,
    lo: int,
    end: int,
)
    requires
        ordered_from(s, c, lo, end),
        end <= s.len(),
        end <= t.len(),
        forall|i: int| 0 <= i < end ==> s[i] == t[i],
    ensures
        ordered_from(t, c, lo, end),
{
    assert forall|i: int| 0 < i < end && parent(i) >= lo implies #[trigger] link_ok(t, c, i) by {
        assert(link_ok(s, c, i));
    }
}

/// Whether the first `end` entries are a heap but for the entry at `h` does
/// not depend on that entry, nor on the entries after the first `end`.
pub proof fn lemma_except_same_elsewhere<K, T, C: Compare<T>>(
    s: Seq<(K, T)>,
    t: Seq<(K, T)>,
    c: &C,
    lo: int,
    wide: int,
    end: int,
    h: int,
)
    requires
        heap_except(s, c, lo, wide, h),
        h < end <= wide,
        end <= t.len(),
        forall|i: int| 0 <= i < end && i != h ==> s[i] == t[i],
    ensures
        heap_except(t, c, lo, end, h),
{
    assert forall|i: int|
        0 < i < end && parent(i) >= lo && i != h && parent(i) != h implies #[trigger] link_ok(
        t,
        c,
        i,
    ) by {
        assert(link_ok(s, c, i));
    }
}

/// Entries ordered from `lo` on stay a heap but for the entry at `h` when
/// that entry is replaced.
pub proof fn lemma_replace_keeps_except<K, T, C: Compare<T>>(
    s: Seq<(K, T)>,
    c: &C,
    lo: int,
    end: int,
    h: int,
    e: (K, T),
)
    requires
        c.lawful(),
        ordered_from(s, c, lo, end),
        0 <= lo <= h < end <= s.len(),
    ensures
        heap_except(s.update(h, e), c, lo, end, h),
{
    let s2 = s.update(h, e);
    assert forall|i: int|
        0 < i < end && parent(i) >= lo && i != h && parent(i) != h implies #[trigger] link_ok(
        s2,
        c,
        i,
    ) by {
        assert(link_ok(s, c, i));
    }
    if h > 0 && parent(h) >= lo {
        assert(link_ok(s, c, h));
        if 2 * h + 1 < end {
            assert(link_ok(s, c, 2 * h + 1));
            lemma_le_transitive(c, &s[2 * h + 1].1, &s[h].1, &s[parent(h)].1);
        }
        if 2 * h + 2 < end {
            assert(link_ok(s, c, 2 * h + 2));
            lemma_le_transitive(c, &s[2 * h + 2].1, &s[h].1, &s[parent(h)].1);
        }
    }
}

/// Entries ordered from `lo` on are a heap but for any one entry.
pub proof fn lemma_ordered_is_except<K, T, C: Compare<T>>(
    s: Seq<(K, T)>,
    c: &C,
    lo: int,
    end: int,
    h: int,
)
    requires
        c.lawful(),
        ordered_from(s, c, lo, end),
        0 <= lo <= h < end <= s.len(),
    ensures
        heap_except(s, c, lo, end, h),
{
    lemma_replace_keeps_except(s, c, lo, end, h, s[h]);
    assert(s.update(h, s[h]) =~= s);
}

/// A heap of `n - 1` entries with one more entry after it is a heap of `n`
/// entries but for that last entry.
pub proof fn lemma_except_at_end<K, T, C: Compare<T>>(s: Seq<(K, T)>, c: &C, n: int)
    requires
        0 < n <= s.len(),
        ordered_from(s, c, 0, n - 1),
    ensures
        heap_except(s, c, 0, n, n - 1),
        children_ok(s, c, n, n - 1),
{
    assert forall|i: int|
        0 < i < n && parent(i) >= 0 && i != n - 1 && parent(i) != n - 1 implies #[trigger] link_ok(
        s,
        c,
        i,
    ) by {}
}

/// Entries ordered from `lo + 1` on are a heap but for the entry at `lo`,
/// where only parents at `lo` or after it count.
pub proof fn lemma_except_at_front<K, T, C: Compare<T>>(s: Seq<(K, T)>, c: &C, lo: int, end: int)
    requires
        0 <= lo < end <= s.len(),
        ordered_from(s, c, lo + 1, end),
    ensures
        heap_except(s, c, lo, end, lo),
{
    assert forall|i: int|
        0 < i < end && parent(i) >= lo && i != lo && parent(i) != lo implies #[trigger] link_ok(
        s,
        c,
        i,
    ) by {}
}

/// Where the entry at `h` is greater than its parent, exchanging the two
/// leaves a heap but for the parent's place, whose children are then in
/// order.
pub proof fn lemma_rise_step<K, T, C: Compare<T>>(s: Seq<(K, T)>, c: &C, n: int, h: int)
    requires
        c.lawful(),
        heap_except(s, c, 0, n, h),
        h > 0,
        !link_ok(s, c, h),
    ensures
        heap_except(swapped(s, h, parent(h)), c, 0, n, parent(h)),
        children_ok(swapped(s, h, parent(h)), c, n, parent(h)),
{
    let p = parent(h);
    let s2 = swapped(s, h, p);
    lemma_le_total(c, &s[h].1, &s[p].1);
    assert(le(c, &s[p].1, &s[h].1));
    assert forall|i: int|
        0 < i < n && parent(i) >= 0 && i != p && parent(i) != p implies #[trigger] link_ok(
        s2,
        c,
        i,
    ) by {
        if parent(i) == h {
            assert(i == 2 * h + 1 || i == 2 * h + 2);
        } else {
            assert(link_ok(s, c, i));
        }
    }
    let first = 2 * p + 1;
    let second = 2 * p + 2;
    assert(h == first || h == second);
    if first < n && first != h {
        assert(link_ok(s, c, first));
        lemma_le_transitive(c, &s[first].1, &s[p].1, &s[h].1);
    }
    if second < n && second != h {
        assert(link_ok(s, c, second));
        lemma_le_transitive(c, &s[second].1, &s[p].1, &s[h].1);
    }
    if p > 0 {
        let g = parent(p);
        assert(link_ok(s, c, p));
        if first < n && first != h {
            lemma_le_transitive(c, &s[first].1, &s[p].1, &s[g].1);
        }
        if second < n && second != h {
            lemma_le_transitive(c, &s[second].1, &s[p].1, &s[g].1);
        }
    }
}

/// Exchanging the entry at `h` with a child that is not less than the other
/// child leaves a heap but for that child's place.
pub proof fn lemma_sink_step<K, T, C: Compare<T>>(
    s: Seq<(K, T)>,
    c: &C,
    lo: int,
    end: int,
    h: int,
    child: int,
)
    requires
        c.lawful(),
        heap_except(s, c, lo, end, h),
        child < end,
        child == 2 * h + 1 || child == 2 * h + 2,
        (2 * h + 1 < end && child != 2 * h + 1) ==> under(s, c, 2 * h + 1, child),
        (2 * h + 2 < end && child != 2 * h + 2) ==> under(s, c, 2 * h + 2, child),
    ensures
        heap_except(swapped(s, h, child), c, lo, end, child),
{
    let s2 = swapped(s, h, child);
    assert(parent(child) == h);
    assert forall|i: int|
        0 < i < end && parent(i) >= lo && i != child && parent(i) != child implies #[trigger] link_ok(
        s2,
        c,
        i,
    ) by {
        if i == h {
        } else if parent(i) == h {
            assert(i == 2 * h + 1 || i == 2 * h + 2);
        } else {
            assert(link_ok(s, c, i));
        }
    }
    if 2 * child + 1 < end {
        assert(link_ok(s, c, 2 * child + 1));
    }
    if 2 * child + 2 < end {
        assert(link_ok(s, c, 2 * child + 2));
    }
}

/// A heap but for the entry at `h` is ordered from `lo` on where that entry
/// is not greater than its parent and none of its children is greater than
/// it.
pub proof fn lemma_except_done<K, T, C: Compare<T>>(s: Seq<(K, T)>, c: &C, lo: int, end: int, h: int)
    requires
        heap_except(s, c, lo, end, h),
        (h > 0 && parent(h) >= lo) ==> link_ok(s, c, h),
        children_ok(s, c, end, h),
    ensures
        ordered_from(s, c, lo, end),
{
    assert forall|i: int| 0 < i < end && parent(i) >= lo implies #[trigger] link_ok(s, c, i) by {
        if i == h {
        } else if parent(i) == h {
            assert(i == 2 * h + 1 || i == 2 * h + 2);
        } else {
        }
    }
}

/// Among the first `end` entries, every entry whose parent is `root` or
/// descends from it is not greater than that parent: the subtree under `root`
/// is in heap order.
pub open spec fn subtree_ordered<K, T, C: Compare<T>>(
    s: Seq<(K, T)>,
    c: &C,
    root: int,
    end: int,
) -> bool {
    forall|i: int| 0 < i < end && descends(root, parent(i)) ==> #[trigger] link_ok(s, c, i)
}

/// Among the first `end` entries, the subtree under `root` is in heap order
/// but for the entry at `h`, which is in it: every entry of the subtree that
/// is neither `h` nor a child of `h` is not greater than its parent, and
/// where `h` is below `root` the children of `h` are not greater than the
/// parent of `h`.
pub open spec fn subtree_except<K, T, C: Compare<T>>(
    s: Seq<(K, T)>,
    c: &C,
    root: int,
    end: int,
    h: int,
) -> bool {
    &&& 0 <= root <= h < end <= s.len()
    &&& descends(root, h)
    &&& forall|i: int|
        0 < i < end && descends(root, parent(i)) && i != h && parent(i) != h ==> #[trigger] link_ok(
            s,
            c,
            i,
        )
    &&& (h > root && 2 * h + 1 < end) ==> under(s, c, 2 * h + 1, parent(h))
    &&& (h > root && 2 * h + 2 < end) ==> under(s, c, 2 * h + 2, parent(h))
}

/// Within a subtree, exchanging the entry at `h` with a child that is not
/// less than the other child leaves the subtree in order but for that child's
/// place.
pub proof fn lemma_subtree_sink_step<K, T, C: Compare<T>>(
    s: Seq<(K, T)>,
    c: &C,
    root: int,
    end: int,
    h: int,
    child: int,
)
    requires
        c.lawful(),
        subtree_except(s, c, root, end, h),
        child < end,
        child == 2 * h + 1 || child == 2 * h + 2,
        (2 * h + 1 < end && child != 2 * h + 1) ==> under(s, c, 2 * h + 1, child),
        (2 * h + 2 < end && child != 2 * h + 2) ==> under(s, c, 2 * h + 2, child),
    ensures
        subtree_except(swapped(s, h, child), c, root, end, child),
{
    let s2 = swapped(s, h, child);
    assert(parent(child) == h);
    assert(descends(root, child));
    assert forall|i: int|
        0 < i < end && descends(root, parent(i)) && i != child && parent(i)
            != child implies #[trigger] link_ok(s2, c, i) by {
        if i == h {
            assert(h > root);
        } else if parent(i) == h {
            assert(i == 2 * h + 1 || i == 2 * h + 2);
        } else {
            assert(link_ok(s, c, i));
        }
    }
    if 2 * child + 1 < end {
        assert(parent(2 * child + 1) == child);
        assert(link_ok(s, c, 2 * child + 1));
    }
    if 2 * child + 2 < end {
        assert(parent(2 * child + 2) == child);
        assert(link_ok(s, c, 2 * child + 2));
    }
}

/// Within a subtree, where the entry at `h` below the root of the subtree is
/// greater than its parent, exchanging the two leaves the subtree in order
/// but for the parent's place, whose children are then in order.
pub proof fn lemma_subtree_rise_step<K, T, C: Compare<T>>(
    s: Seq<(K, T)>,
    c: &C,
    root: int,
    end: int,
    h: int,
)
    requires
        c.lawful(),
        subtree_except(s, c, root, end, h),
        h > root,
        !link_ok(s, c, h),
    ensures
        subtree_except(swapped(s, h, parent(h)), c, root, end, parent(h)),
        children_ok(swapped(s, h, parent(h)), c, end, parent(h)),
{
    let p = parent(h);
    let s2 = swapped(s, h, p);
    assert(descends(root, p));
    lemma_le_total(c, &s[h].1, &s[p].1);
    assert(le(c, &s[p].1, &s[h].1));
    assert forall|i: int|
        0 < i < end && descends(root, parent(i)) && i != p && parent(i) != p implies #[trigger] link_ok(
        s2,
        c,
        i,
    ) by {
        if parent(i) == h {
            assert(i == 2 * h + 1 || i == 2 * h + 2);
        } else {
            assert(link_ok(s, c, i));
        }
    }
    let first = 2 * p + 1;
    let second = 2 * p + 2;
    assert(h == first || h == second);
    assert(parent(first) == p && parent(second) == p);
    if first < end && first != h {
        assert(link_ok(s, c, first));
        lemma_le_transitive(c, &s[first].1, &s[p].1, &s[h].1);
    }
    if second < end && second != h {
        assert(link_ok(s, c, second));
        lemma_le_transitive(c, &s[second].1, &s[p].1, &s[h].1);
    }
    if p > root {
        let g = parent(p);
        assert(descends(root, g));
        assert(link_ok(s, c, p));
        if first < end && first != h {
            lemma_le_transitive(c, &s[first].1, &s[p].1, &s[g].1);
        }
        if second < end && second != h {
            lemma_le_transitive(c, &s[second].1, &s[p].1, &s[g].1);
        }
    }
}

/// A subtree in order but for the entry at `h` is in order where that entry
/// is not greater than its parent in the subtree and none of its children is
/// greater than it.
pub proof fn lemma_subtree_done<K, T, C: Compare<T>>(
    s: Seq<(K, T)>,
    c: &C,
    root: int,
    end: int,
    h: int,
)
    requires
        subtree_except(s, c, root, end, h),
        h > root ==> link_ok(s, c, h),
        children_ok(s, c, end, h),
    ensures
        subtree_ordered(s, c, root, end),
{
    assert forall|i: int| 0 < i < end && descends(root, parent(i)) implies #[trigger] link_ok(
        s,
        c,
        i,
    ) by {
        if i == h {
            assert(h > root);
        } else if parent(i) == h {
            assert(i == 2 * h + 1 || i == 2 * h + 2);
        } else {
        }
    }
}

} // verus!
