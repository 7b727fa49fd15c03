//! What the repairs make of a storage: for each repair, the storage that it
//! leaves as a function of the storage that it finds.
//!
//! The entry at `pos` rises by changing places with its parent while it is
//! greater than the parent. It sinks by changing places with the greater of
//! its children, the first where the two rank alike, while that child is
//! greater than it.

use crate::comparator::{ge, le, lemma_flip, lt, Compare};
use crate::heap_order::{heap_ordered, link_ok, parent};
use crate::index::{index_consistent, swapped, without};
use crate::rebuild_rule::rebuild_is_better;
use vstd::prelude::*;

verus! {

/// The storage after the entry at `pos` has risen, but not above `start`, and
/// the place where it came to rest.
pub open spec fn rise<K, T, C: Compare<T>>(s: Seq<(K, T)>, c: &C, start: int, pos: int) -> (
    Seq<(K, T)>,
    int,
)
    decreases pos,
{
    if pos > start && pos > 0 && !le(c, &s[pos].1, &s[parent(pos)].1) {
        rise(swapped(s, pos, parent(pos)), c, start, parent(pos))
    } else {
        (s, pos)
    }
}

/// Of the two children of `pos` the greater; the first where they rank
/// alike.
pub open spec fn greater_child<K, T, C: Compare<T>>(s: Seq<(K, T)>, c: &C, pos: int) -> int {
    if lt(c, &s[2 * pos + 1].1, &s[2 * pos + 2].1) {
        2 * pos + 2
    } else {
        2 * pos + 1
    }
}

/// Both children of `pos` are among the first `end` entries of `s`, rank
/// alike, and are greater than the entry at `pos`: the entry sinks, and the
/// first child takes its place.
pub open spec fn first_child_wins<K, T, C: Compare<T>>(
    s: Seq<(K, T)>,
    c: &C,
    pos: int,
    end: int,
) -> bool {
    &&& 0 <= pos
    &&& 2 * pos + 2 < end <= s.len()
    &&& le(c, &s[2 * pos + 1].1, &s[2 * pos + 2].1)
    &&& le(c, &s[2 * pos + 2].1, &s[2 * pos + 1].1)
    &&& lt(c, &s[pos].1, &s[2 * pos + 1].1)
}

/// The storage after the entry at `pos` has sunk among the first `end`
/// entries while a child was greater than it.
pub open spec fn sink<K, T, C: Compare<T>>(s: Seq<(K, T)>, c: &C, pos: int, end: int) -> Seq<(K, T)>
    decreases end - pos,
{
    if pos < 0 {
        s
    } else if 2 * pos + 2 < end {
        let child = greater_child(s, c, pos);
        if ge(c, &s[pos].1, &s[child].1) {
            s
        } else {
            sink(swapped(s, pos, child), c, child, end)
        }
    } else if 2 * pos + 1 < end && lt(c, &s[pos].1, &s[2 * pos + 1].1) {
        swapped(s, pos, 2 * pos + 1)
    } else {
        s
    }
}

/// The storage after the entry at `pos` has sunk among the first `end`
/// entries all the way to a leaf, always toward the greater child, and the
/// place of that leaf.
pub open spec fn sink_to_leaf<K, T, C: Compare<T>>(s: Seq<(K, T)>, c: &C, pos: int, end: int) -> (
    Seq<(K, T)>,
    int,
)
    decreases end - pos,
{
    if pos < 0 {
        (s, pos)
    } else if 2 * pos + 2 < end {
        let child = greater_child(s, c, pos);
        sink_to_leaf(swapped(s, pos, child), c, child, end)
    } else if 2 * pos + 1 < end {
        (swapped(s, pos, 2 * pos + 1), 2 * pos + 1)
    } else {
        (s, pos)
    }
}

/// The storage after the entry at `pos` has sunk to a leaf and risen again,
/// but not above `pos`.
pub open spec fn sink_and_rise<K, T, C: Compare<T>>(s: Seq<(K, T)>, c: &C, pos: int) -> Seq<(K, T)> {
    let low = sink_to_leaf(s, c, pos, s.len() as int);
    rise(low.0, c, pos, low.1).0
}

/// The storage after the entry at `pos` has risen or, where it did not rise,
/// sunk.
pub open spec fn settled<K, T, C: Compare<T>>(s: Seq<(K, T)>, c: &C, pos: int) -> Seq<(K, T)> {
    let up = rise(s, c, 0, pos);
    if up.1 != pos {
        up.0
    } else {
        sink(up.0, c, pos, s.len() as int)
    }
}

/// The storage after the entry at `pos` has risen or, where it did not rise,
/// sunk to a leaf and risen again.
pub open spec fn resettled<K, T, C: Compare<T>>(s: Seq<(K, T)>, c: &C, pos: int) -> Seq<(K, T)> {
    let up = rise(s, c, 0, pos);
    if up.1 != pos {
        up.0
    } else {
        sink_and_rise(up.0, c, pos)
    }
}

/// The storage of `end` entries after each of the first `n` has sunk, the
/// last of them first.
pub open spec fn heapified_from<K, T, C: Compare<T>>(s: Seq<(K, T)>, c: &C, n: int, end: int) -> Seq<
    (K, T),
>
    decreases n,
{
    if n <= 0 {
        s
    } else {
        heapified_from(sink(s, c, n - 1, end), c, n - 1, end)
    }
}

/// The storage after it has been made a heap: every entry that has a child
/// has sunk, the last such entry first and the root last.
pub open spec fn heapified<K, T, C: Compare<T>>(s: Seq<(K, T)>, c: &C) -> Seq<(K, T)> {
    heapified_from(s, c, s.len() as int / 2, s.len() as int)
}

/// The storage of `end` entries after each entry from `i` on has risen in
/// turn.
pub open spec fn risen_from<K, T, C: Compare<T>>(s: Seq<(K, T)>, c: &C, i: int, end: int) -> Seq<
    (K, T),
>
    decreases end - i,
{
    if i < 0 || i >= end {
        s
    } else {
        risen_from(rise(s, c, 0, i).0, c, i + 1, end)
    }
}

/// The storage after it has been made a heap, where its first `start` entries
/// were one already: as it was where nothing follows them, and else rebuilt
/// whole or with each later entry risen, as `rebuild_is_better` decides.
pub open spec fn tail_heapified<K, T, C: Compare<T>>(s: Seq<(K, T)>, c: &C, start: int) -> Seq<(K, T)> {
    if start == s.len() {
        s
    } else if rebuild_is_better(start as nat, (s.len() - start) as nat) {
        heapified(s, c)
    } else {
        risen_from(s, c, start, s.len() as int)
    }
}

/// The place of the entry of `s` with the key `k`, and -1 where there is
/// none.
pub open spec fn place_of<K, T>(s: Seq<(K, T)>, k: K) -> int
    decreases s.len(),
{
    if s.len() == 0 {
        -1
    } else if place_of(s.drop_last(), k) >= 0 {
        place_of(s.drop_last(), k)
    } else if s.last().0 == k {
        s.len() - 1
    } else {
        -1
    }
}

/// The storage `s` with the pair `e` put in: the value of `e` in the place of
/// the value of the entry with its key, and `e` at the end where there is no
/// such entry.
pub open spec fn with_pair<K, T>(s: Seq<(K, T)>, e: (K, T)) -> Seq<(K, T)> {
    let at = place_of(s, e.0);
    if at >= 0 {
        s.update(at, (s[at].0, e.1))
    } else {
        s.push(e)
    }
}

/// The storage that the pairs build when they are put in one after the
/// other, before it is made a heap.
pub open spec fn gathered<K, T>(pairs: Seq<(K, T)>) -> Seq<(K, T)>
    decreases pairs.len(),
{
    if pairs.len() == 0 {
        Seq::empty()
    } else {
        with_pair(gathered(pairs.drop_last()), pairs.last())
    }
}

/// The storage `s` with the entry `e` of another heap taken in: `e` at the
/// end where no entry has its key; else the value of `e` in the place of the
/// value of the entry with its key where `prefer_new` is set, and `s` as it
/// is where it is not.
pub open spec fn with_entry<K, T>(s: Seq<(K, T)>, e: (K, T), prefer_new: bool) -> Seq<(K, T)> {
    let at = place_of(s, e.0);
    if at < 0 {
        s.push(e)
    } else if prefer_new {
        s.update(at, (s[at].0, e.1))
    } else {
        s
    }
}

/// The storage `s` with the entries of `source` taken in, the last first.
pub open spec fn absorbed<K, T>(s: Seq<(K, T)>, source: Seq<(K, T)>, prefer_new: bool) -> Seq<(K, T)>
    decreases source.len(),
{
    if source.len() == 0 {
        s
    } else {
        absorbed(with_entry(s, source.last(), prefer_new), source.drop_last(), prefer_new)
    }
}

/// Whether taking the entries of `source` into `s` replaces the value of an
/// entry.
pub open spec fn absorbing_replaces<K, T>(s: Seq<(K, T)>, source: Seq<(K, T)>, prefer_new: bool) -> bool
    decreases source.len(),
{
    if source.len() == 0 {
        false
    } else {
        (prefer_new && place_of(s, source.last().0) >= 0) || absorbing_replaces(
            with_entry(s, source.last(), prefer_new),
            source.drop_last(),
            prefer_new,
        )
    }
}

/// The storage of a heap with the storage `own` after the entries of a heap
/// with the storage `other` have been moved into it, under the comparator
/// that it then has.
///
/// The entries of the smaller heap are taken into the storage of the larger,
/// the last first, and the value of `other` stays where both have a key. The
/// whole is rebuilt where a value was replaced; else only the entries taken
/// in are put in order.
pub open spec fn appended<K, T, C: Compare<T>>(own: Seq<(K, T)>, other: Seq<(K, T)>, c: &C) -> Seq<
    (K, T),
> {
    let exchanged = own.len() < other.len();
    let base = if exchanged {
        other
    } else {
        own
    };
    let source = if exchanged {
        own
    } else {
        other
    };
    let taken = absorbed(base, source, !exchanged);
    if absorbing_replaces(base, source, !exchanged) {
        heapified(taken, c)
    } else {
        tail_heapified(taken, c, base.len() as int)
    }
}

/// The storage `s` of a heap after its root has been taken out: the last
/// entry has taken the place of the root, sunk to a leaf and risen again.
pub open spec fn without_root<K, T, C: Compare<T>>(s: Seq<(K, T)>, c: &C) -> Seq<(K, T)> {
    if s.len() <= 1 {
        Seq::empty()
    } else {
        sink_and_rise(without(s, 0), c, 0)
    }
}

/// The first `n` entries that a heap with the storage `s` gives up when its
/// root is taken out again and again.
pub open spec fn pops<K, T, C: Compare<T>>(s: Seq<(K, T)>, c: &C, n: nat) -> Seq<(K, T)>
    decreases n,
{
    if n == 0 || s.len() == 0 {
        Seq::empty()
    } else {
        seq![s[0]] + pops(without_root(s, c), c, (n - 1) as nat)
    }
}

/// In a heap no entry rises and no entry sinks.
pub proof fn lemma_heap_stays<K, T, C: Compare<T>>(s: Seq<(K, T)>, c: &C, pos: int)
    requires
        c.lawful(),
        heap_ordered(s, c),
        0 <= pos < s.len(),
    ensures
        rise(s, c, 0, pos) == (s, pos),
        sink(s, c, pos, s.len() as int) == s,
        settled(s, c, pos) == s,
{
    if pos > 0 {
        assert(link_ok(s, c, pos));
    }
    if 2 * pos + 1 < s.len() {
        assert(link_ok(s, c, 2 * pos + 1));
        lemma_flip(c, &s[pos].1, &s[2 * pos + 1].1);
    }
    if 2 * pos + 2 < s.len() {
        assert(link_ok(s, c, 2 * pos + 2));
        lemma_flip(c, &s[pos].1, &s[2 * pos + 2].1);
    }
}

/// Making a heap of a heap leaves it as it is.
pub proof fn lemma_heapified_stays<K, T, C: Compare<T>>(s: Seq<(K, T)>, c: &C, n: int)
    requires
        c.lawful(),
        heap_ordered(s, c),
        n <= s.len(),
    ensures
        heapified_from(s, c, n, s.len() as int) == s,
    decreases n,
{
    if n > 0 {
        lemma_heap_stays(s, c, n - 1);
        lemma_heapified_stays(s, c, n - 1);
    }
}

/// Where the index matches the storage, the place of the entry with a key is
/// the position that the index records for the key.
pub proof fn lemma_place_of<K, T>(s: Seq<(K, T)>, m: Map<K, usize>, k: K)
    requires
        index_consistent(s, m),
    ensures
        place_of(s, k) == (if m.contains_key(k) {
            m[k] as int
        } else {
            -1
        }),
    decreases s.len(),
{
    if s.len() > 0 {
        let last = s.len() - 1;
        let s1 = s.drop_last();
        let m1 = m.remove(s[last].0);
        assert(m[s[last].0] == last);
        assert forall|i: int| 0 <= i < s1.len() implies m1.contains_key((#[trigger] s1[i]).0)
            && m1[s1[i].0] == i by {
            assert(s1[i] == s[i]);
            assert(m[s[i].0] == i);
        }
        assert forall|j: K| #[trigger] m1.contains_key(j) implies 0 <= m1[j] < s1.len()
            && s1[m1[j] as int].0 == j by {
            assert(m.contains_key(j));
            assert(s[m[j] as int].0 == j);
        }
        lemma_place_of(s1, m1, k);
        if m.contains_key(k) {
            assert(s[m[k] as int].0 == k);
        }
    } else {
        if m.contains_key(k) {
            assert(0 <= m[k] < s.len());
        }
    }
}

} // verus!
