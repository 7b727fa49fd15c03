//! The repairs of the heap property: one entry rises toward the root, or
//! sinks toward the leaves, through a hole that moves in its stead.
//!
//! Each repair states the storage that it leaves, whatever the order of the
//! storage that it finds, and states the order that it leaves where the
//! storage was a heap but for the entry that moves.

use crate::binary_heap::BinaryHeap;
use crate::comparator::{
    compares_ge, compares_le, compares_lt, lemma_flip, lemma_le_transitive, Compare,
};
use crate::heap_order::{
    children_ok, descends, heap_except, heap_ordered, lemma_descends_child, lemma_descends_parent,
    lemma_descends_self, lemma_descends_up, lemma_except_done, lemma_parent_off_path,
    lemma_path_below, lemma_rise_step, lemma_sibling_apart, lemma_sink_step, lemma_subtree_done,
    lemma_subtree_rise_step, lemma_subtree_sink_step, link_ok, on_path, ordered_from, parent,
    subtree_except, subtree_ordered,
};
use crate::hole::Hole;
use crate::index::{
    abstract_map, index_consistent, index_consistent_except, lemma_consistent_except,
};
use crate::sift::{first_child_wins, greater_child, rise, sink, sink_and_rise, sink_to_leaf};
use std::hash::Hash;
use vstd::prelude::*;
use vstd::std_specs::hash::obeys_key_model;

verus! {

impl<K: Hash + Eq, T, C: Compare<T>> BinaryHeap<K, T, C> {
    /// Moves the entry at `pos` toward the root while it is greater than its
    /// parent, but not above `start`, and returns where it came to rest.
    ///
    /// Every entry that it passes moves one level down, and no other entry
    /// moves. Where the first `n` entries were a heap but for the entry at
    /// `pos`, they are one but for the entry where it rests.
    pub(crate) fn sift_up(&mut self, start: usize, pos: usize, Ghost(n): Ghost<int>) -> (p: usize)
        requires
            obeys_key_model::<K>(),
            old(self).strategy.lawful(),
            index_consistent_except(old(self).data@, old(self).keys@, pos as int),
        ensures
            final(self).strategy == old(self).strategy,
            index_consistent(final(self).data@, final(self).keys@),
            final(self).data@ == rise(old(self).data@, &old(self).strategy, start as int, pos as int).0,
            p == rise(old(self).data@, &old(self).strategy, start as int, pos as int).1,
            abstract_map(final(self).data@, final(self).keys@) == abstract_map(
                old(self).data@,
                old(self).keys@.insert(old(self).data@[pos as int].0, pos),
            ),
            final(self).data@.len() == old(self).data@.len(),
            p <= pos,
            descends(p as int, pos as int),
            final(self).data@[p as int] == old(self).data@[pos as int],
            forall|i: int|
                0 <= i < old(self).data@.len() && !on_path(p as int, i, pos as int) ==> (
                #[trigger] final(self).data@[i]) == old(self).data@[i],
            forall|i: int|
                0 <= i < old(self).data@.len() && on_path(p as int, i, pos as int) && i != p ==> (
                #[trigger] final(self).data@[i]) == old(self).data@[parent(i)],
            p > start ==> link_ok(final(self).data@, &final(self).strategy, p as int),
            p == pos ==> final(self).data@ == old(self).data@,
            descends(start as int, pos as int) ==> {
                &&& start <= p
                &&& descends(start as int, p as int)
                &&& forall|i: int|
                    0 <= i < old(self).data@.len() && !descends(start as int, i) ==> (
                    #[trigger] final(self).data@[i]) == old(self).data@[i]
            },
            (pos < n <= old(self).data@.len() && heap_except(
                old(self).data@,
                &old(self).strategy,
                0,
                n,
                pos as int,
            )) ==> {
                &&& heap_except(final(self).data@, &final(self).strategy, 0, n, p as int)
                &&& p < pos ==> children_ok(final(self).data@, &final(self).strategy, n, p as int)
            },
            (pos < n <= old(self).data@.len() && subtree_except(
                old(self).data@,
                &old(self).strategy,
                start as int,
                n,
                pos as int,
            )) ==> {
                &&& subtree_except(final(self).data@, &final(self).strategy, start as int, n, p as int)
                &&& p < pos ==> children_ok(final(self).data@, &final(self).strategy, n, p as int)
            },
    {
        let ghost before = self.data@;
        let ghost filled = abstract_map(self.data@, self.keys@.insert(self.data@[pos as int].0, pos));
        let c = &self.strategy;
        let ghost ordered = pos < n <= before.len() && heap_except(before, c, 0, n, pos as int);
        let ghost rooted = descends(start as int, pos as int);
        let ghost sub = pos < n <= before.len() && subtree_except(
            before,
            c,
            start as int,
            n,
            pos as int,
        );
        let mut hole = Hole::new(&mut self.data, &mut self.keys, pos);
        proof {
            lemma_descends_self(pos as int);
        }
        while hole.pos() > start
            invariant
                hole.inv(),
                c.lawful(),
                hole.pos <= pos,
                rise(hole.entries(), c, start as int, hole.pos as int) == rise(
                    before,
                    c,
                    start as int,
                    pos as int,
                ),
                descends(hole.pos as int, pos as int),
                rooted ==> start <= hole.pos && descends(start as int, hole.pos as int),
                rooted ==> forall|i: int|
                    0 <= i < before.len() && !descends(start as int, i) ==> (
                    #[trigger] hole.entries()[i]) == before[i],
                ordered ==> heap_except(hole.entries(), c, 0, n, hole.pos as int),
                sub ==> subtree_except(hole.entries(), c, start as int, n, hole.pos as int),
                (ordered || sub) && hole.pos < pos ==> children_ok(
                    hole.entries(),
                    c,
                    n,
                    hole.pos as int,
                ),
                hole.pos == pos ==> hole.entries() == before,
                hole.filled_map() == filled,
                hole.entries().len() == before.len(),
                hole.entries()[hole.pos as int] == before[pos as int],
                forall|i: int|
                    0 <= i < before.len() && !on_path(hole.pos as int, i, pos as int) ==> (
                    #[trigger] hole.entries()[i]) == before[i],
                forall|i: int|
                    0 <= i < before.len() && on_path(hole.pos as int, i, pos as int) && i
                        != hole.pos ==> (#[trigger] hole.entries()[i]) == before[parent(i)],
                after_borrow(self.data) == *final(hole.data),
                after_borrow(self.keys) == *final(hole.keys),
            ensures
                hole.pos > start ==> link_ok(hole.entries(), c, hole.pos as int),
                rise(hole.entries(), c, start as int, hole.pos as int) == (
                    hole.entries(),
                    hole.pos as int,
                ),
            decreases hole.pos,
        {
            let above = (hole.pos() - 1) / 2;
            if compares_le(c, hole.element(), hole.get(above)) {
                break ;
            }
            let ghost h = hole.pos as int;
            let ghost s = hole.entries();
            proof {
                if ordered {
                    lemma_rise_step(s, c, n, h);
                }
                if sub {
                    lemma_subtree_rise_step(s, c, start as int, n, h);
                }
                if rooted {
                    lemma_descends_parent(start as int, h);
                }
                lemma_descends_up(h, pos as int);
                lemma_parent_off_path(h, pos as int);
            }
            hole.move_to(above);
            proof {
                let s2 = hole.entries();
                assert forall|i: int|
                    0 <= i < before.len() && !on_path(above as int, i, pos as int) implies (
                #[trigger] s2[i]) == before[i] by {
                    if descends(h, i) {
                        lemma_descends_up(h, i);
                    }
                    assert(!on_path(h, i, pos as int));
                    assert(s[i] == before[i]);
                }
                assert forall|i: int|
                    0 <= i < before.len() && on_path(above as int, i, pos as int) && i
                        != above implies (#[trigger] s2[i]) == before[parent(i)] by {
                    if i == h {
                        assert(s[above as int] == before[above as int]);
                    } else {
                        lemma_path_below(h, i, pos as int);
                        assert(s[i] == before[parent(i)]);
                    }
                }
                if rooted {
                    assert forall|i: int|
                        0 <= i < before.len() && !descends(start as int, i) implies (
                    #[trigger] s2[i]) == before[i] by {
                        assert(s[i] == before[i]);
                    }
                }
            }
        }
        let p = hole.pos();
        hole.fill();
        p
    }

    /// Moves the entry at `pos` toward the leaves while one of its children
    /// among the first `end` entries is greater than it.
    ///
    /// Of two children the greater is looked at; of two that rank alike, the
    /// first. No entry moves but `pos` and what descends from it. Where the
    /// first `end` entries were a heap but for the entry at `pos`, counting
    /// only parents at `lo` or after it, they are now in order.
    pub(crate) fn sift_down_range(&mut self, pos: usize, end: usize, Ghost(lo): Ghost<int>)
        requires
            obeys_key_model::<K>(),
            old(self).strategy.lawful(),
            index_consistent(old(self).data@, old(self).keys@),
            pos < end <= old(self).data@.len(),
        ensures
            final(self).strategy == old(self).strategy,
            index_consistent(final(self).data@, final(self).keys@),
            final(self).data@ == sink(old(self).data@, &old(self).strategy, pos as int, end as int),
            abstract_map(final(self).data@, final(self).keys@) == abstract_map(
                old(self).data@,
                old(self).keys@,
            ),
            final(self).data@.len() == old(self).data@.len(),
            forall|i: int|
                0 <= i < old(self).data@.len() && (!descends(pos as int, i) || i >= end) ==> (
                #[trigger] final(self).data@[i]) == old(self).data@[i],
            first_child_wins(old(self).data@, &old(self).strategy, pos as int, end as int) ==> {
                &&& final(self).data@[pos as int] == old(self).data@[2 * pos + 1]
                &&& final(self).data@[2 * pos + 2] == old(self).data@[2 * pos + 2]
            },
            (heap_except(old(self).data@, &old(self).strategy, lo, end as int, pos as int) && ((pos
                > 0 && parent(pos as int) >= lo) ==> link_ok(
                old(self).data@,
                &old(self).strategy,
                pos as int,
            ))) ==> ordered_from(final(self).data@, &final(self).strategy, lo, end as int),
            subtree_except(old(self).data@, &old(self).strategy, pos as int, end as int, pos as int)
                ==> subtree_ordered(
                final(self).data@,
                &final(self).strategy,
                pos as int,
                end as int,
            ),
    {
        proof {
            lemma_consistent_except(self.data@, self.keys@, pos as int);
            lemma_descends_self(pos as int);
            lemma_sibling_apart(pos as int);
        }
        let ghost before = self.data@;
        let ghost filled = abstract_map(self.data@, self.keys@);
        let ghost len = self.data@.len();
        let c = &self.strategy;
        let ghost ordered = heap_except(before, c, lo, end as int, pos as int) && ((pos > 0
            && parent(pos as int) >= lo) ==> link_ok(before, c, pos as int));
        let ghost tie = first_child_wins(before, c, pos as int, end as int);
        let ghost sub = subtree_except(before, c, pos as int, end as int, pos as int);
        let mut hole = Hole::new(&mut self.data, &mut self.keys, pos);
        let mut child = first_child(hole.pos(), end);
        while child < end - 1
            invariant
                obeys_key_model::<K>(),
                hole.inv(),
                c.lawful(),
                pos <= hole.pos < end,
                sink(hole.entries(), c, hole.pos as int, end as int) == sink(
                    before,
                    c,
                    pos as int,
                    end as int,
                ),
                descends(pos as int, hole.pos as int),
                forall|i: int|
                    0 <= i < len && (!descends(pos as int, i) || i >= end) ==> (
                    #[trigger] hole.entries()[i]) == before[i],
                hole.pos == pos ==> hole.entries() == before,
                tie && hole.pos != pos ==> {
                    &&& hole.entries()[pos as int] == before[2 * pos + 1]
                    &&& hole.entries()[2 * pos + 2] == before[2 * pos + 2]
                    &&& descends(2 * pos + 1, hole.pos as int)
                },
                sub ==> subtree_except(
                    hole.entries(),
                    c,
                    pos as int,
                    end as int,
                    hole.pos as int,
                ),
                sub && hole.pos > pos ==> link_ok(hole.entries(), c, hole.pos as int),
                sub == subtree_except(before, c, pos as int, end as int, pos as int),
                ordered ==> heap_except(hole.entries(), c, lo, end as int, hole.pos as int),
                ordered ==> ((hole.pos > 0 && parent(hole.pos as int) >= lo) ==> link_ok(
                    hole.entries(),
                    c,
                    hole.pos as int,
                )),
                child == (if 2 * hole.pos + 1 < end {
                    2 * hole.pos + 1
                } else {
                    end as int
                }),
                hole.filled_map() == filled,
                hole.entries().len() == len,
                end <= len,
                before == old(self).data@,
                tie == first_child_wins(before, c, pos as int, end as int),
                ordered == (heap_except(before, c, lo, end as int, pos as int) && ((pos > 0
                    && parent(pos as int) >= lo) ==> link_ok(before, c, pos as int))),
                filled == abstract_map(old(self).data@, old(self).keys@),
                len == old(self).data@.len(),
                c == &old(self).strategy,
                after_borrow(self.data) == *final(hole.data),
                after_borrow(self.keys) == *final(hole.keys),
                after_borrow(self.strategy) == old(self).strategy,
            decreases end - hole.pos,
        {
            let ghost h = hole.pos as int;
            let ghost s = hole.entries();
            // of the two children, the greater; the first where they rank alike
            if compares_lt(c, hole.get(child), hole.get(child + 1)) {
                child += 1;
            } else {
                proof {
                    lemma_flip(c, &s[2 * h + 1].1, &s[2 * h + 2].1);
                }
            }
            proof {
                assert(child == greater_child(s, c, h));
                lemma_flip(c, &s[2 * h + 1].1, &s[2 * h + 2].1);
            }
            // in place already: no child is greater
            if compares_ge(c, hole.element(), hole.get(child)) {
                proof {
                    let other = if child == 2 * h + 1 {
                        2 * h + 2
                    } else {
                        2 * h + 1
                    };
                    lemma_flip(c, &s[h].1, &s[child as int].1);
                    lemma_le_transitive(c, &s[other].1, &s[child as int].1, &s[h].1);
                    if ordered {
                        lemma_except_done(s, c, lo, end as int, h);
                    }
                    if sub {
                        lemma_subtree_done(s, c, pos as int, end as int, h);
                    }
                }
                hole.fill();
                return ;
            }
            proof {
                if ordered {
                    lemma_sink_step(s, c, lo, end as int, h, child as int);
                }
                if sub {
                    lemma_subtree_sink_step(s, c, pos as int, end as int, h, child as int);
                }
                lemma_descends_child(pos as int, h, child as int);
                lemma_sibling_apart(pos as int);
                if tie && h != pos {
                    lemma_descends_child(2 * pos + 1, h, child as int);
                }
                if tie && h == pos {
                    lemma_descends_self(2 * pos + 1);
                }
            }
            hole.move_to(child);
            child = first_child(hole.pos(), end);
        }
        let ghost h = hole.pos as int;
        let ghost s = hole.entries();
        if child == end - 1 && compares_lt(c, hole.element(), hole.get(child)) {
            proof {
                if ordered {
                    lemma_sink_step(s, c, lo, end as int, h, child as int);
                }
                if sub {
                    lemma_subtree_sink_step(s, c, pos as int, end as int, h, child as int);
                }
                lemma_descends_child(pos as int, h, child as int);
                lemma_sibling_apart(pos as int);
                if tie && h != pos {
                    lemma_descends_child(2 * pos + 1, h, child as int);
                }
            }
            hole.move_to(child);
        } else {
            proof {
                if child == end - 1 {
                    lemma_flip(c, &s[h].1, &s[child as int].1);
                }
            }
        }
        proof {
            if ordered {
                lemma_except_done(hole.entries(), c, lo, end as int, hole.pos as int);
            }
            if sub {
                lemma_subtree_done(hole.entries(), c, pos as int, end as int, hole.pos as int);
            }
        }
        hole.fill();
    }

    /// Moves the entry at `pos` toward the leaves while one of its children
    /// is greater than it.
    pub(crate) fn sift_down(&mut self, pos: usize, Ghost(lo): Ghost<int>)
        requires
            obeys_key_model::<K>(),
            old(self).strategy.lawful(),
            index_consistent(old(self).data@, old(self).keys@),
            pos < old(self).data@.len(),
        ensures
            final(self).strategy == old(self).strategy,
            index_consistent(final(self).data@, final(self).keys@),
            final(self).data@ == sink(
                old(self).data@,
                &old(self).strategy,
                pos as int,
                old(self).data@.len() as int,
            ),
            abstract_map(final(self).data@, final(self).keys@) == abstract_map(
                old(self).data@,
                old(self).keys@,
            ),
            final(self).data@.len() == old(self).data@.len(),
            forall|i: int|
                0 <= i < old(self).data@.len() && !descends(pos as int, i) ==> (
                #[trigger] final(self).data@[i]) == old(self).data@[i],
            first_child_wins(
                old(self).data@,
                &old(self).strategy,
                pos as int,
                old(self).data@.len() as int,
            ) ==> {
                &&& final(self).data@[pos as int] == old(self).data@[2 * pos + 1]
                &&& final(self).data@[2 * pos + 2] == old(self).data@[2 * pos + 2]
            },
            (heap_except(
                old(self).data@,
                &old(self).strategy,
                lo,
                old(self).data@.len() as int,
                pos as int,
            ) && ((pos > 0 && parent(pos as int) >= lo) ==> link_ok(
                old(self).data@,
                &old(self).strategy,
                pos as int,
            ))) ==> ordered_from(
                final(self).data@,
                &final(self).strategy,
                lo,
                final(self).data@.len() as int,
            ),
            subtree_except(
                old(self).data@,
                &old(self).strategy,
                pos as int,
                old(self).data@.len() as int,
                pos as int,
            ) ==> subtree_ordered(
                final(self).data@,
                &final(self).strategy,
                pos as int,
                final(self).data@.len() as int,
            ),
    {
        let len = self.data.len();
        self.sift_down_range(pos, len, Ghost(lo));
    }

    /// Moves the entry at `pos` all the way down to a leaf, always toward the
    /// greater child, then lets it rise again, but not above `pos`.
    ///
    /// This takes fewer comparisons than `sift_down` where the entry belongs
    /// near the bottom. No entry moves but `pos` and what descends from it.
    /// Where the storage was a heap but for the entry at `pos`, which was not
    /// greater than its parent, it is a heap.
    pub(crate) fn sift_down_to_bottom(&mut self, pos: usize)
        requires
            obeys_key_model::<K>(),
            old(self).strategy.lawful(),
            index_consistent_except(old(self).data@, old(self).keys@, pos as int),
        ensures
            final(self).strategy == old(self).strategy,
            index_consistent(final(self).data@, final(self).keys@),
            final(self).data@ == sink_and_rise(old(self).data@, &old(self).strategy, pos as int),
            abstract_map(final(self).data@, final(self).keys@) == abstract_map(
                old(self).data@,
                old(self).keys@.insert(old(self).data@[pos as int].0, pos),
            ),
            final(self).data@.len() == old(self).data@.len(),
            forall|i: int|
                0 <= i < old(self).data@.len() && !descends(pos as int, i) ==> (
                #[trigger] final(self).data@[i]) == old(self).data@[i],
            (heap_except(
                old(self).data@,
                &old(self).strategy,
                0,
                old(self).data@.len() as int,
                pos as int,
            ) && (pos > 0 ==> link_ok(old(self).data@, &old(self).strategy, pos as int)))
                ==> heap_ordered(final(self).data@, &final(self).strategy),
            subtree_except(
                old(self).data@,
                &old(self).strategy,
                pos as int,
                old(self).data@.len() as int,
                pos as int,
            ) ==> subtree_ordered(
                final(self).data@,
                &final(self).strategy,
                pos as int,
                final(self).data@.len() as int,
            ),
    {
        let end = self.data.len();
        let start = pos;
        let ghost before = self.data@;
        let ghost filled = abstract_map(self.data@, self.keys@.insert(self.data@[pos as int].0, pos));
        let c = &self.strategy;
        let ghost ordered = heap_except(before, c, 0, end as int, pos as int) && (pos > 0 ==> link_ok(
            before,
            c,
            pos as int,
        ));
        let ghost sub = subtree_except(before, c, pos as int, end as int, pos as int);
        let mut hole = Hole::new(&mut self.data, &mut self.keys, pos);
        let mut child = first_child(hole.pos(), end);
        proof {
            lemma_descends_self(start as int);
        }
        while child < end - 1
            invariant
                obeys_key_model::<K>(),
                hole.inv(),
                c.lawful(),
                sink_to_leaf(hole.entries(), c, hole.pos as int, end as int) == sink_to_leaf(
                    before,
                    c,
                    pos as int,
                    end as int,
                ),
                ordered ==> heap_except(hole.entries(), c, 0, end as int, hole.pos as int),
                sub ==> subtree_except(
                    hole.entries(),
                    c,
                    start as int,
                    end as int,
                    hole.pos as int,
                ),
                (ordered && hole.pos == start && start > 0) ==> link_ok(
                    hole.entries(),
                    c,
                    start as int,
                ),
                descends(start as int, hole.pos as int),
                start <= hole.pos < end,
                child == (if 2 * hole.pos + 1 < end {
                    2 * hole.pos + 1
                } else {
                    end as int
                }),
                hole.filled_map() == filled,
                hole.entries().len() == end,
                before.len() == end,
                hole.entries()[hole.pos as int] == before[start as int],
                forall|i: int|
                    0 <= i < end && !descends(start as int, i) ==> (#[trigger] hole.entries()[i])
                        == before[i],
                c == &old(self).strategy,
                after_borrow(self.data) == *final(hole.data),
                after_borrow(self.keys) == *final(hole.keys),
                after_borrow(self.strategy) == old(self).strategy,
            decreases end - hole.pos,
        {
            let ghost h = hole.pos as int;
            let ghost s = hole.entries();
            if compares_lt(c, hole.get(child), hole.get(child + 1)) {
                child += 1;
            } else {
                proof {
                    lemma_flip(c, &s[2 * h + 1].1, &s[2 * h + 2].1);
                }
            }
            proof {
                assert(child == greater_child(s, c, h));
                lemma_flip(c, &s[2 * h + 1].1, &s[2 * h + 2].1);
                if ordered {
                    lemma_sink_step(s, c, 0, end as int, h, child as int);
                }
                if sub {
                    lemma_subtree_sink_step(s, c, start as int, end as int, h, child as int);
                }
                lemma_descends_child(start as int, h, child as int);
            }
            hole.move_to(child);
            child = first_child(hole.pos(), end);
        }
        if child == end - 1 {
            proof {
                if ordered {
                    lemma_sink_step(
                        hole.entries(),
                        c,
                        0,
                        end as int,
                        hole.pos as int,
                        child as int,
                    );
                }
                if sub {
                    lemma_subtree_sink_step(
                        hole.entries(),
                        c,
                        start as int,
                        end as int,
                        hole.pos as int,
                        child as int,
                    );
                }
                lemma_descends_child(start as int, hole.pos as int, child as int);
            }
            hole.move_to(child);
        }
        let bottom = hole.pos();
        let ghost low = hole.entries();
        hole.fill();
        proof {
            lemma_consistent_except(self.data@, self.keys@, bottom as int);
        }
        let p = self.sift_up(start, bottom, Ghost(end as int));
        proof {
            if ordered {
                if p == start && start > 0 {
                    let above = parent(start as int);
                    assert(!descends(start as int, above));
                    assert(low[above] == before[above]);
                    assert(self.data@[above] == low[above]);
                    assert(self.data@[start as int] == before[start as int]);
                }
                lemma_except_done(self.data@, &self.strategy, 0, end as int, p as int);
            }
            if sub {
                lemma_subtree_done(self.data@, &self.strategy, start as int, end as int, p as int);
            }
            assert forall|i: int| 0 <= i < end && !descends(start as int, i) implies (
            #[trigger] self.data@[i]) == before[i] by {
                assert(low[i] == before[i]);
            }
        }
    }
}

/// The index of the first child of `pos` where it is among the first `end`
/// entries, and `end` where it is not.
fn first_child(pos: usize, end: usize) -> (child: usize)
    ensures
        child == (if 2 * pos + 1 < end {
            2 * pos + 1
        } else {
            end as int
        }),
{
    if pos < end / 2 {
        2 * pos + 1
    } else {
        end
    }
}

} // verus!
