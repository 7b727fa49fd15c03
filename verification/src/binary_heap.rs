//! The indexed binary heap.

use crate::comparator::{
    compares_le, le, lemma_flip, lt, Compare, FnComparator, KeyComparator, MaxComparator,
    MinComparator, Order,
};
use crate::heap_order::{
    heap_except, heap_ordered, lemma_descends_from_root, lemma_except_at_end,
    lemma_except_at_front, lemma_except_done, lemma_except_same_elsewhere, lemma_ordered_is_except,
    lemma_ordered_same_prefix, lemma_replace_keeps_except, lemma_root_is_greatest, link_ok,
    ordered_from, parent,
};
use crate::index::{
    abstract_map, clones_exactly, distinct_keys, index_consistent, index_matches,
    lemma_consistent_except, lemma_index_unique, lemma_consistent_len, lemma_pairs_map_consistent,
    lemma_pairs_map_key_from, lemma_pairs_map_prepend, lemma_push_consistent,
    lemma_remove_consistent, lemma_replace_consistent, pairs_map, vec_capacity, vec_reserve_exact,
    vec_shrink_to, vec_shrink_to_fit, without,
};
use crate::iter::{
    Drain, IntoIter, IntoIterSorted, IntoKeys, IntoValues, RefIter, RefKeys, RefValues,
};
use crate::rebuild_rule::better_to_rebuild;
use crate::sift::{
    absorbed, absorbing_replaces, appended, first_child_wins, gathered, heapified,
    heapified_from, lemma_heap_stays, lemma_heapified_stays, lemma_place_of, resettled, rise,
    risen_from, settled, sink, sink_and_rise, tail_heapified,
};
use std::collections::HashMap;
use std::hash::Hash;
use vstd::laws_cmp::obeys_cmp;
use vstd::layout::size_of;
use vstd::prelude::*;
use vstd::std_specs::hash::obeys_key_model;

verus! {

broadcast use vstd::std_specs::hash::group_hash_axioms;

/// A priority queue kept as a binary heap, in which every entry has a key.
///
/// The entries are `(key, value)` pairs. The comparator `C` orders the values,
/// and the entry that it ranks highest is at the root. An index from keys to
/// positions finds any entry at once, so that an entry can be read, replaced
/// or removed by its key.
#[derive(Debug)]
pub struct BinaryHeap<K, T, C = MaxComparator> {
    pub(crate) data: Vec<(K, T)>,
    pub(crate) strategy: C,
    pub(crate) keys: HashMap<K, usize>,
}

impl<K, T, C> View for BinaryHeap<K, T, C> {
    type V = Map<K, T>;

    /// The heap as a map from each key to its value.
    open spec fn view(&self) -> Map<K, T> {
        abstract_map(self.entries(), self.positions())
    }
}

impl<K, T, C> BinaryHeap<K, T, C> {
    /// The entries in the order in which they are stored; the root is first.
    pub closed spec fn entries(&self) -> Seq<(K, T)> {
        self.data@
    }

    /// The index: the position recorded for each key.
    pub closed spec fn positions(&self) -> Map<K, usize> {
        self.keys@
    }

    /// The comparator that orders the values.
    pub closed spec fn comparator(&self) -> C {
        self.strategy
    }
}

impl<K: Clone, T: Clone, C: Clone> Clone for BinaryHeap<K, T, C> {
    /// A heap with clones of the entries and of the comparator, and with the
    /// same index.
    fn clone(&self) -> (copy: Self)
        ensures
            copy.positions() == self.positions(),
            copy.entries().len() == self.entries().len(),
            forall|i: int|
                0 <= i < self.entries().len() ==> cloned(
                    #[trigger] self.entries()[i],
                    copy.entries()[i],
                ),
            cloned(self.comparator(), copy.comparator()),
    {
        BinaryHeap {
            data: self.data.clone(),
            strategy: self.strategy.clone(),
            keys: self.keys.clone(),
        }
    }
}

impl<K: Hash + Eq, T, C: Compare<T> + Default> Default for BinaryHeap<K, T, C> {
    /// An empty heap under the default comparator of its type.
    fn default() -> (heap: Self)
        ensures
            heap.entries() == Seq::<(K, T)>::empty(),
            heap.positions() == Map::<K, usize>::empty(),
            call_ensures(C::default, (), heap.comparator()),
            obeys_key_model::<K>() && heap.comparator().lawful() ==> heap.wf(),
    {
        BinaryHeap::new()
    }
}

impl<K: Hash + Eq, T, C: Compare<T>> BinaryHeap<K, T, C> {
    /// The heap is well formed: keys behave as map keys, the comparator is
    /// lawful, the index matches the storage, and no entry is greater than its
    /// parent.
    pub open spec fn wf(&self) -> bool {
        &&& obeys_key_model::<K>()
        &&& self.comparator().lawful()
        &&& index_consistent(self.entries(), self.positions())
        &&& heap_ordered(self.entries(), &self.comparator())
    }

    /// The heap is well formed but for the order of its entries: keys behave
    /// as map keys, the comparator is lawful and the index matches the
    /// storage.
    pub open spec fn wf_unordered(&self) -> bool {
        &&& obeys_key_model::<K>()
        &&& self.comparator().lawful()
        &&& index_consistent(self.entries(), self.positions())
    }

    /// The heap is well formed but for the value at `pos`, which may have
    /// changed: the entry at `pos` may be greater than its parent and less
    /// than its children, and nothing else is out of order.
    pub open spec fn wf_except_at(&self, pos: int) -> bool {
        &&& self.wf_unordered()
        &&& heap_except(self.entries(), &self.comparator(), 0, self.entries().len() as int, pos)
    }

    /// The heap is well formed but for the value under `key`, which may have
    /// changed.
    pub open spec fn wf_except(&self, key: K) -> bool {
        &&& self.positions().contains_key(key)
        &&& self.wf_except_at(self.positions()[key] as int)
    }

    /// Makes a heap of entries in any order: every entry that has a child
    /// sinks, the last such entry first and the root last.
    ///
    /// This puts the heap in order after any number of its values have
    /// changed.
    pub fn rebuild(&mut self)
        requires
            old(self).wf_unordered(),
        ensures
            final(self).wf(),
            final(self).comparator() == old(self).comparator(),
            final(self)@ == old(self)@,
            final(self).entries().len() == old(self).entries().len(),
            final(self).entries() == heapified(old(self).entries(), &old(self).comparator()),
            old(self).wf() ==> final(self).entries() == old(self).entries() && final(self).positions()
                == old(self).positions(),
    {
        proof {
            if heap_ordered(self.data@, &self.strategy) {
                lemma_heapified_stays(
                    self.data@,
                    &self.strategy,
                    self.data@.len() as int / 2,
                );
            }
        }
        let ghost found = self.data@;
        let ghost index = self.keys@;
        let mut n = self.data.len() / 2;
        while n > 0
            invariant
                obeys_key_model::<K>(),
                heapified_from(self.data@, &self.strategy, n as int, self.data@.len() as int)
                    == heapified(old(self).data@, &old(self).strategy),
                self.strategy.lawful(),
                self.strategy == old(self).strategy,
                index_consistent(self.data@, self.keys@),
                self@ == old(self)@,
                self.data@.len() == old(self).data@.len(),
                n <= self.data@.len() / 2,
                ordered_from(self.data@, &self.strategy, n as int, self.data@.len() as int),
            decreases n,
        {
            n -= 1;
            proof {
                lemma_except_at_front(self.data@, &self.strategy, n as int, self.data@.len() as int);
            }
            self.sift_down(n, Ghost(n as int));
        }
        proof {
            if heap_ordered(found, &self.strategy) {
                lemma_index_unique(found, index, self.keys@);
            }
        }
    }

    /// Makes a heap of entries of which the first `start` are a heap already.
    ///
    /// Either every entry after them rises in turn, or the whole is rebuilt,
    /// whichever `better_to_rebuild` expects to take fewer comparisons.
    fn rebuild_tail(&mut self, start: usize)
        requires
            obeys_key_model::<K>(),
            old(self).strategy.lawful(),
            index_consistent(old(self).data@, old(self).keys@),
            start <= old(self).data@.len(),
            ordered_from(old(self).data@, &old(self).strategy, 0, start as int),
        ensures
            final(self).strategy == old(self).strategy,
            index_consistent(final(self).data@, final(self).keys@),
            final(self)@ == old(self)@,
            final(self).data@.len() == old(self).data@.len(),
            heap_ordered(final(self).data@, &final(self).strategy),
            final(self).data@ == tail_heapified(old(self).data@, &old(self).strategy, start as int),
            start == old(self).data@.len() ==> {
                &&& final(self).data@ == old(self).data@
                &&& final(self).keys@ == old(self).keys@
            },
    {
        let len = self.data.len();
        if start == len {
            return ;
        }
        let tail_len = len - start;
        if better_to_rebuild(start, tail_len) {
            self.rebuild();
        } else {
            let mut i = start;
            while i < len
                invariant
                    obeys_key_model::<K>(),
                    self.strategy.lawful(),
                    self.strategy == old(self).strategy,
                    index_consistent(self.data@, self.keys@),
                    self@ == old(self)@,
                    self.data@.len() == old(self).data@.len(),
                    len == self.data@.len(),
                    start <= i <= len,
                    ordered_from(self.data@, &self.strategy, 0, i as int),
                    risen_from(self.data@, &self.strategy, i as int, len as int) == risen_from(
                        old(self).data@,
                        &old(self).strategy,
                        start as int,
                        len as int,
                    ),
                decreases len - i,
            {
                proof {
                    lemma_except_at_end(self.data@, &self.strategy, i + 1);
                    lemma_consistent_except(self.data@, self.keys@, i as int);
                    lemma_descends_from_root(i as int);
                }
                let p = self.sift_up(0, i, Ghost(i + 1));
                proof {
                    lemma_except_done(self.data@, &self.strategy, 0, i + 1, p as int);
                }
                i += 1;
            }
        }
    }

    /// Puts the entry under `key` where it belongs after its value has
    /// changed.
    ///
    /// The entry rises while it is greater than its parent; where it does
    /// not rise at all, it sinks while a child is greater than it.
    pub fn update(&mut self, key: &K)
        requires
            old(self).wf_except(*key),
        ensures
            final(self).wf(),
            final(self)@ == old(self)@,
            final(self).comparator() == old(self).comparator(),
            final(self).entries().len() == old(self).entries().len(),
            final(self).entries() == settled(
                old(self).entries(),
                &old(self).comparator(),
                old(self).positions()[*key] as int,
            ),
            old(self).wf() ==> {
                &&& final(self).entries() == old(self).entries()
                &&& final(self).positions() == old(self).positions()
            },
    {
        let pos = self.position(key);
        let ghost found = self.data@;
        let ghost index = self.keys@;
        proof {
            lemma_consistent_except(self.data@, self.keys@, pos as int);
            lemma_descends_from_root(pos as int);
            if heap_ordered(found, &self.strategy) {
                lemma_heap_stays(found, &self.strategy, pos as int);
            }
        }
        let p = self.sift_up(0, pos, Ghost(self.data@.len() as int));
        if p != pos {
            proof {
                lemma_except_done(
                    self.data@,
                    &self.strategy,
                    0,
                    self.data@.len() as int,
                    p as int,
                );
            }
            return ;
        }
        self.sift_down(pos, Ghost(0));
        proof {
            if heap_ordered(found, &self.strategy) {
                lemma_index_unique(found, index, self.keys@);
            }
        }
    }

    /// The position recorded for `key`, which the heap holds.
    fn position(&self, key: &K) -> (pos: usize)
        requires
            obeys_key_model::<K>(),
            self.keys@.contains_key(*key),
        ensures
            pos == self.keys@[*key],
    {
        match self.keys.get(key) {
            Some(p) => *p,
            None => 0,
        }
    }

    /// Removes the entry at the root and returns it; `None` where the heap
    /// is empty.
    ///
    /// The last entry takes the place of the root, sinks to a leaf and rises
    /// again to where it belongs.
    pub fn pop_with_key(&mut self) -> (top: Option<(K, T)>)
        requires
            old(self).wf() || old(self).wf_except_at(0),
        ensures
            final(self).wf(),
            final(self).comparator() == old(self).comparator(),
            old(self).entries().len() == 0 ==> {
                &&& top.is_none()
                &&& final(self).entries() == old(self).entries()
                &&& final(self).positions() == old(self).positions()
            },
            old(self).entries().len() > 0 ==> top == Some(old(self).entries()[0]),
            old(self).entries().len() > 1 ==> final(self).entries() == sink_and_rise(
                without(old(self).entries(), 0),
                &old(self).comparator(),
                0,
            ),
            top.is_none() ==> old(self)@ == Map::<K, T>::empty(),
            top matches Some(kv) ==> {
                &&& old(self)@.contains_key(kv.0)
                &&& old(self)@[kv.0] == kv.1
                &&& final(self)@ == old(self)@.remove(kv.0)
                &&& final(self).entries().len() == old(self).entries().len() - 1
            },
            top matches Some(kv) ==> old(self).wf() ==> forall|k: K| #[trigger]
                old(self)@.contains_key(k) ==> le(&old(self).comparator(), &old(self)@[k], &kv.1),
    {
        proof {
            self.lemma_index_matches_storage();
            if self.wf() {
                self.lemma_top_is_greatest();
                if self.data@.len() > 0 {
                    lemma_ordered_is_except(
                        self.data@,
                        &self.strategy,
                        0,
                        self.data@.len() as int,
                        0,
                    );
                }
            }
        }
        let ghost s = self.data@;
        let ghost m = self.keys@;
        match self.data.pop() {
            Some(mut item) => {
                proof {
                    lemma_remove_consistent(s, m, 0);
                }
                if !self.data.is_empty() {
                    core::mem::swap(&mut item, &mut self.data[0]);
                    self.keys.remove(&item.0);
                    proof {
                        assert(self.data@ =~= without(s, 0));
                        lemma_except_same_elsewhere(
                            s,
                            self.data@,
                            &self.strategy,
                            0,
                            s.len() as int,
                            s.len() - 1,
                            0,
                        );
                    }
                    self.sift_down_to_bottom(0);
                } else {
                    self.keys.remove(&item.0);
                    proof {
                        assert(self.data@ =~= without(s, 0));
                    }
                }
                Some(item)
            },
            None => None,
        }
    }

    /// Removes the entry at the root and returns its value; `None` where the
    /// heap is empty.
    pub fn pop(&mut self) -> (top: Option<T>)
        requires
            old(self).wf() || old(self).wf_except_at(0),
        ensures
            final(self).wf(),
            final(self).comparator() == old(self).comparator(),
            old(self).entries().len() == 0 ==> {
                &&& top.is_none()
                &&& final(self).entries() == old(self).entries()
                &&& final(self).positions() == old(self).positions()
            },
            old(self).entries().len() > 0 ==> top == Some(old(self).entries()[0].1),
            old(self).entries().len() > 1 ==> final(self).entries() == sink_and_rise(
                without(old(self).entries(), 0),
                &old(self).comparator(),
                0,
            ),
            top.is_none() ==> old(self)@ == Map::<K, T>::empty(),
            top matches Some(v) ==> exists|k: K| #[trigger]
                old(self)@.contains_key(k) && old(self)@[k] == v && final(self)@ == old(self)@.remove(
                    k,
                ),
            old(self).entries().len() > 0 ==> {
                &&& final(self)@ == old(self)@.remove(old(self).entries()[0].0)
                &&& final(self).entries().len() == old(self).entries().len() - 1
            },
            top matches Some(v) ==> old(self).wf() ==> forall|k: K| #[trigger]
                old(self)@.contains_key(k) ==> le(&old(self).comparator(), &old(self)@[k], &v),
    {
        match self.pop_with_key() {
            Some(kv) => {
                proof {
                    assert(old(self)@.contains_key(kv.0) && old(self)@[kv.0] == kv.1);
                    assert(self@ == old(self)@.remove(kv.0));
                }
                Some(kv.1)
            },
            None => None,
        }
    }

    /// Whether the heap holds an entry under `key`.
    pub fn contains_key(&self, key: &K) -> (found: bool)
        requires
            self.wf_unordered(),
        ensures
            found == self@.contains_key(*key),
    {
        self.keys.contains_key(key)
    }

    /// The value under `key`; `None` where the heap holds no such key.
    pub fn get(&self, key: &K) -> (value: Option<&T>)
        requires
            self.wf_unordered(),
        ensures
            match value {
                Some(v) => self@.contains_key(*key) && *v == self@[*key],
                None => !self@.contains_key(*key),
            },
    {
        match self.keys.get(key) {
            Some(index) => Some(&self.data[*index].1),
            None => None,
        }
    }

    /// Removes the entry under `key` and returns it; `None`, and no change,
    /// where the heap holds no such key.
    ///
    /// The last entry takes the place of the removed one. It rises while it
    /// is greater than its parent; where it does not rise at all, it sinks to
    /// a leaf and rises again to where it belongs.
    pub fn remove(&mut self, key: &K) -> (removed: Option<(K, T)>)
        requires
            old(self).wf(),
        ensures
            final(self).wf(),
            final(self).comparator() == old(self).comparator(),
            final(self)@ == old(self)@.remove(*key),
            removed == (if old(self)@.contains_key(*key) {
                Some((*key, old(self)@[*key]))
            } else {
                None
            }),
            removed.is_none() ==> {
                &&& final(self).entries() == old(self).entries()
                &&& final(self).positions() == old(self).positions()
            },
            removed.is_some() ==> final(self).entries().len() == old(self).entries().len() - 1,
            removed.is_some() ==> final(self).entries() == (if old(self).positions()[*key]
                == old(self).entries().len() - 1 {
                old(self).entries().drop_last()
            } else {
                resettled(
                    without(old(self).entries(), old(self).positions()[*key] as int),
                    &old(self).comparator(),
                    old(self).positions()[*key] as int,
                )
            }),
    {
        let ghost s = self.data@;
        let ghost m = self.keys@;
        let pos = match self.keys.get(key) {
            Some(p) => *p,
            None => {
                proof {
                    assert(self@.remove(*key) =~= self@);
                }
                return None;
            },
        };
        match self.data.pop() {
            Some(mut item) => {
                proof {
                    lemma_remove_consistent(s, m, pos as int);
                }
                if pos < self.data.len() {
                    core::mem::swap(&mut item, &mut self.data[pos]);
                    self.keys.remove(&item.0);
                    proof {
                        assert(self.data@ =~= without(s, pos as int));
                        lemma_ordered_same_prefix(s, s.drop_last(), &self.strategy, 0, s.len() - 1);
                        lemma_replace_keeps_except(
                            s.drop_last(),
                            &self.strategy,
                            0,
                            s.len() - 1,
                            pos as int,
                            s.last(),
                        );
                        lemma_descends_from_root(pos as int);
                    }
                    let p = self.sift_up(0, pos, Ghost(s.len() - 1));
                    if p == pos {
                        proof {
                            lemma_consistent_except(self.data@, self.keys@, pos as int);
                        }
                        self.sift_down_to_bottom(pos);
                    } else {
                        proof {
                            lemma_except_done(self.data@, &self.strategy, 0, s.len() - 1, p as int);
                        }
                    }
                } else {
                    self.keys.remove(&item.0);
                    proof {
                        assert(self.data@ =~= without(s, pos as int));
                        lemma_ordered_same_prefix(s, self.data@, &self.strategy, 0, s.len() - 1);
                    }
                }
                Some(item)
            },
            None => None,
        }
    }

    /// The value at the root, for the caller to change; `None` where the heap
    /// is empty.
    ///
    /// A change may leave the root out of order: `update_top` puts it where
    /// it belongs.
    pub fn peek_mut(&mut self) -> (top: Option<&mut T>)
        requires
            old(self).wf_unordered(),
        ensures
            top.is_some() == (old(self).entries().len() > 0),
            top.is_none() ==> *final(self) == *old(self),
            top matches Some(v) ==> *v == old(self).entries()[0].1,
            top matches Some(v) ==> final(self).entries() == old(self).entries().update(
                0,
                (old(self).entries()[0].0, *final(v)),
            ),
            top matches Some(v) ==> final(self).positions() == old(self).positions(),
            top matches Some(v) ==> final(self).comparator() == old(self).comparator(),
            top matches Some(v) ==> final(self)@ == old(self)@.insert(
                old(self).entries()[0].0,
                *final(v),
            ),
            top matches Some(v) ==> final(self).wf_unordered(),
            top matches Some(v) ==> (old(self).wf() || old(self).wf_except_at(0))
                ==> final(self).wf_except_at(0),
    {
        if self.data.len() == 0 {
            None
        } else {
            let ghost s = self.data@;
            let ghost m = self.keys@;
            proof {
                if self.wf() {
                    lemma_ordered_is_except(s, &self.strategy, 0, s.len() as int, 0);
                }
            }
            let top = &mut self.data[0].1;
            proof {
                let v = *final(top);
                lemma_replace_consistent(s, m, 0, v);
                if heap_except(s, &self.strategy, 0, s.len() as int, 0) {
                    lemma_except_same_elsewhere(
                        s,
                        s.update(0, (s[0].0, v)),
                        &self.strategy,
                        0,
                        s.len() as int,
                        s.len() as int,
                        0,
                    );
                }
            }
            Some(top)
        }
    }

    /// Puts the entry at the root where it belongs after its value has
    /// changed: it sinks while a child is greater than it.
    pub fn update_top(&mut self)
        requires
            old(self).wf_except_at(0),
        ensures
            final(self).wf(),
            final(self)@ == old(self)@,
            final(self).comparator() == old(self).comparator(),
            final(self).entries().len() == old(self).entries().len(),
            final(self).entries() == sink(
                old(self).entries(),
                &old(self).comparator(),
                0,
                old(self).entries().len() as int,
            ),
            first_child_wins(
                old(self).entries(),
                &old(self).comparator(),
                0,
                old(self).entries().len() as int,
            ) ==> final(self).entries()[0] == old(self).entries()[1] && final(self).entries()[2]
                == old(self).entries()[2],
    {
        self.sift_down(0, Ghost(0));
    }

    /// The value under `key`, for the caller to change; `None` where the heap
    /// holds no such key.
    ///
    /// A change may leave the entry out of order: `update` puts it where it
    /// belongs.
    pub fn get_mut(&mut self, key: &K) -> (value: Option<&mut T>)
        requires
            old(self).wf_unordered(),
        ensures
            value.is_some() == old(self)@.contains_key(*key),
            value.is_none() ==> *final(self) == *old(self),
            value matches Some(v) ==> *v == old(self)@[*key],
            value matches Some(v) ==> final(self).entries() =~= old(self).entries().update(
                old(self).positions()[*key] as int,
                (*key, *final(v)),
            ),
            value matches Some(v) ==> final(self).positions() == old(self).positions(),
            value matches Some(v) ==> final(self).comparator() == old(self).comparator(),
            value matches Some(v) ==> final(self)@ == old(self)@.insert(*key, *final(v)),
            value matches Some(v) ==> final(self).wf_unordered(),
            value matches Some(v) ==> (old(self).wf() || old(self).wf_except(*key))
                ==> final(self).wf_except(*key),
    {
        let found = match self.keys.get(key) {
            Some(p) => Some(*p),
            None => None,
        };
        match found {
            Some(pos) => {
                let ghost s = self.data@;
                let ghost m = self.keys@;
                proof {
                    assert(m.contains_key(*key));
                    assert(s[pos as int].0 == *key);
                    assert(self@.contains_key(*key));
                    if self.wf() {
                        lemma_ordered_is_except(s, &self.strategy, 0, s.len() as int, pos as int);
                    }
                }
                let value = &mut self.data[pos].1;
                proof {
                    let v = *final(value);
                    lemma_replace_consistent(s, m, pos as int, v);
                    if heap_except(s, &self.strategy, 0, s.len() as int, pos as int) {
                        lemma_except_same_elsewhere(
                            s,
                            s.update(pos as int, (s[pos as int].0, v)),
                            &self.strategy,
                            0,
                            s.len() as int,
                            s.len() as int,
                            pos as int,
                        );
                    }
                }
                Some(value)
            },
            None => None,
        }
    }

    /// The key and the value of the entry stored at `index`, the value for
    /// the caller to change; `None` where the heap has no such entry.
    ///
    /// After the values of any number of entries have changed, `rebuild`
    /// puts the heap in order.
    pub fn entry_mut(&mut self, index: usize) -> (entry: Option<(&K, &mut T)>)
        requires
            old(self).wf_unordered(),
        ensures
            match entry {
                Some((k, v)) => {
                    &&& index < old(self).entries().len()
                    &&& *k == old(self).entries()[index as int].0
                    &&& *v == old(self).entries()[index as int].1
                    &&& final(self).entries() == old(self).entries().update(
                        index as int,
                        (*k, *final(v)),
                    )
                    &&& final(self).positions() == old(self).positions()
                    &&& final(self).comparator() == old(self).comparator()
                    &&& final(self).wf_unordered()
                },
                None => index >= old(self).entries().len() && *final(self) == *old(self),
            },
    {
        if index < self.data.len() {
            let ghost s = self.data@;
            let ghost m = self.keys@;
            let entry = &mut self.data[index];
            let key = &entry.0;
            let value = &mut entry.1;
            proof {
                lemma_replace_consistent(s, m, index as int, *final(value));
            }
            Some((key, value))
        } else {
            None
        }
    }

    /// In a well-formed heap the index has exactly one key for each entry,
    /// finds each entry under its key, and no two entries have the same key;
    /// the map that the heap stands for holds exactly the stored pairs.
    pub proof fn lemma_index_matches_storage(&self)
        requires
            self.wf_unordered(),
        ensures
            self.positions().dom().finite(),
            self.positions().dom().len() == self.entries().len(),
            self@.dom() == self.positions().dom(),
            self@.len() == self.entries().len(),
            self.entries().len() == 0 <==> self@ == Map::<K, T>::empty(),
            distinct_keys(self.entries()),
            pairs_map(self.entries()) == self@,
            forall|i: int|
                0 <= i < self.entries().len() ==> self.positions()[(#[trigger] self.entries()[i]).0]
                    == i && self@.contains_key(self.entries()[i].0) && self@[self.entries()[i].0]
                    == self.entries()[i].1,
    {
        vstd::std_specs::hash::axiom_hashmap_view_finite_dom(self.keys);
        lemma_consistent_len(self.entries(), self.positions());
        lemma_pairs_map_consistent(self.entries(), self.positions());
        assert(self@.dom() =~= self.positions().dom());
        if self.entries().len() == 0 {
            assert(self@ =~= Map::<K, T>::empty());
        } else {
            assert(self@.contains_key(self.entries()[0].0));
        }
    }

    /// In a well-formed heap the value of a parent is never less than the
    /// value of its child.
    pub proof fn lemma_parent_not_less(&self, i: int)
        requires
            self.wf(),
            0 < i < self.entries().len(),
        ensures
            le(&self.comparator(), &self.entries()[i].1, &self.entries()[parent(i)].1),
            !lt(&self.comparator(), &self.entries()[parent(i)].1, &self.entries()[i].1),
    {
        assert(link_ok(self.entries(), &self.comparator(), i));
        lemma_flip(&self.comparator(), &self.entries()[parent(i)].1, &self.entries()[i].1);
    }

    /// No value in a well-formed heap is greater than the value at the root.
    pub proof fn lemma_top_is_greatest(&self)
        requires
            self.wf(),
        ensures
            forall|k: K| #[trigger]
                self@.contains_key(k) ==> le(&self.comparator(), &self@[k], &self.entries()[0].1),
    {
        assert forall|k: K| #[trigger] self@.contains_key(k) implies le(
            &self.comparator(),
            &self@[k],
            &self.entries()[0].1,
        ) by {
            assert(self.positions().contains_key(k));
            lemma_root_is_greatest(self.entries(), &self.comparator(), self.positions()[k] as int);
        }
    }
}

impl<K: Hash + Eq, T, C: Compare<T>> BinaryHeap<K, T, C> {
    /// Makes a heap of the given parts: the entries, the index and the
    /// comparator.
    ///
    /// The index must match the entries. Where `rebuild` is set the entries
    /// may be in any order and are made a heap; where it is not, they are
    /// taken as they are.
    pub fn new_from_data_raw(
        data: Vec<(K, T)>,
        keys: HashMap<K, usize>,
        comparator: C,
        rebuild: bool,
    ) -> (heap: Self)
        requires
            index_consistent(data@, keys@),
            rebuild ==> obeys_key_model::<K>() && comparator.lawful(),
        ensures
            heap.comparator() == comparator,
            heap@ == abstract_map(data@, keys@),
            heap.entries().len() == data@.len(),
            index_consistent(heap.entries(), heap.positions()),
            rebuild ==> heap.wf(),
            rebuild ==> heap.entries() == heapified(data@, &comparator),
            !rebuild ==> heap.entries() == data@ && heap.positions() == keys@,
    {
        let mut heap = BinaryHeap { data, strategy: comparator, keys };
        if rebuild && !heap.data.is_empty() {
            heap.rebuild();
        }
        heap
    }

    /// Makes a heap of the given parts where they form one: the index matches
    /// the entries, and no entry is greater than its parent. The entries stay
    /// in the order in which they are given. Where the parts do not form a
    /// heap the result is `None`.
    pub fn from_parts(data: Vec<(K, T)>, keys: HashMap<K, usize>, comparator: C) -> (heap: Option<
        Self,
    >)
        requires
            obeys_key_model::<K>(),
            comparator.lawful(),
        ensures
            heap.is_some() == (index_consistent(data@, keys@) && heap_ordered(data@, &comparator)),
            heap matches Some(h) ==> h.wf() && h.entries() == data@ && h.positions() == keys@
                && h.comparator() == comparator,
    {
        if index_matches(&data, &keys) && is_heap(&data, &comparator) {
            Some(BinaryHeap { data, strategy: comparator, keys })
        } else {
            None
        }
    }

    /// Replaces the comparator and makes the entries a heap under the new
    /// one.
    pub fn replace_cmp(&mut self, comparator: C)
        requires
            old(self).wf_unordered(),
            comparator.lawful(),
        ensures
            final(self).wf(),
            final(self).comparator() == comparator,
            final(self)@ == old(self)@,
            final(self).entries().len() == old(self).entries().len(),
            final(self).entries() == heapified(old(self).entries(), &comparator),
    {
        self.replace_cmp_raw(comparator, true);
    }

    /// Replaces the comparator. Where `rebuild` is set the entries are made a
    /// heap under the new comparator. Where it is not, they stay as they are:
    /// the heap is then in order only where the entries are a heap under the
    /// new comparator already, and otherwise `rebuild` puts it in order.
    pub fn replace_cmp_raw(&mut self, comparator: C, rebuild: bool)
        requires
            old(self).wf_unordered(),
            comparator.lawful(),
        ensures
            final(self).wf_unordered(),
            final(self).comparator() == comparator,
            final(self)@ == old(self)@,
            final(self).entries().len() == old(self).entries().len(),
            rebuild ==> final(self).entries() == heapified(old(self).entries(), &comparator),
            !rebuild ==> final(self).entries() == old(self).entries() && final(self).positions()
                == old(self).positions(),
            rebuild || heap_ordered(old(self).entries(), &comparator) ==> final(self).wf(),
    {
        self.strategy = comparator;
        if rebuild && !self.data.is_empty() {
            self.rebuild();
        }
    }
}

impl<K: Hash + Eq, T, C: Compare<T> + Default> BinaryHeap<K, T, C> {
    /// An empty heap under the default comparator of its type.
    pub fn new() -> (heap: Self)
        ensures
            heap.entries() == Seq::<(K, T)>::empty(),
            heap.positions() == Map::<K, usize>::empty(),
            call_ensures(C::default, (), heap.comparator()),
            obeys_key_model::<K>() && heap.comparator().lawful() ==> heap.wf(),
    {
        BinaryHeap { data: Vec::new(), strategy: C::default(), keys: HashMap::new() }
    }

    /// An empty heap under the default comparator of its type, with room for
    /// `capacity` entries.
    pub fn with_capacity(capacity: usize) -> (heap: Self)
        requires
            capacity * size_of::<(K, T)>() <= isize::MAX,
        ensures
            heap.entries() == Seq::<(K, T)>::empty(),
            heap.positions() == Map::<K, usize>::empty(),
            call_ensures(C::default, (), heap.comparator()),
            obeys_key_model::<K>() && heap.comparator().lawful() ==> heap.wf(),
    {
        BinaryHeap {
            data: Vec::with_capacity(capacity),
            strategy: C::default(),
            keys: HashMap::with_capacity(capacity),
        }
    }
}

impl<K: Hash + Eq, T: Ord> BinaryHeap<K, T, MinComparator> {
    /// An empty heap with the least value at the root.
    pub fn new_min() -> (heap: Self)
        ensures
            heap.entries() == Seq::<(K, T)>::empty(),
            heap.positions() == Map::<K, usize>::empty(),
            heap.comparator() == MinComparator,
            obeys_key_model::<K>() && obeys_cmp::<T>() ==> heap.wf(),
    {
        BinaryHeap { data: Vec::new(), strategy: MinComparator, keys: HashMap::new() }
    }

    /// An empty heap with the least value at the root, with room for
    /// `capacity` entries.
    pub fn with_capacity_min(capacity: usize) -> (heap: Self)
        requires
            capacity * size_of::<(K, T)>() <= isize::MAX,
        ensures
            heap.entries() == Seq::<(K, T)>::empty(),
            heap.positions() == Map::<K, usize>::empty(),
            heap.comparator() == MinComparator,
            obeys_key_model::<K>() && obeys_cmp::<T>() ==> heap.wf(),
    {
        BinaryHeap {
            data: Vec::with_capacity(capacity),
            strategy: MinComparator,
            keys: HashMap::with_capacity(capacity),
        }
    }
}

impl<K: Hash + Eq, T, F> BinaryHeap<K, T, FnComparator<F>> {
    /// An empty heap ordered by the function `f`.
    pub fn new_by(f: F) -> (heap: Self) where F: Fn(&T, &T) -> Order
        ensures
            heap.entries() == Seq::<(K, T)>::empty(),
            heap.positions() == Map::<K, usize>::empty(),
            heap.comparator() == FnComparator(f),
            obeys_key_model::<K>() && heap.comparator().lawful() ==> heap.wf(),
    {
        BinaryHeap { data: Vec::new(), strategy: FnComparator(f), keys: HashMap::new() }
    }

    /// An empty heap ordered by the function `f`, with room for `capacity`
    /// entries.
    pub fn with_capacity_by(capacity: usize, f: F) -> (heap: Self) where F: Fn(&T, &T) -> Order
        requires
            capacity * size_of::<(K, T)>() <= isize::MAX,
        ensures
            heap.entries() == Seq::<(K, T)>::empty(),
            heap.positions() == Map::<K, usize>::empty(),
            heap.comparator() == FnComparator(f),
            obeys_key_model::<K>() && heap.comparator().lawful() ==> heap.wf(),
    {
        BinaryHeap {
            data: Vec::with_capacity(capacity),
            strategy: FnComparator(f),
            keys: HashMap::with_capacity(capacity),
        }
    }
}

impl<K: Hash + Eq, T, F> BinaryHeap<K, T, KeyComparator<F>> {
    /// An empty heap ordered by the sort key that `f` extracts from a value.
    pub fn new_by_sort_key<S: Ord>(f: F) -> (heap: Self) where F: Fn(&T) -> S
        ensures
            heap.entries() == Seq::<(K, T)>::empty(),
            heap.positions() == Map::<K, usize>::empty(),
            heap.comparator() == KeyComparator(f),
            obeys_key_model::<K>() && heap.comparator().lawful() ==> heap.wf(),
    {
        BinaryHeap { data: Vec::new(), strategy: KeyComparator(f), keys: HashMap::new() }
    }

    /// An empty heap ordered by the sort key that `f` extracts from a value,
    /// with room for `capacity` entries.
    pub fn with_capacity_by_sort_key<S: Ord>(capacity: usize, f: F) -> (heap: Self) where
        F: Fn(&T) -> S,

        requires
            capacity * size_of::<(K, T)>() <= isize::MAX,
        ensures
            heap.entries() == Seq::<(K, T)>::empty(),
            heap.positions() == Map::<K, usize>::empty(),
            heap.comparator() == KeyComparator(f),
            obeys_key_model::<K>() && heap.comparator().lawful() ==> heap.wf(),
    {
        BinaryHeap {
            data: Vec::with_capacity(capacity),
            strategy: KeyComparator(f),
            keys: HashMap::with_capacity(capacity),
        }
    }
}

impl<K: Hash + Eq + Clone, T, C: Compare<T>> BinaryHeap<K, T, C> {
    /// Puts `item` into the heap under `key`.
    ///
    /// Where the heap holds no entry under the key, one is added and `None`
    /// is returned. Where it holds one, the value is replaced and the old
    /// value returned; the key that the heap held stays in its place.
    pub fn push(&mut self, key: K, item: T) -> (old_value: Option<T>)
        requires
            old(self).wf(),
            clones_exactly::<K>(),
        ensures
            final(self).wf(),
            final(self).comparator() == old(self).comparator(),
            final(self)@ == old(self)@.insert(key, item),
            old_value == (if old(self)@.contains_key(key) {
                Some(old(self)@[key])
            } else {
                None
            }),
            final(self).entries().len() == (if old(self)@.contains_key(key) {
                old(self).entries().len()
            } else {
                old(self).entries().len() + 1
            }),
            final(self).entries() == (if old(self)@.contains_key(key) {
                settled(
                    old(self).entries().update(old(self).positions()[key] as int, (key, item)),
                    &old(self).comparator(),
                    old(self).positions()[key] as int,
                )
            } else {
                rise(
                    old(self).entries().push((key, item)),
                    &old(self).comparator(),
                    0,
                    old(self).entries().len() as int,
                ).0
            }),
    {
        let ghost s = self.data@;
        let ghost m = self.keys@;
        let found = match self.keys.get(&key) {
            Some(p) => Some(*p),
            None => None,
        };
        match found {
            Some(pos) => {
                let mut item = item;
                core::mem::swap(&mut self.data[pos].1, &mut item);
                proof {
                    lemma_replace_consistent(s, m, pos as int, self.data@[pos as int].1);
                    let put = (s[pos as int].0, self.data@[pos as int].1);
                    assert(self.data@ =~= s.update(pos as int, put));
                    lemma_replace_keeps_except(
                        s,
                        &self.strategy,
                        0,
                        s.len() as int,
                        pos as int,
                        self.data@[pos as int],
                    );
                }
                self.update(&key);
                Some(item)
            },
            None => {
                let old_len = self.data.len();
                proof {
                    lemma_push_consistent(s, m, key, item);
                }
                self.data.push((key.clone(), item));
                self.keys.insert(key, old_len);
                proof {
                    lemma_ordered_same_prefix(s, self.data@, &self.strategy, 0, s.len() as int);
                    lemma_except_at_end(self.data@, &self.strategy, old_len + 1);
                    lemma_consistent_except(self.data@, self.keys@, old_len as int);
                    lemma_descends_from_root(old_len as int);
                }
                let p = self.sift_up(0, old_len, Ghost(old_len + 1));
                proof {
                    lemma_except_done(self.data@, &self.strategy, 0, old_len + 1, p as int);
                }
                None
            },
        }
    }
}

impl<K: Hash + Eq + Clone, T, C: Compare<T>> BinaryHeap<K, T, C> {
    /// Moves the entries of `source`, no two of which have the same key,
    /// into the storage, the last first, without putting them in order, and
    /// says whether the value of an entry of the heap was replaced.
    ///
    /// An entry whose key the heap does not hold is added at the end. For one
    /// whose key it holds, the value in the heap is replaced where
    /// `prefer_new` is set, and kept where it is not.
    fn absorb(&mut self, source: &mut Vec<(K, T)>, prefer_new: bool) -> (replaced: bool)
        requires
            obeys_key_model::<K>(),
            clones_exactly::<K>(),
            index_consistent(old(self).data@, old(self).keys@),
            distinct_keys(old(source)@),
        ensures
            final(self).strategy == old(self).strategy,
            index_consistent(final(self).data@, final(self).keys@),
            final(source)@.len() == 0,
            prefer_new ==> final(self)@ == old(self)@.union_prefer_right(pairs_map(old(source)@)),
            !prefer_new ==> final(self)@ == pairs_map(old(source)@).union_prefer_right(old(self)@),
            !replaced ==> final(self).data@.len() >= old(self).data@.len() && forall|i: int|
                0 <= i < old(self).data@.len() ==> final(self).data@[i] == old(self).data@[i],
            final(self).data@ == absorbed(old(self).data@, old(source)@, prefer_new),
            replaced == absorbing_replaces(old(self).data@, old(source)@, prefer_new),
    {
        let ghost all = source@;
        let ghost base = self@;
        let ghost before = self.data@;
        let mut replaced = false;
        proof {
            assert(all.subrange(all.len() as int, all.len() as int) =~= Seq::<(K, T)>::empty());
            assert(base.union_prefer_right(Map::<K, T>::empty()) =~= base);
            assert(Map::<K, T>::empty().union_prefer_right(base) =~= base);
        }
        loop
            invariant
                obeys_key_model::<K>(),
                clones_exactly::<K>(),
                distinct_keys(all),
                self.strategy == old(self).strategy,
                index_consistent(self.data@, self.keys@),
                source@.len() <= all.len(),
                source@ == all.subrange(0, source@.len() as int),
                prefer_new ==> self@ == base.union_prefer_right(
                    pairs_map(all.subrange(source@.len() as int, all.len() as int)),
                ),
                !prefer_new ==> self@ == pairs_map(
                    all.subrange(source@.len() as int, all.len() as int),
                ).union_prefer_right(base),
                !replaced ==> self.data@.len() >= before.len() && forall|i: int|
                    0 <= i < before.len() ==> self.data@[i] == before[i],
                absorbed(self.data@, source@, prefer_new) == absorbed(before, all, prefer_new),
                (replaced || absorbing_replaces(self.data@, source@, prefer_new))
                    == absorbing_replaces(before, all, prefer_new),
            ensures
                source@.len() == 0,
                self.data@ == absorbed(before, all, prefer_new),
                replaced == absorbing_replaces(before, all, prefer_new),
            decreases source@.len(),
        {
            let ghost j = source@.len() as int;
            let ghost done = all.subrange(j, all.len() as int);
            let ghost s = self.data@;
            let ghost m = self.keys@;
            let ghost old_source = source@;
            let entry = match source.pop() {
                Some(entry) => entry,
                None => {
                    break ;
                },
            };
            let key = entry.0;
            let mut value = entry.1;
            proof {
                let e = all[j - 1];
                assert(entry == e);
                assert(all.subrange(j - 1, all.len() as int) =~= seq![e] + done);
                lemma_pairs_map_prepend(e, done);
                if pairs_map(done).contains_key(e.0) {
                    let i = lemma_pairs_map_key_from(done, e.0);
                    assert(done[i] == all[j + i]);
                }
                assert(source@ =~= all.subrange(0, j - 1));
                assert(old_source.drop_last() =~= source@);
                assert(old_source.last() == entry);
                lemma_place_of(s, m, entry.0);
            }
            let found = match self.keys.get(&key) {
                Some(p) => Some(*p),
                None => None,
            };
            match found {
                Some(pos) => {
                    if prefer_new {
                        proof {
                            lemma_replace_consistent(s, m, pos as int, value);
                        }
                        core::mem::swap(&mut self.data[pos].1, &mut value);
                        replaced = true;
                        proof {
                            assert(self.data@ =~= s.update(pos as int, (s[pos as int].0, entry.1)));
                            assert(self@ =~= base.union_prefer_right(
                                pairs_map(all.subrange(j - 1, all.len() as int)),
                            ));
                        }
                    } else {
                        proof {
                            assert(self@.contains_key(key));
                            assert(!pairs_map(done).contains_key(key));
                            assert(base.contains_key(key));
                            assert(pairs_map(all.subrange(j - 1, all.len() as int)) == pairs_map(
                                done,
                            ).insert(key, entry.1));
                            assert(self@ == pairs_map(done).union_prefer_right(base));
                            assert(pairs_map(done).insert(key, entry.1).union_prefer_right(base)
                                =~= pairs_map(done).union_prefer_right(base));
                        }
                    }
                },
                None => {
                    let end = self.data.len();
                    proof {
                        lemma_push_consistent(s, m, key, value);
                    }
                    self.data.push((key.clone(), value));
                    self.keys.insert(key, end);
                    proof {
                        if prefer_new {
                            assert(self@ =~= base.union_prefer_right(
                                pairs_map(all.subrange(j - 1, all.len() as int)),
                            ));
                        } else {
                            assert(!abstract_map(s, m).contains_key(key));
                            assert(!pairs_map(done).contains_key(key));
                            assert(!base.contains_key(key));
                            assert(pairs_map(done).union_prefer_right(base).insert(key, entry.1)
                                =~= pairs_map(done).insert(key, entry.1).union_prefer_right(base));
                        }
                    }
                },
            }
        }
        proof {
            assert(all.subrange(0, all.len() as int) =~= all);
        }
        replaced
    }

    /// Moves every entry of `other` into this heap and leaves `other` empty.
    ///
    /// Where both heaps hold a key, the value of `other` stays. The entries
    /// of the smaller heap are moved into the storage of the larger, so where
    /// `other` is the larger the two heaps exchange their storage, and their
    /// comparators with it.
    pub fn append(&mut self, other: &mut Self)
        requires
            old(self).wf(),
            old(other).wf(),
            clones_exactly::<K>(),
        ensures
            final(self).wf(),
            final(other).wf(),
            final(self)@ == old(self)@.union_prefer_right(old(other)@),
            final(other).entries().len() == 0,
            final(other)@ == Map::<K, T>::empty(),
            old(self).entries().len() < old(other).entries().len() ==> {
                &&& final(self).comparator() == old(other).comparator()
                &&& final(other).comparator() == old(self).comparator()
            },
            old(self).entries().len() >= old(other).entries().len() ==> final(self).comparator()
                == old(self).comparator() && final(other).comparator() == old(other).comparator(),
            final(self).entries() == appended(
                old(self).entries(),
                old(other).entries(),
                &final(self).comparator(),
            ),
    {
        let exchanged = self.data.len() < other.data.len();
        if exchanged {
            core::mem::swap(self, other);
        }
        let start = self.data.len();
        let ghost before = self.data@;
        proof {
            lemma_pairs_map_consistent(other.data@, other.keys@);
        }
        let replaced = self.absorb(&mut other.data, !exchanged);
        other.keys.clear();
        if replaced {
            self.rebuild();
        } else {
            proof {
                lemma_ordered_same_prefix(before, self.data@, &self.strategy, 0, start as int);
            }
            self.rebuild_tail(start);
        }
    }
}

impl<K: Hash + Eq + Clone, T, C: Compare<T>> BinaryHeap<K, T, C> {
    /// A heap of the given pairs of key and value, under the given
    /// comparator.
    ///
    /// The pairs are put into the storage one after the other, and the
    /// storage is then made a heap. Of two pairs with the same key the later
    /// stays: its value takes the place of the earlier one.
    pub fn from_iter_with(pairs: Vec<(K, T)>, comparator: C) -> (heap: Self)
        requires
            obeys_key_model::<K>(),
            clones_exactly::<K>(),
            comparator.lawful(),
        ensures
            heap.wf(),
            heap.comparator() == comparator,
            heap@ == pairs_map(pairs@),
            heap.entries() == heapified(gathered(pairs@), &comparator),
    {
        let mut heap: Self = BinaryHeap {
            data: Vec::new(),
            strategy: comparator,
            keys: HashMap::new(),
        };
        heap.data.reserve(pairs.len());
        heap.keys.reserve(pairs.len());
        let ghost all = pairs@;
        proof {
            assert(all.take(0) =~= Seq::<(K, T)>::empty());
            assert(heap@ =~= pairs_map(all.take(0)));
        }
        for pair in it: pairs
            invariant
                obeys_key_model::<K>(),
                clones_exactly::<K>(),
                it.seq() == all,
                heap.strategy == comparator,
                comparator.lawful(),
                index_consistent(heap.data@, heap.keys@),
                heap@ == pairs_map(all.take(it.index() as int)),
                heap.data@ == gathered(all.take(it.index() as int)),
        {
            let ghost i = it.index() as int;
            let ghost s = heap.data@;
            let ghost m = heap.keys@;
            let key = pair.0;
            let mut value = pair.1;
            proof {
                assert(all.take(i + 1).drop_last() =~= all.take(i));
                assert(all.take(i + 1).last() == pair);
                lemma_place_of(s, m, pair.0);
            }
            let found = match heap.keys.get(&key) {
                Some(p) => Some(*p),
                None => None,
            };
            match found {
                Some(pos) => {
                    proof {
                        lemma_replace_consistent(s, m, pos as int, value);
                    }
                    core::mem::swap(&mut heap.data[pos].1, &mut value);
                    proof {
                        assert(heap.data@ =~= s.update(pos as int, (s[pos as int].0, pair.1)));
                    }
                },
                None => {
                    let end = heap.data.len();
                    proof {
                        lemma_push_consistent(s, m, key, value);
                    }
                    heap.data.push((key.clone(), value));
                    heap.keys.insert(key, end);
                },
            }
        }
        proof {
            assert(all.take(all.len() as int) =~= all);
        }
        heap.rebuild();
        heap
    }
}

impl<K: Hash + Eq + Clone, T, C: Compare<T> + Default> BinaryHeap<K, T, C> {
    /// A heap of the given pairs of key and value, under the default
    /// comparator of its type.
    ///
    /// Of two pairs with the same key the later stays: its value takes the
    /// place of the earlier one.
    pub fn from_iter(pairs: Vec<(K, T)>) -> (heap: Self)
        requires
            obeys_key_model::<K>(),
            clones_exactly::<K>(),
            forall|c: C| call_ensures(C::default, (), c) ==> c.lawful(),
        ensures
            heap.wf(),
            heap@ == pairs_map(pairs@),
            heap.entries() == heapified(gathered(pairs@), &heap.comparator()),
            call_ensures(C::default, (), heap.comparator()),
    {
        BinaryHeap::from_iter_with(pairs, C::default())
    }

    /// A heap of the given values, each under the key that `key_selector`
    /// gives for it, under the default comparator of its type.
    ///
    /// Of two values with the same key the later stays.
    pub fn from<F: Fn(&T) -> K>(values: Vec<T>, key_selector: F) -> (heap: Self)
        requires
            obeys_key_model::<K>(),
            clones_exactly::<K>(),
            forall|c: C| call_ensures(C::default, (), c) ==> c.lawful(),
            forall|i: int| 0 <= i < values@.len() ==> call_requires(key_selector, (&values@[i],)),
        ensures
            heap.wf(),
            call_ensures(C::default, (), heap.comparator()),
            exists|keys: Seq<K>|
                {
                    &&& keys.len() == values@.len()
                    &&& forall|i: int|
                        0 <= i < keys.len() ==> call_ensures(key_selector, (&values@[i],), keys[i])
                    &&& #[trigger] pairs_map(keyed(keys, values@)) == heap@
                    &&& heap.entries() == heapified(
                        gathered(keyed(keys, values@)),
                        &heap.comparator(),
                    )
                },
    {
        let mut pairs: Vec<(K, T)> = Vec::new();
        pairs.reserve(values.len());
        let ghost all = values@;
        let ghost mut keys = Seq::<K>::empty();
        for value in it: values
            invariant
                it.seq() == all,
                forall|i: int| 0 <= i < all.len() ==> call_requires(key_selector, (&all[i],)),
                keys.len() == it.index(),
                pairs@.len() == it.index(),
                forall|i: int|
                    0 <= i < keys.len() ==> call_ensures(key_selector, (&all[i],), keys[i]),
                forall|i: int| 0 <= i < keys.len() ==> pairs@[i] == (keys[i], all[i]),
        {
            let key = key_selector(&value);
            proof {
                keys = keys.push(key);
            }
            pairs.push((key, value));
        }
        proof {
            assert(pairs@ =~= keyed(keys, all));
        }
        let heap = BinaryHeap::from_iter(pairs);
        proof {
            assert(pairs_map(keyed(keys, all)) == heap@);
        }
        heap
    }
}

/// The pairs of the keys and the values at the same places.
pub open spec fn keyed<K, T>(keys: Seq<K>, values: Seq<T>) -> Seq<(K, T)> {
    Seq::new(values.len(), |i: int| (keys[i], values[i]))
}

impl<K, T, C> BinaryHeap<K, T, C> {
    /// The value at the root; `None` where the heap is empty.
    pub fn peek(&self) -> (top: Option<&T>)
        ensures
            top == (if self.entries().len() > 0 {
                Some(&self.entries()[0].1)
            } else {
                None
            }),
    {
        match self.peek_with_key() {
            Some(kv) => Some(kv.1),
            None => None,
        }
    }

    /// The key and the value at the root; `None` where the heap is empty.
    pub fn peek_with_key(&self) -> (top: Option<(&K, &T)>)
        ensures
            top == (if self.entries().len() > 0 {
                Some((&self.entries()[0].0, &self.entries()[0].1))
            } else {
                None
            }),
    {
        if self.data.len() > 0 {
            let kv = &self.data[0];
            Some((&kv.0, &kv.1))
        } else {
            None
        }
    }

    /// The entries as they are stored; the root is first.
    pub fn data(&self) -> (entries: &Vec<(K, T)>)
        ensures
            entries@ == self.entries(),
    {
        &self.data
    }

    /// The index from each key to the position of its entry.
    pub fn keys(&self) -> (index: &HashMap<K, usize>)
        ensures
            index@ == self.positions(),
    {
        &self.keys
    }

    /// The comparator that orders the values.
    pub fn cmp(&self) -> (comparator: &C)
        ensures
            *comparator == self.comparator(),
    {
        &self.strategy
    }

    /// Gives up the heap for its parts: the entries as they were stored, the
    /// index and the comparator.
    pub fn into_parts(self) -> (parts: (Vec<(K, T)>, HashMap<K, usize>, C))
        ensures
            parts.0@ == self.entries(),
            parts.1@ == self.positions(),
            parts.2 == self.comparator(),
    {
        (self.data, self.keys, self.strategy)
    }

    /// The number of entries that the heap has room for without allocating.
    pub fn capacity(&self) -> (capacity: usize)
        ensures
            capacity >= self.entries().len(),
    {
        vec_capacity(&self.data)
    }

    /// Makes room for exactly `additional` more entries, unless there is room
    /// already.
    pub fn reserve_exact(&mut self, additional: usize)
        requires
            old(self).entries().len() + additional <= usize::MAX,
            (old(self).entries().len() + additional) * size_of::<(K, T)>() <= isize::MAX,
        ensures
            final(self).entries() == old(self).entries(),
            final(self).positions() == old(self).positions(),
            final(self).comparator() == old(self).comparator(),
    {
        vec_reserve_exact(&mut self.data, additional);
    }

    /// Makes room for at least `additional` more entries.
    pub fn reserve(&mut self, additional: usize)
        requires
            old(self).entries().len() + additional <= usize::MAX,
            (old(self).entries().len() + additional) * size_of::<(K, T)>() <= isize::MAX,
        ensures
            final(self).entries() == old(self).entries(),
            final(self).positions() == old(self).positions(),
            final(self).comparator() == old(self).comparator(),
    {
        self.data.reserve(additional);
    }

    /// Gives up as much unused room as possible.
    pub fn shrink_to_fit(&mut self)
        ensures
            final(self).entries() == old(self).entries(),
            final(self).positions() == old(self).positions(),
            final(self).comparator() == old(self).comparator(),
    {
        vec_shrink_to_fit(&mut self.data);
    }

    /// Gives up unused room, but keeps room for `min_capacity` entries.
    pub fn shrink_to(&mut self, min_capacity: usize)
        ensures
            final(self).entries() == old(self).entries(),
            final(self).positions() == old(self).positions(),
            final(self).comparator() == old(self).comparator(),
    {
        vec_shrink_to(&mut self.data, min_capacity)
    }

    /// The number of entries.
    pub fn len(&self) -> (len: usize)
        ensures
            len == self.entries().len(),
    {
        self.data.len()
    }

    /// Whether the heap has no entry.
    pub fn is_empty(&self) -> (empty: bool)
        ensures
            empty == (self.entries().len() == 0),
    {
        self.len() == 0
    }

    /// A cursor over the entries, in the order in which they are stored.
    pub fn iter(&self) -> (cursor: RefIter<'_, K, T>)
        ensures
            cursor.remaining() == self.entries(),
    {
        RefIter::new(&self.data)
    }

    /// A cursor over the values, in the order in which they are stored.
    pub fn iter_values(&self) -> (cursor: RefValues<'_, K, T>)
        ensures
            cursor.remaining() == self.entries(),
    {
        RefValues::new(&self.data)
    }

    /// A cursor over the keys, in the order in which they are stored.
    pub fn iter_keys(&self) -> (cursor: RefKeys<'_, K, T>)
        ensures
            cursor.remaining() == self.entries(),
    {
        RefKeys::new(&self.data)
    }

    /// Gives up the heap for a cursor over its entries, in the order in which
    /// they were stored.
    pub fn into_iter(self) -> (cursor: IntoIter<K, T>)
        ensures
            cursor.remaining() == self.entries(),
    {
        IntoIter::new(self.data)
    }

    /// Gives up the heap for a cursor over its values, in the order in which
    /// they were stored.
    pub fn into_values(self) -> (cursor: IntoValues<K, T>)
        ensures
            cursor.remaining() == self.entries(),
    {
        IntoValues::new(self.data)
    }

    /// Gives up the heap for a cursor over its keys, in the order in which
    /// they were stored.
    pub fn into_keys(self) -> (cursor: IntoKeys<K, T>)
        ensures
            cursor.remaining() == self.entries(),
    {
        IntoKeys::new(self.data)
    }

    /// Gives up the heap for a cursor that takes its values out, the highest
    /// first.
    pub fn into_iter_sorted(self) -> (cursor: IntoIterSorted<K, T, C>)
        ensures
            cursor.heap() == self,
    {
        IntoIterSorted::new(self)
    }

    /// Removes every entry and returns a cursor over the removed entries, in
    /// the order in which they were stored.
    pub fn drain(&mut self) -> (cursor: Drain<(K, T)>)
        ensures
            cursor.remaining() == old(self).entries(),
            final(self).entries() == Seq::<(K, T)>::empty(),
            final(self).positions() == Map::<K, usize>::empty(),
            final(self).comparator() == old(self).comparator(),
    {
        let mut taken: Vec<(K, T)> = Vec::new();
        core::mem::swap(&mut taken, &mut self.data);
        self.keys.clear();
        Drain::new(taken)
    }

    /// Removes every entry.
    pub fn clear(&mut self)
        ensures
            final(self).entries() == Seq::<(K, T)>::empty(),
            final(self).positions() == Map::<K, usize>::empty(),
            final(self).comparator() == old(self).comparator(),
    {
        self.data.clear();
        self.keys.clear();
    }
}

/// Whether no entry of `data` is greater than its parent.
fn is_heap<K, T, C: Compare<T>>(data: &Vec<(K, T)>, comparator: &C) -> (ordered: bool)
    requires
        comparator.lawful(),
    ensures
        ordered == heap_ordered(data@, comparator),
{
    if data.len() == 0 {
        return true;
    }
    let mut i: usize = 1;
    while i < data.len()
        invariant
            comparator.lawful(),
            1 <= i <= data@.len(),
            ordered_from(data@, comparator, 0, i as int),
        decreases data@.len() - i,
    {
        if !compares_le(comparator, &data[i].1, &data[(i - 1) / 2].1) {
            proof {
                assert(!link_ok(data@, comparator, i as int));
            }
            return false;
        }
        i += 1;
    }
    true
}

} // verus!
