//! A hole: the one place in the storage whose entry is on the move.
//!
//! While an entry travels up or down the tree, the entries it passes are
//! moved into its place one by one, and the index is told of each such move.
//! The index entry of the travelling entry itself is left alone until the hole
//! is filled, when its final position is recorded.

use crate::index::{
    abstract_map, index_consistent, index_consistent_except, lemma_fill_consistent,
    lemma_move_consistent, set_position, swap_entries, swapped,
};
use std::collections::HashMap;
use std::hash::Hash;
use vstd::prelude::*;
use vstd::std_specs::hash::obeys_key_model;

verus! {

/// The storage and the index of a heap, borrowed while the entry at `pos`
/// travels.
pub(crate) struct Hole<'a, K, T> {
    pub(crate) data: &'a mut Vec<(K, T)>,
    pub(crate) keys: &'a mut HashMap<K, usize>,
    pub(crate) pos: usize,
}

impl<'a, K: Hash + Eq, T> Hole<'a, K, T> {
    /// The entries as they stand.
    pub(crate) open spec fn entries(&self) -> Seq<(K, T)> {
        self.data@
    }

    /// The index as it stands.
    pub(crate) open spec fn index(&self) -> Map<K, usize> {
        self.keys@
    }

    /// The index matches the storage but for the travelling entry.
    pub(crate) open spec fn inv(&self) -> bool {
        &&& obeys_key_model::<K>()
        &&& index_consistent_except(self.entries(), self.index(), self.pos as int)
    }

    /// The map from keys to values that storage and index will stand for
    /// once the hole is filled where it is.
    pub(crate) open spec fn filled_map(&self) -> Map<K, T> {
        abstract_map(
            self.entries(),
            self.index().insert(self.entries()[self.pos as int].0, self.pos),
        )
    }

    /// Opens a hole at `pos`.
    pub(crate) fn new(data: &'a mut Vec<(K, T)>, keys: &'a mut HashMap<K, usize>, pos: usize) -> (hole:
        Self)
        requires
            obeys_key_model::<K>(),
            index_consistent_except(old(data)@, old(keys)@, pos as int),
        ensures
            hole.inv(),
            hole.entries() == old(data)@,
            hole.index() == old(keys)@,
            hole.pos == pos,
            *final(data) == *final(hole.data),
            *final(keys) == *final(hole.keys),
    {
        Hole { data, keys, pos }
    }

    /// The position of the hole.
    pub(crate) fn pos(&self) -> (p: usize)
        ensures
            p == self.pos,
    {
        self.pos
    }

    /// The value of the travelling entry.
    pub(crate) fn element(&self) -> (value: &T)
        requires
            self.pos < self.entries().len(),
        ensures
            *value == self.entries()[self.pos as int].1,
    {
        &self.data[self.pos].1
    }

    /// The value of the entry at `index`, which is not the hole.
    pub(crate) fn get(&self, index: usize) -> (value: &T)
        requires
            index < self.entries().len(),
            index != self.pos,
        ensures
            *value == self.entries()[index as int].1,
    {
        &self.data[index].1
    }

    /// Moves the entry at `target` into the hole and the hole to `target`,
    /// and records the new position of the moved entry in the index.
    pub(crate) fn move_to(&mut self, target: usize)
        requires
            old(self).inv(),
            target < old(self).entries().len(),
            target != old(self).pos,
        ensures
            final(self).inv(),
            final(self).pos == target,
            final(self).entries() == swapped(
                old(self).entries(),
                old(self).pos as int,
                target as int,
            ),
            final(self).index() == old(self).index().insert(
                old(self).entries()[target as int].0,
                old(self).pos,
            ),
            final(self).filled_map() == old(self).filled_map(),
            *final(final(self).data) == *final(old(self).data),
            *final(final(self).keys) == *final(old(self).keys),
    {
        proof {
            lemma_move_consistent(self.data@, self.keys@, self.pos as int, target as int);
        }
        set_position(self.keys, &self.data[target].0, self.pos);
        swap_entries(self.data, self.pos, target);
        self.pos = target;
    }

    /// Fills the hole: the travelling entry stays where the hole is, and its
    /// position is recorded in the index.
    pub(crate) fn fill(self)
        requires
            self.inv(),
        ensures
            index_consistent(final(self.data)@, final(self.keys)@),
            final(self.data)@ == self.entries(),
            final(self.keys)@ == self.index().insert(self.entries()[self.pos as int].0, self.pos),
            abstract_map(final(self.data)@, final(self.keys)@) == self.filled_map(),
    {
        proof {
            lemma_fill_consistent(self.data@, self.keys@, self.pos as int);
        }
        let Hole { data, keys, pos } = self;
        set_position(keys, &data[pos].0, pos);
    }
}

} // verus!
