//! Cursors over the entries of a heap.
//!
//! Each cursor hands out what is left of a sequence, one item for each call
//! of `next`. The cursors over the storage go through the entries in the
//! order in which they are stored; `IntoIterSorted` takes the entries out of
//! the heap, the highest first.

use crate::binary_heap::BinaryHeap;
use crate::comparator::{le, Compare};
use crate::index::without;
use crate::sift::sink_and_rise;
use std::collections::VecDeque;
use std::hash::Hash;
use vstd::prelude::*;

verus! {

/// The elements of `v`, in their order, in a queue that gives from both ends.
fn into_queue<E>(v: Vec<E>) -> (queue: VecDeque<E>)
    ensures
        queue@ == v@,
{
    let mut v = v;
    let mut queue: VecDeque<E> = VecDeque::new();
    queue.reserve(v.len());
    let ghost all = v@;
    while v.len() > 0
        invariant
            v@.len() <= all.len(),
            v@ == all.subrange(0, v@.len() as int),
            queue@ == all.subrange(v@.len() as int, all.len() as int),
        decreases v@.len(),
    {
        match v.pop() {
            Some(e) => {
                queue.push_front(e);
                proof {
                    assert(queue@ =~= all.subrange(v@.len() as int, all.len() as int));
                    assert(v@ =~= all.subrange(0, v@.len() as int));
                }
            },
            None => {},
        }
    }
    proof {
        assert(queue@ =~= all);
    }
    queue
}

/// What a cursor answers when asked how many items are left, where it knows
/// the number.
fn exact_size(n: usize) -> (hint: (usize, Option<usize>))
    ensures
        hint == (n, Some(n)),
{
    (n, Some(n))
}

/// A cursor that takes the values out of a heap, the highest first.
#[derive(Clone, Debug)]
pub struct IntoIterSorted<K, T, C> {
    inner: BinaryHeap<K, T, C>,
}

impl<K, T, C> IntoIterSorted<K, T, C> {
    /// The heap that holds what is left.
    pub closed spec fn heap(&self) -> BinaryHeap<K, T, C> {
        self.inner
    }

    /// A cursor over the values of `heap`.
    pub(crate) fn new(heap: BinaryHeap<K, T, C>) -> (cursor: Self)
        ensures
            cursor.heap() == heap,
    {
        IntoIterSorted { inner: heap }
    }

    /// The number of values left, as the lower and the upper bound.
    pub fn size_hint(&self) -> (hint: (usize, Option<usize>))
        ensures
            hint == (self.heap().entries().len() as usize, Some(self.heap().entries().len() as usize)),
    {
        exact_size(self.inner.len())
    }
}

impl<K: Hash + Eq, T, C: Compare<T>> IntoIterSorted<K, T, C> {
    /// Takes the value at the root out of the heap; `None` where nothing is
    /// left. No value left is greater than the one taken out.
    pub fn next(&mut self) -> (value: Option<T>)
        requires
            old(self).heap().wf(),
        ensures
            final(self).heap().wf(),
            final(self).heap().comparator() == old(self).heap().comparator(),
            old(self).heap().entries().len() == 0 ==> {
                &&& value.is_none()
                &&& final(self).heap().entries() == old(self).heap().entries()
                &&& final(self).heap().positions() == old(self).heap().positions()
            },
            old(self).heap().entries().len() > 0 ==> {
                &&& value == Some(old(self).heap().entries()[0].1)
                &&& old(self).heap().entries().len() > 1 ==> final(self).heap().entries()
                    == sink_and_rise(
                    without(old(self).heap().entries(), 0),
                    &old(self).heap().comparator(),
                    0,
                )
                &&& final(self).heap()@ == old(self).heap()@.remove(old(self).heap().entries()[0].0)
                &&& final(self).heap().entries().len() == old(self).heap().entries().len() - 1
                &&& forall|k: K| #[trigger]
                    old(self).heap()@.contains_key(k) ==> le(
                        &old(self).heap().comparator(),
                        &old(self).heap()@[k],
                        &old(self).heap().entries()[0].1,
                    )
            },
    {
        self.inner.pop()
    }
}

/// A cursor over entries that were taken out of a heap, in the order in
/// which they were stored. It gives from both ends.
#[derive(Debug)]
pub struct Drain<T> {
    rest: VecDeque<T>,
}

impl<T> Drain<T> {
    /// The items that are left, in the order in which `next` gives them.
    pub closed spec fn remaining(&self) -> Seq<T> {
        self.rest@
    }

    /// A cursor over `items`.
    pub(crate) fn new(items: Vec<T>) -> (cursor: Self)
        ensures
            cursor.remaining() == items@,
    {
        Drain { rest: into_queue(items) }
    }

    /// The first item that is left; `None` where nothing is left.
    pub fn next(&mut self) -> (item: Option<T>)
        ensures
            old(self).remaining().len() == 0 ==> {
                &&& item.is_none()
                &&& final(self).remaining() == old(self).remaining()
            },
            old(self).remaining().len() > 0 ==> {
                &&& item == Some(old(self).remaining()[0])
                &&& final(self).remaining() == old(self).remaining().drop_first()
            },
    {
        self.rest.pop_front()
    }

    /// The last item that is left; `None` where nothing is left.
    pub fn next_back(&mut self) -> (item: Option<T>)
        ensures
            old(self).remaining().len() == 0 ==> {
                &&& item.is_none()
                &&& final(self).remaining() == old(self).remaining()
            },
            old(self).remaining().len() > 0 ==> {
                &&& item == Some(old(self).remaining().last())
                &&& final(self).remaining() == old(self).remaining().drop_last()
            },
    {
        self.rest.pop_back()
    }

    /// The number of items left, as the lower and the upper bound.
    pub fn size_hint(&self) -> (hint: (usize, Option<usize>))
        ensures
            hint == (self.remaining().len() as usize, Some(self.remaining().len() as usize)),
    {
        exact_size(self.rest.len())
    }
}

/// A cursor over the entries of a heap that was given up for it, in the
/// order in which they were stored.
#[derive(Clone)]
pub struct IntoIter<K, T> {
    rest: VecDeque<(K, T)>,
}

impl<K, T> IntoIter<K, T> {
    /// The entries that are left, in the order in which `next` gives them.
    pub closed spec fn remaining(&self) -> Seq<(K, T)> {
        self.rest@
    }

    /// A cursor over `entries`.
    pub(crate) fn new(entries: Vec<(K, T)>) -> (cursor: Self)
        ensures
            cursor.remaining() == entries@,
    {
        IntoIter { rest: into_queue(entries) }
    }

    /// The first entry that is left; `None` where nothing is left.
    pub fn next(&mut self) -> (entry: Option<(K, T)>)
        ensures
            old(self).remaining().len() == 0 ==> {
                &&& entry.is_none()
                &&& final(self).remaining() == old(self).remaining()
            },
            old(self).remaining().len() > 0 ==> {
                &&& entry == Some(old(self).remaining()[0])
                &&& final(self).remaining() == old(self).remaining().drop_first()
            },
    {
        self.rest.pop_front()
    }

    /// The number of entries left, as the lower and the upper bound.
    pub fn size_hint(&self) -> (hint: (usize, Option<usize>))
        ensures
            hint == (self.remaining().len() as usize, Some(self.remaining().len() as usize)),
    {
        exact_size(self.rest.len())
    }
}

/// A cursor over the values of a heap that was given up for it, in the order
/// in which they were stored.
#[derive(Clone)]
pub struct IntoValues<K, V> {
    rest: VecDeque<(K, V)>,
}

impl<K, V> IntoValues<K, V> {
    /// The entries whose values are left, in the order in which `next` gives
    /// them.
    pub closed spec fn remaining(&self) -> Seq<(K, V)> {
        self.rest@
    }

    /// A cursor over the values of `entries`.
    pub(crate) fn new(entries: Vec<(K, V)>) -> (cursor: Self)
        ensures
            cursor.remaining() == entries@,
    {
        IntoValues { rest: into_queue(entries) }
    }

    /// The value of the first entry that is left; `None` where nothing is
    /// left.
    pub fn next(&mut self) -> (value: Option<V>)
        ensures
            old(self).remaining().len() == 0 ==> {
                &&& value.is_none()
                &&& final(self).remaining() == old(self).remaining()
            },
            old(self).remaining().len() > 0 ==> {
                &&& value == Some(old(self).remaining()[0].1)
                &&& final(self).remaining() == old(self).remaining().drop_first()
            },
    {
        match self.rest.pop_front() {
            Some(kv) => Some(kv.1),
            None => None,
        }
    }

    /// The number of values left, as the lower and the upper bound.
    pub fn size_hint(&self) -> (hint: (usize, Option<usize>))
        ensures
            hint == (self.remaining().len() as usize, Some(self.remaining().len() as usize)),
    {
        exact_size(self.rest.len())
    }
}

/// A cursor over the keys of a heap that was given up for it, in the order in
/// which they were stored.
#[derive(Clone)]
pub struct IntoKeys<K, V> {
    rest: VecDeque<(K, V)>,
}

impl<K, V> IntoKeys<K, V> {
    /// The entries whose keys are left, in the order in which `next` gives
    /// them.
    pub closed spec fn remaining(&self) -> Seq<(K, V)> {
        self.rest@
    }

    /// A cursor over the keys of `entries`.
    pub(crate) fn new(entries: Vec<(K, V)>) -> (cursor: Self)
        ensures
            cursor.remaining() == entries@,
    {
        IntoKeys { rest: into_queue(entries) }
    }

    /// The key of the first entry that is left; `None` where nothing is left.
    pub fn next(&mut self) -> (key: Option<K>)
        ensures
            old(self).remaining().len() == 0 ==> {
                &&& key.is_none()
                &&& final(self).remaining() == old(self).remaining()
            },
            old(self).remaining().len() > 0 ==> {
                &&& key == Some(old(self).remaining()[0].0)
                &&& final(self).remaining() == old(self).remaining().drop_first()
            },
    {
        match self.rest.pop_front() {
            Some(kv) => Some(kv.0),
            None => None,
        }
    }

    /// The number of keys left, as the lower and the upper bound.
    pub fn size_hint(&self) -> (hint: (usize, Option<usize>))
        ensures
            hint == (self.remaining().len() as usize, Some(self.remaining().len() as usize)),
    {
        exact_size(self.rest.len())
    }
}

/// A cursor over the entries of a heap, in the order in which they are
/// stored. It gives from both ends.
pub struct RefIter<'a, K, T> {
    data: &'a Vec<(K, T)>,
    front: usize,
    back: usize,
}

impl<'a, K, T> Clone for RefIter<'a, K, T> {
    /// A cursor over the same entries that are left.
    fn clone(&self) -> (copy: Self)
        ensures
            copy.remaining() == self.remaining(),
    {
        proof {
            use_type_invariant(self);
        }
        RefIter { data: self.data, front: self.front, back: self.back }
    }
}

impl<'a, K, T> RefIter<'a, K, T> {
    #[verifier::type_invariant]
    spec fn bounds(&self) -> bool {
        self.front <= self.back <= self.data@.len()
    }

    /// The entries that are left, in the order in which `next` gives them.
    pub closed spec fn remaining(&self) -> Seq<(K, T)> {
        self.data@.subrange(self.front as int, self.back as int)
    }

    /// A cursor over `entries`.
    pub(crate) fn new(entries: &'a Vec<(K, T)>) -> (cursor: Self)
        ensures
            cursor.remaining() == entries@,
    {
        proof {
            assert(entries@.subrange(0, entries@.len() as int) =~= entries@);
        }
        RefIter { data: entries, front: 0, back: entries.len() }
    }

    /// The first entry that is left; `None` where nothing is left.
    pub fn next(&mut self) -> (entry: Option<(&'a K, &'a T)>)
        ensures
            old(self).remaining().len() == 0 ==> {
                &&& entry.is_none()
                &&& final(self).remaining() == old(self).remaining()
            },
            old(self).remaining().len() > 0 ==> entry == Some(
                (&old(self).remaining()[0].0, &old(self).remaining()[0].1),
            ) && final(self).remaining() == old(self).remaining().drop_first(),
    {
        proof {
            use_type_invariant(&*self);
        }
        if self.front < self.back {
            let kv = &self.data[self.front];
            self.front = self.front + 1;
            proof {
                assert(self.remaining() =~= old(self).remaining().drop_first());
            }
            Some((&kv.0, &kv.1))
        } else {
            None
        }
    }

    /// The last entry that is left; `None` where nothing is left.
    pub fn next_back(&mut self) -> (entry: Option<(&'a K, &'a T)>)
        ensures
            old(self).remaining().len() == 0 ==> {
                &&& entry.is_none()
                &&& final(self).remaining() == old(self).remaining()
            },
            old(self).remaining().len() > 0 ==> entry == Some(
                (&old(self).remaining().last().0, &old(self).remaining().last().1),
            ) && final(self).remaining() == old(self).remaining().drop_last(),
    {
        proof {
            use_type_invariant(&*self);
        }
        if self.front < self.back {
            self.back = self.back - 1;
            let kv = &self.data[self.back];
            proof {
                assert(self.remaining() =~= old(self).remaining().drop_last());
            }
            Some((&kv.0, &kv.1))
        } else {
            None
        }
    }

    /// The last entry that is left, giving up the cursor; `None` where
    /// nothing is left.
    pub fn last(self) -> (entry: Option<(&'a K, &'a T)>)
        ensures
            entry == (if self.remaining().len() > 0 {
                Some((&self.remaining().last().0, &self.remaining().last().1))
            } else {
                None
            }),
    {
        proof {
            use_type_invariant(&self);
        }
        if self.front < self.back {
            let kv = &self.data[self.back - 1];
            Some((&kv.0, &kv.1))
        } else {
            None
        }
    }

    /// The number of entries left, as the lower and the upper bound.
    pub fn size_hint(&self) -> (hint: (usize, Option<usize>))
        ensures
            hint == (self.remaining().len() as usize, Some(self.remaining().len() as usize)),
    {
        proof {
            use_type_invariant(self);
        }
        exact_size(self.back - self.front)
    }
}

/// A cursor over the values of a heap, in the order in which they are
/// stored.
pub struct RefValues<'a, K, T> {
    data: &'a Vec<(K, T)>,
    front: usize,
    back: usize,
}

impl<'a, K, T> Clone for RefValues<'a, K, T> {
    /// A cursor over the same values that are left.
    fn clone(&self) -> (copy: Self)
        ensures
            copy.remaining() == self.remaining(),
    {
        proof {
            use_type_invariant(self);
        }
        RefValues { data: self.data, front: self.front, back: self.back }
    }
}

impl<'a, K, T> RefValues<'a, K, T> {
    #[verifier::type_invariant]
    spec fn bounds(&self) -> bool {
        self.front <= self.back <= self.data@.len()
    }

    /// The entries whose values are left, in the order in which `next` gives
    /// them.
    pub closed spec fn remaining(&self) -> Seq<(K, T)> {
        self.data@.subrange(self.front as int, self.back as int)
    }

    /// A cursor over the values of `entries`.
    pub(crate) fn new(entries: &'a Vec<(K, T)>) -> (cursor: Self)
        ensures
            cursor.remaining() == entries@,
    {
        proof {
            assert(entries@.subrange(0, entries@.len() as int) =~= entries@);
        }
        RefValues { data: entries, front: 0, back: entries.len() }
    }

    /// The value of the first entry that is left; `None` where nothing is
    /// left.
    pub fn next(&mut self) -> (value: Option<&'a T>)
        ensures
            old(self).remaining().len() == 0 ==> {
                &&& value.is_none()
                &&& final(self).remaining() == old(self).remaining()
            },
            old(self).remaining().len() > 0 ==> {
                &&& value == Some(&old(self).remaining()[0].1)
                &&& final(self).remaining() == old(self).remaining().drop_first()
            },
    {
        proof {
            use_type_invariant(&*self);
        }
        if self.front < self.back {
            let kv = &self.data[self.front];
            self.front = self.front + 1;
            proof {
                assert(self.remaining() =~= old(self).remaining().drop_first());
            }
            Some(&kv.1)
        } else {
            None
        }
    }

    /// The value of the last entry that is left, giving up the cursor; `None`
    /// where nothing is left.
    pub fn last(self) -> (value: Option<&'a T>)
        ensures
            value == (if self.remaining().len() > 0 {
                Some(&self.remaining().last().1)
            } else {
                None
            }),
    {
        proof {
            use_type_invariant(&self);
        }
        if self.front < self.back {
            Some(&self.data[self.back - 1].1)
        } else {
            None
        }
    }

    /// The number of values left, as the lower and the upper bound.
    pub fn size_hint(&self) -> (hint: (usize, Option<usize>))
        ensures
            hint == (self.remaining().len() as usize, Some(self.remaining().len() as usize)),
    {
        proof {
            use_type_invariant(self);
        }
        exact_size(self.back - self.front)
    }
}

/// A cursor over the keys of a heap, in the order in which they are stored.
pub struct RefKeys<'a, K, T> {
    data: &'a Vec<(K, T)>,
    front: usize,
    back: usize,
}

impl<'a, K, T> Clone for RefKeys<'a, K, T> {
    /// A cursor over the same keys that are left.
    fn clone(&self) -> (copy: Self)
        ensures
            copy.remaining() == self.remaining(),
    {
        proof {
            use_type_invariant(self);
        }
        RefKeys { data: self.data, front: self.front, back: self.back }
    }
}

impl<'a, K, T> RefKeys<'a, K, T> {
    #[verifier::type_invariant]
    spec fn bounds(&self) -> bool {
        self.front <= self.back <= self.data@.len()
    }

    /// The entries whose keys are left, in the order in which `next` gives
    /// them.
    pub closed spec fn remaining(&self) -> Seq<(K, T)> {
        self.data@.subrange(self.front as int, self.back as int)
    }

    /// A cursor over the keys of `entries`.
    pub(crate) fn new(entries: &'a Vec<(K, T)>) -> (cursor: Self)
        ensures
            cursor.remaining() == entries@,
    {
        proof {
            assert(entries@.subrange(0, entries@.len() as int) =~= entries@);
        }
        RefKeys { data: entries, front: 0, back: entries.len() }
    }

    /// The key of the first entry that is left; `None` where nothing is left.
    pub fn next(&mut self) -> (key: Option<&'a K>)
        ensures
            old(self).remaining().len() == 0 ==> {
                &&& key.is_none()
                &&& final(self).remaining() == old(self).remaining()
            },
            old(self).remaining().len() > 0 ==> {
                &&& key == Some(&old(self).remaining()[0].0)
                &&& final(self).remaining() == old(self).remaining().drop_first()
            },
    {
        proof {
            use_type_invariant(&*self);
        }
        if self.front < self.back {
            let kv = &self.data[self.front];
            self.front = self.front + 1;
            proof {
                assert(self.remaining() =~= old(self).remaining().drop_first());
            }
            Some(&kv.0)
        } else {
            None
        }
    }

    /// The key of the last entry that is left, giving up the cursor; `None`
    /// where nothing is left.
    pub fn last(self) -> (key: Option<&'a K>)
        ensures
            key == (if self.remaining().len() > 0 {
                Some(&self.remaining().last().0)
            } else {
                None
            }),
    {
        proof {
            use_type_invariant(&self);
        }
        if self.front < self.back {
            Some(&self.data[self.back - 1].0)
        } else {
            None
        }
    }

    /// The number of keys left, as the lower and the upper bound.
    pub fn size_hint(&self) -> (hint: (usize, Option<usize>))
        ensures
            hint == (self.remaining().len() as usize, Some(self.remaining().len() as usize)),
    {
        proof {
            use_type_invariant(self);
        }
        exact_size(self.back - self.front)
    }
}

} // verus!
