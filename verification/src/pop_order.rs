//! The order in which a heap gives up its entries.
//!
//! Taking the root out of a heap again and again yields the entries from the
//! highest to the lowest. Which of two entries that rank alike comes first is
//! not fixed, but the rank at each place is: two heaps that hold the same
//! pairs under the same comparator yield, place for place, values that rank
//! alike, however the heaps were built.

use crate::binary_heap::BinaryHeap;
use crate::comparator::{le, lemma_le_reflexive, lemma_le_transitive, Compare};
use crate::index::{distinct_keys, lemma_pairs_map_key_from, pairs_map};
use crate::sift::{pops, without_root};
use std::hash::Hash;
use vstd::prelude::*;

verus! {

/// `a` and `b` rank alike under `c`: neither is greater than the other.
pub open spec fn equivalent<T, C: Compare<T>>(c: &C, a: &T, b: &T) -> bool {
    le(c, a, b) && le(c, b, a)
}

/// No entry of `s` is greater than an entry before it.
pub open spec fn sorted_descending<K, T, C: Compare<T>>(s: Seq<(K, T)>, c: &C) -> bool {
    forall|i: int, j: int|
        0 <= i < j < s.len() ==> le(c, &(#[trigger] s[j]).1, &(#[trigger] s[i]).1)
}

/// Every pair of `s1` is a pair of `s2`, and every pair of `s2` one of `s1`.
pub open spec fn same_pairs<K, T>(s1: Seq<(K, T)>, s2: Seq<(K, T)>) -> bool {
    &&& forall|i: int| 0 <= i < s1.len() ==> s2.contains(#[trigger] s1[i])
    &&& forall|j: int| 0 <= j < s2.len() ==> s1.contains(#[trigger] s2[j])
}

/// `s` is an order in which a heap that stands for the map `m` may give up
/// its entries: it holds the pairs of `m`, each once, from the highest value
/// to the lowest.
pub open spec fn is_pop_order<K, T, C: Compare<T>>(m: Map<K, T>, c: &C, s: Seq<(K, T)>) -> bool {
    &&& pairs_map(s) == m
    &&& distinct_keys(s)
    &&& sorted_descending(s, c)
}

/// Ranking alike is transitive.
pub proof fn lemma_equivalent_transitive<T, C: Compare<T>>(c: &C, a: &T, b: &T, x: &T)
    requires
        c.lawful(),
        equivalent(c, a, b),
        equivalent(c, b, x),
    ensures
        equivalent(c, a, x),
{
    lemma_le_transitive(c, a, b, x);
    lemma_le_transitive(c, x, b, a);
}

/// In a descending sequence no entry is greater than one at the same place
/// or before it.
pub proof fn lemma_sorted_le<K, T, C: Compare<T>>(s: Seq<(K, T)>, c: &C, i: int, j: int)
    requires
        c.lawful(),
        sorted_descending(s, c),
        0 <= i <= j < s.len(),
    ensures
        le(c, &s[j].1, &s[i].1),
{
    if i == j {
        lemma_le_reflexive(c, &s[i].1);
    }
}

/// Where `s` has no two pairs with one key, the map that it builds gives for
/// the key of each pair the value of that pair.
pub proof fn lemma_pairs_map_value<K, T>(s: Seq<(K, T)>, i: int)
    requires
        distinct_keys(s),
        0 <= i < s.len(),
    ensures
        pairs_map(s).contains_key(s[i].0),
        pairs_map(s)[s[i].0] == s[i].1,
    decreases s.len(),
{
    if i < s.len() - 1 {
        let rest = s.drop_last();
        assert forall|a: int, b: int| 0 <= a < b < rest.len() implies (#[trigger] rest[a]).0 != (
        #[trigger] rest[b]).0 by {
            assert(rest[a] == s[a]);
            assert(rest[b] == s[b]);
        }
        lemma_pairs_map_value(rest, i);
        assert(rest[i] == s[i]);
        assert(s[i].0 != s[s.len() - 1].0);
    }
}

/// Two sequences without repeated keys that build the same map hold the same
/// pairs.
pub proof fn lemma_same_map_same_pairs<K, T>(s1: Seq<(K, T)>, s2: Seq<(K, T)>)
    requires
        distinct_keys(s1),
        distinct_keys(s2),
        pairs_map(s1) == pairs_map(s2),
    ensures
        same_pairs(s1, s2),
{
    assert forall|i: int| 0 <= i < s1.len() implies s2.contains(#[trigger] s1[i]) by {
        lemma_pairs_map_value(s1, i);
        let j = lemma_pairs_map_key_from(s2, s1[i].0);
        lemma_pairs_map_value(s2, j);
        assert(s2[j] == s1[i]);
    }
    assert forall|j: int| 0 <= j < s2.len() implies s1.contains(#[trigger] s2[j]) by {
        lemma_pairs_map_value(s2, j);
        let i = lemma_pairs_map_key_from(s1, s2[j].0);
        lemma_pairs_map_value(s1, i);
        assert(s1[i] == s2[j]);
    }
}

/// Two descending sequences of the same pairs, each pair once, are of one
/// length and hold, place for place, values that rank alike.
#[verifier::rlimit(40)]
pub proof fn lemma_sorted_agree<K, T, C: Compare<T>>(s1: Seq<(K, T)>, s2: Seq<(K, T)>, c: &C)
    requires
        c.lawful(),
        distinct_keys(s1),
        distinct_keys(s2),
        same_pairs(s1, s2),
        sorted_descending(s1, c),
        sorted_descending(s2, c),
    ensures
        s1.len() == s2.len(),
        forall|i: int| 0 <= i < s1.len() ==> equivalent(c, &(#[trigger] s1[i]).1, &s2[i].1),
    decreases s1.len(),
{
    if s1.len() == 0 {
        if s2.len() > 0 {
            assert(s1.contains(s2[0]));
        }
    } else {
        assert(s2.contains(s1[0]));
        let p = choose|p: int| 0 <= p < s2.len() && s2[p] == s1[0];
        let t1 = s1.drop_first();
        let t2 = s2.remove(p);
        assert forall|a: int, b: int| 0 <= a < b < t1.len() implies (#[trigger] t1[a]).0 != (
        #[trigger] t1[b]).0 by {
            assert(t1[a] == s1[a + 1]);
            assert(t1[b] == s1[b + 1]);
        }
        assert forall|a: int, b: int| 0 <= a < b < t2.len() implies (#[trigger] t2[a]).0 != (
        #[trigger] t2[b]).0 by {
            let a2 = if a < p {
                a
            } else {
                a + 1
            };
            let b2 = if b < p {
                b
            } else {
                b + 1
            };
            assert(t2[a] == s2[a2]);
            assert(t2[b] == s2[b2]);
        }
        assert forall|i: int| 0 <= i < t1.len() implies t2.contains(#[trigger] t1[i]) by {
            assert(t1[i] == s1[i + 1]);
            assert(s2.contains(s1[i + 1]));
            let q = choose|q: int| 0 <= q < s2.len() && s2[q] == s1[i + 1];
            assert(s1[0].0 != s1[i + 1].0);
            assert(q != p);
            let q2 = if q < p {
                q
            } else {
                q - 1
            };
            assert(t2[q2] == s2[q]);
        }
        assert forall|j: int| 0 <= j < t2.len() implies t1.contains(#[trigger] t2[j]) by {
            let j2 = if j < p {
                j
            } else {
                j + 1
            };
            assert(t2[j] == s2[j2]);
            assert(s1.contains(s2[j2]));
            let r = choose|r: int| 0 <= r < s1.len() && s1[r] == s2[j2];
            if r == 0 {
                if j2 < p {
                    assert(s2[j2].0 != s2[p].0);
                } else {
                    assert(s2[p].0 != s2[j2].0);
                }
            }
            assert(t1[r - 1] == s1[r]);
        }
        assert forall|a: int, b: int| 0 <= a < b < t1.len() implies le(
            c,
            &(#[trigger] t1[b]).1,
            &(#[trigger] t1[a]).1,
        ) by {
            assert(t1[a] == s1[a + 1]);
            assert(t1[b] == s1[b + 1]);
        }
        assert forall|a: int, b: int| 0 <= a < b < t2.len() implies le(
            c,
            &(#[trigger] t2[b]).1,
            &(#[trigger] t2[a]).1,
        ) by {
            let a2 = if a < p {
                a
            } else {
                a + 1
            };
            let b2 = if b < p {
                b
            } else {
                b + 1
            };
            assert(t2[a] == s2[a2]);
            assert(t2[b] == s2[b2]);
        }
        lemma_sorted_agree(t1, t2, c);
        // the two sequences begin with values that rank alike
        assert(s1.contains(s2[0]));
        let r0 = choose|r: int| 0 <= r < s1.len() && s1[r] == s2[0];
        lemma_sorted_le(s1, c, 0, r0);
        lemma_sorted_le(s2, c, 0, p);
        assert(equivalent(c, &s1[0].1, &s2[0].1));
        assert forall|i: int| 0 <= i < s1.len() implies equivalent(
            c,
            &(#[trigger] s1[i]).1,
            &s2[i].1,
        ) by {
            if i > 0 {
                assert(t1[i - 1] == s1[i]);
                assert(equivalent(c, &t1[i - 1].1, &t2[i - 1].1));
                if i - 1 >= p {
                    assert(t2[i - 1] == s2[i]);
                } else {
                    assert(t2[i - 1] == s2[i - 1]);
                    // up to the place of the highest pair all values rank alike
                    lemma_sorted_le(s2, c, i - 1, i);
                    lemma_sorted_le(s2, c, 0, i - 1);
                    lemma_sorted_le(s2, c, i, p);
                    lemma_le_transitive(c, &s2[i - 1].1, &s2[0].1, &s1[0].1);
                    lemma_le_transitive(c, &s2[i - 1].1, &s2[p].1, &s2[i].1);
                    lemma_equivalent_transitive(c, &s1[i].1, &s2[i - 1].1, &s2[i].1);
                }
            }
        }
    }
}

/// Two orders in which heaps that stand for the same map may give up their
/// entries are of one length and hold, place for place, values that rank
/// alike.
///
/// So a heap built by putting pairs in one by one and a heap built of the
/// same pairs at once give up their entries in the same order of rank.
pub proof fn lemma_pop_order_unique<K, T, C: Compare<T>>(
    m: Map<K, T>,
    c: &C,
    s1: Seq<(K, T)>,
    s2: Seq<(K, T)>,
)
    requires
        c.lawful(),
        is_pop_order(m, c, s1),
        is_pop_order(m, c, s2),
    ensures
        s1.len() == s2.len(),
        forall|i: int| 0 <= i < s1.len() ==> equivalent(c, &(#[trigger] s1[i]).1, &s2[i].1),
{
    lemma_same_map_same_pairs(s1, s2);
    lemma_sorted_agree(s1, s2, c);
}

/// Where only equal values rank alike, two orders in which heaps that stand
/// for the same map may give up their entries hold, place for place, the same
/// values.
pub proof fn lemma_pop_order_values_equal<K, T, C: Compare<T>>(
    m: Map<K, T>,
    c: &C,
    s1: Seq<(K, T)>,
    s2: Seq<(K, T)>,
)
    requires
        c.lawful(),
        forall|a: &T, b: &T| #[trigger] equivalent(c, a, b) ==> a == b,
        is_pop_order(m, c, s1),
        is_pop_order(m, c, s2),
    ensures
        s1.len() == s2.len(),
        forall|i: int| 0 <= i < s1.len() ==> (#[trigger] s1[i]).1 == s2[i].1,
{
    lemma_pop_order_unique(m, c, s1, s2);
    assert forall|i: int| 0 <= i < s1.len() implies (#[trigger] s1[i]).1 == s2[i].1 by {
        assert(equivalent(c, &s1[i].1, &s2[i].1));
    }
}

/// Putting pairs into a map one after the other builds the map of the pairs:
/// what a heap holds after each of the pairs has been pushed is what a heap
/// built of all of them at once holds.
pub proof fn lemma_pairs_map_push<K, T>(s: Seq<(K, T)>, k: K, v: T)
    ensures
        pairs_map(s.push((k, v))) == pairs_map(s).insert(k, v),
{
    assert(s.push((k, v)).drop_last() =~= s);
}

impl<K: Hash + Eq, T, C: Compare<T>> BinaryHeap<K, T, C> {
    /// Removes every entry and returns the removed entries, from the highest
    /// value to the lowest.
    pub fn drain_sorted(&mut self) -> (out: Vec<(K, T)>)
        requires
            old(self).wf(),
        ensures
            final(self).wf(),
            final(self).comparator() == old(self).comparator(),
            final(self).entries().len() == 0,
            final(self)@ == Map::<K, T>::empty(),
            is_pop_order(old(self)@, &old(self).comparator(), out@),
            out@.len() == old(self).entries().len(),
            out@ == pops(old(self).entries(), &old(self).comparator(), old(self).entries().len()),
    {
        let mut out: Vec<(K, T)> = Vec::new();
        let ghost all = self@;
        let ghost c = self.comparator();
        proof {
            assert(all.union_prefer_right(pairs_map(out@)) =~= all);
        }
        loop
            invariant
                self.wf(),
                self.comparator() == c,
                c == old(self).comparator(),
                distinct_keys(out@),
                sorted_descending(out@, &c),
                all == self@.union_prefer_right(pairs_map(out@)),
                all == old(self)@,
                out@.len() + self.entries().len() == old(self).entries().len(),
                out@ + pops(self.entries(), &c, self.entries().len()) == pops(
                    old(self).entries(),
                    &c,
                    old(self).entries().len(),
                ),
                forall|i: int| 0 <= i < out@.len() ==> !self@.contains_key((#[trigger] out@[i]).0),
                forall|i: int, k: K|
                    0 <= i < out@.len() && self@.contains_key(k) ==> le(
                        &c,
                        #[trigger] &self@[k],
                        &(#[trigger] out@[i]).1,
                    ),
            ensures
                self.wf(),
                self.comparator() == c,
                self.entries().len() == 0,
                is_pop_order(all, &c, out@),
                out@.len() == old(self).entries().len(),
                out@ == pops(old(self).entries(), &c, old(self).entries().len()),
            decreases self.entries().len(),
        {
            let ghost before = self@;
            let ghost done = out@;
            let ghost stored = self.entries();
            match self.pop_with_key() {
                Some(kv) => {
                    out.push(kv);
                    proof {
                        assert(self.entries() =~= without_root(stored, &c));
                        assert(out@ + pops(self.entries(), &c, self.entries().len()) =~= done
                            + pops(stored, &c, stored.len()));
                        lemma_pairs_map_push(done, kv.0, kv.1);
                        if pairs_map(done).contains_key(kv.0) {
                            let i = lemma_pairs_map_key_from(done, kv.0);
                            assert(!before.contains_key(done[i].0));
                        }
                        assert(before.union_prefer_right(pairs_map(done)) =~= self@.union_prefer_right(
                            pairs_map(out@),
                        ));
                        assert forall|i: int, j: int| 0 <= i < j < out@.len() implies le(
                            &c,
                            &(#[trigger] out@[j]).1,
                            &(#[trigger] out@[i]).1,
                        ) by {
                            if j == done.len() {
                                assert(out@[i] == done[i]);
                                assert(le(&c, &before[kv.0], &done[i].1));
                            } else {
                                assert(out@[i] == done[i]);
                                assert(out@[j] == done[j]);
                            }
                        }
                        assert forall|i: int, j: int| 0 <= i < j < out@.len() implies (
                        #[trigger] out@[i]).0 != (#[trigger] out@[j]).0 by {
                            if j == done.len() {
                                assert(out@[i] == done[i]);
                                assert(!before.contains_key(done[i].0));
                            } else {
                                assert(out@[i] == done[i]);
                                assert(out@[j] == done[j]);
                            }
                        }
                        assert forall|i: int| 0 <= i < out@.len() implies !self@.contains_key(
                            (#[trigger] out@[i]).0,
                        ) by {
                            if i < done.len() {
                                assert(out@[i] == done[i]);
                                assert(!before.contains_key(done[i].0));
                            }
                        }
                        assert forall|i: int, k: K|
                            0 <= i < out@.len() && self@.contains_key(k) implies le(
                            &c,
                            #[trigger] &self@[k],
                            &(#[trigger] out@[i]).1,
                        ) by {
                            assert(before.contains_key(k));
                            if i < done.len() {
                                assert(out@[i] == done[i]);
                                assert(le(&c, &before[k], &done[i].1));
                            }
                        }
                    }
                },
                None => {
                    proof {
                        assert(self@ =~= Map::<K, T>::empty()) by {
                            assert forall|k: K| !self@.contains_key(k) by {
                                if self.positions().contains_key(k) {
                                    assert(self.positions()[k] < self.entries().len());
                                }
                            }
                        }
                        assert(self@.union_prefer_right(pairs_map(out@)) =~= pairs_map(out@));
                    }
                    break ;
                },
            }
        }
        out
    }
}

} // verus!
