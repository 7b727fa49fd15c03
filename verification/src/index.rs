//! Storage and index: the sequence of `(key, value)` entries and the map from
//! each key to the position of its entry, and what it means for the two to
//! agree.

use std::collections::HashMap;
use std::hash::Hash;
use vstd::layout::size_of;
use vstd::prelude::*;
use vstd::std_specs::hash::obeys_key_model;

verus! {

/// The index `m` matches the storage `s`: every entry is recorded under its
/// key at its own position, and every recorded key is the key of the entry at
/// the recorded position. Keys are then unique and `m` has as many keys as `s`
/// has entries.
pub open spec fn index_consistent<K, T>(s: Seq<(K, T)>, m: Map<K, usize>) -> bool {
    &&& forall|i: int|
        0 <= i < s.len() ==> m.contains_key((#[trigger] s[i]).0) && m[s[i].0] == i
    &&& forall|k: K| #[trigger]
        m.contains_key(k) ==> 0 <= m[k] < s.len() && s[m[k] as int].0 == k
}

/// The index matches the storage but for the entry at `pos`: its key is
/// recorded, at whatever position, and is the key of no other entry.
pub open spec fn index_consistent_except<K, T>(s: Seq<(K, T)>, m: Map<K, usize>, pos: int) -> bool {
    &&& 0 <= pos < s.len()
    &&& m.contains_key(s[pos].0)
    &&& forall|i: int|
        0 <= i < s.len() && i != pos ==> m.contains_key((#[trigger] s[i]).0) && m[s[i].0] == i
            && s[i].0 != s[pos].0
    &&& forall|k: K| #[trigger]
        m.contains_key(k) && k != s[pos].0 ==> 0 <= m[k] < s.len() && s[m[k] as int].0 == k
}

/// The map from each key to its value that storage and index stand for.
pub open spec fn abstract_map<K, T>(s: Seq<(K, T)>, m: Map<K, usize>) -> Map<K, T> {
    Map::new(|k: K| m.contains_key(k), |k: K| s[m[k] as int].1)
}

/// The sequence `s` with the entries at `i` and `j` exchanged.
pub open spec fn swapped<E>(s: Seq<E>, i: int, j: int) -> Seq<E> {
    s.update(i, s[j]).update(j, s[i])
}

/// Only one index matches a storage.
pub proof fn lemma_index_unique<K, T>(s: Seq<(K, T)>, m1: Map<K, usize>, m2: Map<K, usize>)
    requires
        index_consistent(s, m1),
        index_consistent(s, m2),
    ensures
        m1 == m2,
{
    assert forall|k: K| m1.contains_key(k) implies m2.contains_key(k) && m1[k] == m2[k] by {
        assert(s[m1[k] as int].0 == k);
        assert(m2.contains_key(s[m1[k] as int].0));
    }
    assert forall|k: K| m2.contains_key(k) implies m1.contains_key(k) by {
        assert(s[m2[k] as int].0 == k);
        assert(m1.contains_key(s[m2[k] as int].0));
    }
    assert(m1 =~= m2);
}

/// An index that matches the storage matches it but for any one entry.
pub proof fn lemma_consistent_except<K, T>(s: Seq<(K, T)>, m: Map<K, usize>, pos: int)
    requires
        index_consistent(s, m),
        0 <= pos < s.len(),
    ensures
        index_consistent_except(s, m, pos),
        abstract_map(s, m.insert(s[pos].0, pos as usize)) == abstract_map(s, m),
{
    assert forall|i: int| 0 <= i < s.len() && i != pos implies s[i].0 != s[pos].0 by {
        assert(m[s[i].0] == i);
        assert(m[s[pos].0] == pos);
    }
    assert(m.insert(s[pos].0, pos as usize) =~= m);
}

/// Recording the position of the one entry left out makes the index match.
pub proof fn lemma_fill_consistent<K, T>(s: Seq<(K, T)>, m: Map<K, usize>, pos: int)
    requires
        index_consistent_except(s, m, pos),
        pos <= usize::MAX,
    ensures
        index_consistent(s, m.insert(s[pos].0, pos as usize)),
{
    let m2 = m.insert(s[pos].0, pos as usize);
    assert forall|i: int| 0 <= i < s.len() implies m2.contains_key((#[trigger] s[i]).0) && m2[s[i].0]
        == i by {
        if i != pos {
            assert(s[i].0 != s[pos].0);
        }
    }
    assert forall|k: K| #[trigger] m2.contains_key(k) implies 0 <= m2[k] < s.len() && s[m2[k] as int].0
        == k by {
        if k != s[pos].0 {
            assert(m.contains_key(k));
        }
    }
}

/// Exchanging the entry left out with another, and recording the other at
/// its new position, leaves the index matching but for the entry left out,
/// and leaves the map that the two stand for as it was.
pub proof fn lemma_move_consistent<K, T>(s: Seq<(K, T)>, m: Map<K, usize>, pos: int, target: int)
    requires
        index_consistent_except(s, m, pos),
        0 <= target < s.len(),
        target != pos,
        pos <= usize::MAX,
        target <= usize::MAX,
    ensures
        index_consistent_except(swapped(s, pos, target), m.insert(s[target].0, pos as usize), target),
        abstract_map(
            swapped(s, pos, target),
            m.insert(s[target].0, pos as usize).insert(s[pos].0, target as usize),
        ) == abstract_map(s, m.insert(s[pos].0, pos as usize)),
{
    let s2 = swapped(s, pos, target);
    let m2 = m.insert(s[target].0, pos as usize);
    assert(s[target].0 != s[pos].0);
    assert(m[s[target].0] == target);
    assert forall|i: int| 0 <= i < s2.len() && i != target implies m2.contains_key(
        (#[trigger] s2[i]).0,
    ) && m2[s2[i].0] == i && s2[i].0 != s2[target].0 by {
        if i != pos {
            assert(s2[i] == s[i]);
            assert(m[s[i].0] == i);
        }
    }
    assert forall|k: K| #[trigger] m2.contains_key(k) && k != s2[target].0 implies 0 <= m2[k]
        < s2.len() && s2[m2[k] as int].0 == k by {
        if k != s[target].0 {
            assert(m.contains_key(k));
            assert(s[m[k] as int].0 == k);
        }
    }
    let m3 = m2.insert(s[pos].0, target as usize);
    let m1 = m.insert(s[pos].0, pos as usize);
    let a = abstract_map(s2, m3);
    let b = abstract_map(s, m1);
    assert forall|k: K| a.contains_key(k) <==> b.contains_key(k) by {
        assert(m.contains_key(s[target].0));
    }
    assert forall|k: K| a.contains_key(k) implies a[k] == b[k] by {
        if k == s[pos].0 {
        } else if k == s[target].0 {
        } else {
            assert(m.contains_key(k));
            assert(s[m[k] as int].0 == k);
        }
    }
    assert(a =~= b);
}

/// Appending an entry under a key that the index does not hold, and
/// recording it at the end, keeps the index matching and adds the pair to the
/// map.
pub proof fn lemma_push_consistent<K, T>(s: Seq<(K, T)>, m: Map<K, usize>, k: K, v: T)
    requires
        index_consistent(s, m),
        !m.contains_key(k),
        s.len() <= usize::MAX,
    ensures
        index_consistent(s.push((k, v)), m.insert(k, s.len() as usize)),
        abstract_map(s.push((k, v)), m.insert(k, s.len() as usize)) == abstract_map(s, m).insert(
            k,
            v,
        ),
{
    let s2 = s.push((k, v));
    let m2 = m.insert(k, s.len() as usize);
    assert forall|i: int| 0 <= i < s2.len() implies m2.contains_key((#[trigger] s2[i]).0) && m2[s2[i].0]
        == i by {
        if i < s.len() {
            assert(s2[i] == s[i]);
            assert(m.contains_key(s[i].0));
        }
    }
    assert forall|j: K| #[trigger] m2.contains_key(j) implies 0 <= m2[j] < s2.len() && s2[m2[j] as int].0
        == j by {
        if j != k {
            assert(m.contains_key(j));
            assert(s[m[j] as int].0 == j);
        }
    }
    let a = abstract_map(s2, m2);
    let b = abstract_map(s, m).insert(k, v);
    assert forall|j: K| a.contains_key(j) implies a[j] == b[j] by {
        if j != k {
            assert(m.contains_key(j));
        }
    }
    assert(a =~= b);
}

/// Replacing the value of an entry keeps the index matching and changes the
/// value under its key in the map.
pub proof fn lemma_replace_consistent<K, T>(s: Seq<(K, T)>, m: Map<K, usize>, pos: int, v: T)
    requires
        index_consistent(s, m),
        0 <= pos < s.len(),
    ensures
        index_consistent(s.update(pos, (s[pos].0, v)), m),
        abstract_map(s.update(pos, (s[pos].0, v)), m) == abstract_map(s, m).insert(s[pos].0, v),
{
    let s2 = s.update(pos, (s[pos].0, v));
    assert forall|i: int| 0 <= i < s2.len() implies m.contains_key((#[trigger] s2[i]).0) && m[s2[i].0]
        == i by {
        assert(m.contains_key(s[i].0));
    }
    assert forall|j: K| #[trigger] m.contains_key(j) implies 0 <= m[j] < s2.len() && s2[m[j] as int].0
        == j by {
        assert(s[m[j] as int].0 == j);
    }
    let a = abstract_map(s2, m);
    let b = abstract_map(s, m).insert(s[pos].0, v);
    assert(m.contains_key(s[pos].0));
    assert forall|j: K| a.contains_key(j) implies a[j] == b[j] by {
        assert(s[m[j] as int].0 == j);
        if j != s[pos].0 {
            assert(m[j] != pos);
        }
    }
    assert(a =~= b);
}

/// The storage after the entry at `pos` has been taken out: the last entry
/// stands in its place, and the storage is one entry shorter.
pub open spec fn without<E>(s: Seq<E>, pos: int) -> Seq<E> {
    if pos == s.len() - 1 {
        s.drop_last()
    } else {
        s.drop_last().update(pos, s.last())
    }
}

/// Taking out the entry at `pos`, and its key from the index, leaves the
/// index matching but for the entry that took its place, and takes the key
/// out of the map.
pub proof fn lemma_remove_consistent<K, T>(s: Seq<(K, T)>, m: Map<K, usize>, pos: int)
    requires
        index_consistent(s, m),
        0 <= pos < s.len(),
        pos <= usize::MAX,
    ensures
        pos == s.len() - 1 ==> index_consistent(without(s, pos), m.remove(s[pos].0)) && abstract_map(
            without(s, pos),
            m.remove(s[pos].0),
        ) == abstract_map(s, m).remove(s[pos].0),
        pos < s.len() - 1 ==> index_consistent_except(without(s, pos), m.remove(s[pos].0), pos)
            && abstract_map(
            without(s, pos),
            m.remove(s[pos].0).insert(s.last().0, pos as usize),
        ) == abstract_map(s, m).remove(s[pos].0),
{
    let s2 = without(s, pos);
    let m2 = m.remove(s[pos].0);
    let last = s.len() - 1;
    assert(m[s[pos].0] == pos);
    assert(m[s[last].0] == last);
    assert forall|i: int| 0 <= i < s2.len() && i != pos implies m2.contains_key((#[trigger] s2[i]).0)
        && m2[s2[i].0] == i && s[i].0 != s[last].0 by {
        assert(s2[i] == s[i]);
        assert(m[s[i].0] == i);
    }
    assert forall|j: K| #[trigger] m2.contains_key(j) && j != s[last].0 implies 0 <= m2[j] < s2.len()
        && s2[m2[j] as int].0 == j by {
        assert(m.contains_key(j));
        assert(s[m[j] as int].0 == j);
    }
    if pos == last {
        assert forall|j: K| #[trigger] m2.contains_key(j) implies j != s[last].0 by {}
        let a = abstract_map(s2, m2);
        let b = abstract_map(s, m).remove(s[pos].0);
        assert forall|j: K| a.contains_key(j) implies a[j] == b[j] by {
            assert(m.contains_key(j));
            assert(s[m[j] as int].0 == j);
        }
        assert(a =~= b);
    } else {
        assert(s2[pos] == s[last]);
        assert(m2.contains_key(s[last].0));
        let m3 = m2.insert(s[last].0, pos as usize);
        let a = abstract_map(s2, m3);
        let b = abstract_map(s, m).remove(s[pos].0);
        assert forall|j: K| a.contains_key(j) <==> b.contains_key(j) by {}
        assert forall|j: K| a.contains_key(j) implies a[j] == b[j] by {
            if j != s[last].0 {
                assert(m.contains_key(j));
                assert(s[m[j] as int].0 == j);
            }
        }
        assert(a =~= b);
    }
}

/// The map that a sequence of pairs builds when they are put in one after
/// the other: of two pairs with one key, the later stays.
pub open spec fn pairs_map<K, T>(s: Seq<(K, T)>) -> Map<K, T>
    decreases s.len(),
{
    if s.len() == 0 {
        Map::empty()
    } else {
        pairs_map(s.drop_last()).insert(s.last().0, s.last().1)
    }
}

/// No two pairs of `s` have the same key.
pub open spec fn distinct_keys<K, T>(s: Seq<(K, T)>) -> bool {
    forall|i: int, j: int| 0 <= i < j < s.len() ==> (#[trigger] s[i]).0 != (#[trigger] s[j]).0
}

/// A key of the map that `s` builds is the key of a pair of `s`.
pub proof fn lemma_pairs_map_key_from<K, T>(s: Seq<(K, T)>, k: K) -> (i: int)
    requires
        pairs_map(s).contains_key(k),
    ensures
        0 <= i < s.len(),
        s[i].0 == k,
    decreases s.len(),
{
    if s.last().0 == k {
        s.len() - 1
    } else {
        lemma_pairs_map_key_from(s.drop_last(), k)
    }
}

/// A pair put before others stays only where none of them has its key.
pub proof fn lemma_pairs_map_prepend<K, T>(e: (K, T), u: Seq<(K, T)>)
    ensures
        pairs_map(seq![e] + u) == (if pairs_map(u).contains_key(e.0) {
            pairs_map(u)
        } else {
            pairs_map(u).insert(e.0, e.1)
        }),
    decreases u.len(),
{
    let whole = seq![e] + u;
    if u.len() == 0 {
        assert(whole.drop_last() =~= Seq::<(K, T)>::empty());
        assert(pairs_map(whole) == pairs_map(whole.drop_last()).insert(e.0, e.1));
        assert(pairs_map(whole.drop_last()) == Map::<K, T>::empty());
    } else {
        let rest = u.drop_last();
        assert(whole.drop_last() =~= seq![e] + rest);
        assert(whole.last() == u.last());
        lemma_pairs_map_prepend(e, rest);
        assert(pairs_map(whole) =~= (if pairs_map(u).contains_key(e.0) {
            pairs_map(u)
        } else {
            pairs_map(u).insert(e.0, e.1)
        }));
    }
}

/// The map that the entries of a matching index build is the map that
/// entries and index stand for, and no two of the entries have the same key.
pub proof fn lemma_pairs_map_consistent<K, T>(s: Seq<(K, T)>, m: Map<K, usize>)
    requires
        index_consistent(s, m),
    ensures
        pairs_map(s) == abstract_map(s, m),
        distinct_keys(s),
    decreases s.len(),
{
    assert forall|i: int, j: int| 0 <= i < j < s.len() implies (#[trigger] s[i]).0 != (
    #[trigger] s[j]).0 by {
        assert(m[s[i].0] == i);
        assert(m[s[j].0] == j);
    }
    if s.len() == 0 {
        assert forall|k: K| !m.contains_key(k) by {
            if m.contains_key(k) {
                assert(0 <= m[k] < s.len());
            }
        }
        assert(pairs_map(s) =~= abstract_map(s, m));
    } else {
        let last = s.len() - 1;
        let s1 = s.drop_last();
        let m1 = m.remove(s[last].0);
        assert forall|i: int| 0 <= i < s1.len() implies m1.contains_key((#[trigger] s1[i]).0)
            && m1[s1[i].0] == i by {
            assert(s1[i] == s[i]);
            assert(m[s[i].0] == i);
            assert(m[s[last].0] == last);
        }
        assert forall|k: K| #[trigger] m1.contains_key(k) implies 0 <= m1[k] < s1.len()
            && s1[m1[k] as int].0 == k by {
            assert(m.contains_key(k));
            assert(s[m[k] as int].0 == k);
        }
        lemma_pairs_map_consistent(s1, m1);
        let a = pairs_map(s);
        let b = abstract_map(s, m);
        assert(m.contains_key(s[last].0));
        assert(m[s[last].0] == last);
        assert forall|k: K| a.contains_key(k) <==> b.contains_key(k) by {}
        assert forall|k: K| a.contains_key(k) implies a[k] == b[k] by {
            if k != s[last].0 {
                assert(m1.contains_key(k));
                assert(s1[m1[k] as int] == s[m[k] as int]);
            }
        }
        assert(a =~= b);
    }
}

/// Cloning a key gives the key itself.
pub open spec fn clones_exactly<K: Clone>() -> bool {
    forall|a: K, b: K| #[trigger] call_ensures(K::clone, (&a,), b) ==> a == b
}

/// An index that matches the storage has one key for each entry.
pub proof fn lemma_consistent_len<K, T>(s: Seq<(K, T)>, m: Map<K, usize>)
    requires
        index_consistent(s, m),
        m.dom().finite(),
    ensures
        m.dom().len() == s.len(),
        s.map_values(|e: (K, T)| e.0).no_duplicates(),
    decreases s.len(),
{
    let keys = s.map_values(|e: (K, T)| e.0);
    assert forall|i: int, j: int| 0 <= i < keys.len() && 0 <= j < keys.len() && i != j implies keys[i]
        != keys[j] by {
        assert(m[s[i].0] == i);
        assert(m[s[j].0] == j);
    }
    if s.len() == 0 {
        assert forall|k: K| !m.dom().contains(k) by {
            if m.contains_key(k) {
                assert(0 <= m[k] < s.len());
            }
        }
        assert(m.dom() =~= Set::<K>::empty());
    } else {
        let last = s.len() - 1;
        let s1 = s.drop_last();
        let m1 = m.remove(s[last].0);
        assert forall|i: int| 0 <= i < s1.len() implies m1.contains_key((#[trigger] s1[i]).0)
            && m1[s1[i].0] == i by {
            assert(s1[i] == s[i]);
            assert(m[s[i].0] == i);
            assert(m[s[last].0] == last);
        }
        assert forall|k: K| #[trigger] m1.contains_key(k) implies 0 <= m1[k] < s1.len()
            && s1[m1[k] as int].0 == k by {
            assert(m.contains_key(k));
            assert(s[m[k] as int].0 == k);
        }
        lemma_consistent_len(s1, m1);
        assert(m.contains_key(s[last].0));
        assert(m1.dom() =~= m.dom().remove(s[last].0));
    }
}

/// Where every entry is recorded under its key at its own position, and the
/// index has as many keys as there are entries, the index matches the
/// storage.
pub proof fn lemma_counted_is_consistent<K, T>(s: Seq<(K, T)>, m: Map<K, usize>)
    requires
        forall|i: int| 0 <= i < s.len() ==> m.contains_key((#[trigger] s[i]).0) && m[s[i].0] == i,
        m.dom().finite(),
        m.dom().len() == s.len(),
    ensures
        index_consistent(s, m),
{
    let keys = s.map_values(|e: (K, T)| e.0);
    assert forall|i: int, j: int| 0 <= i < keys.len() && 0 <= j < keys.len() && i != j implies keys[i]
        != keys[j] by {
        assert(m[s[i].0] == i);
        assert(m[s[j].0] == j);
    }
    keys.unique_seq_to_set();
    assert forall|k: K| keys.to_set().contains(k) implies m.dom().contains(k) by {
        let i = choose|i: int| 0 <= i < keys.len() && keys[i] == k;
        assert(m.contains_key(s[i].0));
    }
    vstd::set_lib::lemma_subset_equality(keys.to_set(), m.dom());
    assert forall|k: K| #[trigger] m.contains_key(k) implies 0 <= m[k] < s.len() && s[m[k] as int].0
        == k by {
        assert(keys.to_set().contains(k));
        let i = choose|i: int| 0 <= i < keys.len() && keys[i] == k;
        assert(s[i].0 == k);
        assert(m[s[i].0] == i);
    }
}

/// Whether the index `keys` matches the storage `data`.
pub fn index_matches<K: Hash + Eq, T>(data: &Vec<(K, T)>, keys: &HashMap<K, usize>) -> (matches: bool)
    requires
        obeys_key_model::<K>(),
    ensures
        matches == index_consistent(data@, keys@),
{
    broadcast use vstd::std_specs::hash::group_hash_axioms;

    proof {
        vstd::std_specs::hash::axiom_hashmap_view_finite_dom(*keys);
        if index_consistent(data@, keys@) {
            lemma_consistent_len(data@, keys@);
        }
    }
    if keys.len() != data.len() {
        return false;
    }
    let mut i: usize = 0;
    while i < data.len()
        invariant
            obeys_key_model::<K>(),
            i <= data@.len(),
            forall|j: int|
                0 <= j < i ==> keys@.contains_key((#[trigger] data@[j]).0) && keys@[data@[j].0] == j,
        decreases data@.len() - i,
    {
        match keys.get(&data[i].0) {
            Some(pos) => {
                if *pos != i {
                    return false;
                }
            },
            None => {
                return false;
            },
        }
        i += 1;
    }
    proof {
        lemma_counted_is_consistent(data@, keys@);
    }
    true
}

/// The slot in which the index holds the position of `key`.
///
/// Calls `HashMap::get_mut`, which returns a mutable reference to the value
/// stored under the key, or `None` where the map has no such key. Writing
/// through the reference changes the value under that key and nothing else.
#[verifier::external_body]
pub(crate) fn position_slot<'a, K: Hash + Eq>(keys: &'a mut HashMap<K, usize>, key: &K) -> (slot:
    Option<&'a mut usize>)
    ensures
        obeys_key_model::<K>() ==> match slot {
            Some(p) => {
                &&& old(keys)@.contains_key(*key)
                &&& *p == old(keys)@[*key]
                &&& final(keys)@ == old(keys)@.insert(*key, *final(p))
            },
            None => !old(keys)@.contains_key(*key) && final(keys)@ == old(keys)@,
        },
{
    keys.get_mut(key)
}

/// Exchanges the entries at `i` and `j`.
///
/// Calls `swap` of slices, which exchanges the two elements and panics where
/// an index is out of bounds.
#[verifier::external_body]
pub(crate) fn swap_entries<E>(v: &mut Vec<E>, i: usize, j: usize)
    requires
        i < old(v).len(),
        j < old(v).len(),
    ensures
        final(v)@ == swapped(old(v)@, i as int, j as int),
{
    v.swap(i, j)
}

/// The number of elements that `v` has room for.
///
/// Calls `Vec::capacity`, which returns the number of elements the vector can
/// hold without reallocating: never fewer than it holds.
#[verifier::external_body]
pub(crate) fn vec_capacity<E>(v: &Vec<E>) -> (capacity: usize)
    ensures
        capacity >= v@.len(),
{
    v.capacity()
}

/// Makes room in `v` for exactly `additional` more elements.
///
/// Calls `Vec::reserve_exact`, which leaves the elements as they are and
/// panics where the new capacity overflows `usize` or exceeds `isize::MAX`
/// bytes.
#[verifier::external_body]
pub(crate) fn vec_reserve_exact<E>(v: &mut Vec<E>, additional: usize)
    requires
        old(v)@.len() + additional <= usize::MAX,
        (old(v)@.len() + additional) * size_of::<E>() <= isize::MAX,
    ensures
        final(v)@ == old(v)@,
{
    v.reserve_exact(additional)
}

/// Gives up the unused room of `v`.
///
/// Calls `Vec::shrink_to_fit`, which leaves the elements as they are.
#[verifier::external_body]
pub(crate) fn vec_shrink_to_fit<E>(v: &mut Vec<E>)
    ensures
        final(v)@ == old(v)@,
{
    v.shrink_to_fit()
}

/// Gives up unused room of `v` down to room for `min_capacity` elements.
///
/// Calls `Vec::shrink_to`, which leaves the elements as they are.
#[verifier::external_body]
pub(crate) fn vec_shrink_to<E>(v: &mut Vec<E>, min_capacity: usize)
    ensures
        final(v)@ == old(v)@,
{
    v.shrink_to(min_capacity)
}

/// Records `pos` as the position of `key`, which the index already holds.
pub(crate) fn set_position<K: Hash + Eq>(keys: &mut HashMap<K, usize>, key: &K, pos: usize)
    requires
        obeys_key_model::<K>(),
        old(keys)@.contains_key(*key),
    ensures
        final(keys)@ == old(keys)@.insert(*key, pos),
{
    match position_slot(keys, key) {
        Some(slot) => {
            *slot = pos;
        },
        None => {},
    }
}

} // verus!
