use mut_binary_heap::index::index_matches;
use mut_binary_heap::rebuild_rule::better_to_rebuild;
use mut_binary_heap::{BinaryHeap, Compare, MaxComparator};
use std::cmp::Ordering;
use std::collections::HashMap;

fn heap_of(values: &[i32]) -> BinaryHeap<usize, i32> {
    BinaryHeap::from_iter(values.iter().cloned().enumerate().collect())
}

fn is_well_formed(heap: &BinaryHeap<usize, i32>) -> bool {
    let data = heap.data();
    heap.keys().len() == data.len()
        && data.iter().enumerate().all(|(i, kv)| {
            heap.keys().get(&kv.0) == Some(&i)
                && (i == 0
                    || heap.cmp().compare(&kv.1, &data[(i - 1) / 2].1) != Ordering::Greater)
        })
}

fn drained(heap: &mut BinaryHeap<usize, i32>) -> Vec<i32> {
    heap.drain_sorted().into_iter().map(|kv| kv.1).collect()
}

#[test]
fn change_at_the_root_then_update_top() {
    let mut heap = heap_of(&[1, 5, 2]);
    assert_eq!(heap.peek(), Some(&5));
    *heap.peek_mut().unwrap() = 0;
    heap.update_top();
    assert!(is_well_formed(&heap));
    assert_eq!(heap.peek(), Some(&2));
    assert_eq!(drained(&mut heap), vec![2, 1, 0]);

    let mut empty: BinaryHeap<usize, i32> = BinaryHeap::new();
    assert!(empty.peek_mut().is_none());
}

#[test]
fn change_at_the_root_then_pop_the_root() {
    let mut heap = heap_of(&[2, 4, 6, 2, 1, 8, 10, 3, 5, 7, 0, 9, 1]);
    assert_eq!(heap.peek(), Some(&10));
    *heap.peek_mut().unwrap() -= 2;
    assert_eq!(heap.pop(), Some(8));
    assert!(is_well_formed(&heap));
    assert_eq!(heap.peek(), Some(&9));
}

#[test]
fn change_under_a_key_then_update() {
    let mut heap = heap_of(&[10, 9, 8, 7, 6, 5, 4]);
    *heap.get_mut(&6).unwrap() = 100;
    heap.update(&6);
    assert!(is_well_formed(&heap));
    assert_eq!(heap.peek_with_key(), Some((&6, &100)));

    *heap.get_mut(&6).unwrap() = -1;
    heap.update(&6);
    assert!(is_well_formed(&heap));
    assert_eq!(heap.peek_with_key(), Some((&0, &10)));

    *heap.get_mut(&3).unwrap() = 7;
    heap.update(&3);
    assert!(is_well_formed(&heap));

    assert!(heap.get_mut(&77).is_none());
    assert_eq!(drained(&mut heap), vec![10, 9, 8, 7, 6, 5, -1]);
}

#[test]
fn change_every_value_then_rebuild() {
    let mut heap = heap_of(&[3, 1, 4, 1, 5, 9, 2, 6]);
    let mut index = 0;
    while let Some((key, value)) = heap.entry_mut(index) {
        *value = (*key as i32 * 5) % 7;
        index += 1;
    }
    assert_eq!(index, 8);
    assert!(heap.entry_mut(8).is_none());
    heap.rebuild();
    assert!(is_well_formed(&heap));
    assert_eq!(heap.get(&3), Some(&1));
    assert_eq!(drained(&mut heap), vec![6, 5, 4, 3, 2, 1, 0, 0]);
}

#[test]
fn drain_sorted_gives_the_highest_first_and_empties_the_heap() {
    let mut heap = heap_of(&[2, 4, 6, 2, 1, 8, 10, 3, 5, 7, 0, 9, 1]);
    let out = heap.drain_sorted();
    assert_eq!(out.len(), 13);
    assert_eq!(out[0], (6, 10));
    assert_eq!(
        out.iter().map(|kv| kv.1).collect::<Vec<_>>(),
        vec![10, 9, 8, 7, 6, 5, 4, 3, 2, 2, 1, 1, 0]
    );
    assert!(heap.is_empty());
    assert_eq!(heap.keys().len(), 0);
    assert_eq!(heap.drain_sorted(), vec![]);
}

#[test]
fn parts_that_form_a_heap_are_taken_as_they_are() {
    let data = vec![(7usize, 9), (8, 5), (9, 3)];
    let keys: HashMap<usize, usize> = [(7, 0), (8, 1), (9, 2)].into_iter().collect();
    assert!(index_matches(&data, &keys));
    let heap = BinaryHeap::from_parts(data.clone(), keys, MaxComparator).unwrap();
    assert_eq!(heap.data(), &data);
    assert_eq!(heap.get(&8), Some(&5));
}

#[test]
fn parts_that_form_no_heap_are_refused() {
    // an entry greater than its parent
    let data = vec![(7usize, 3), (8, 5)];
    let keys: HashMap<usize, usize> = [(7, 0), (8, 1)].into_iter().collect();
    assert!(index_matches(&data, &keys));
    assert!(BinaryHeap::from_parts(data, keys, MaxComparator).is_none());

    // a position that is not the entry's own
    let data = vec![(7usize, 9), (8, 5)];
    let keys: HashMap<usize, usize> = [(7, 1), (8, 0)].into_iter().collect();
    assert!(!index_matches(&data, &keys));
    assert!(BinaryHeap::from_parts(data, keys, MaxComparator).is_none());

    // a key that no entry has
    let data = vec![(7usize, 9)];
    let keys: HashMap<usize, usize> = [(7, 0), (8, 1)].into_iter().collect();
    assert!(!index_matches(&data, &keys));
    assert!(BinaryHeap::from_parts(data, keys, MaxComparator).is_none());

    // an entry that the index does not hold
    let data = vec![(7usize, 9), (8, 5)];
    let keys: HashMap<usize, usize> = [(7, 0)].into_iter().collect();
    assert!(!index_matches(&data, &keys));

    // one key for two entries
    let data = vec![(7usize, 9), (7, 5)];
    let keys: HashMap<usize, usize> = [(7, 1), (8, 0)].into_iter().collect();
    assert!(!index_matches(&data, &keys));
}

#[test]
fn rebuilding_is_chosen_by_the_expected_number_of_comparisons() {
    // more new entries than old ones
    assert!(better_to_rebuild(3, 4));
    assert!(better_to_rebuild(0, 1));
    // small heaps: twice the length against the tail times the logarithm
    assert!(!better_to_rebuild(8, 8));
    assert!(!better_to_rebuild(1, 1));
    assert!(!better_to_rebuild(1024, 256));
    assert!(better_to_rebuild(1024, 257));
    assert!(!better_to_rebuild(1023, 292));
    assert!(better_to_rebuild(1023, 293));
    assert!(better_to_rebuild(1448, 600));
    assert!(!better_to_rebuild(1648, 400));
    // large heaps: twice the length against eleven times the tail
    assert!(!better_to_rebuild(3000, 100));
    assert!(better_to_rebuild(3000, 2900));
    assert!(!better_to_rebuild(9000, 2000));
    assert!(better_to_rebuild(9000, 2001));
    assert!(better_to_rebuild(1649, 400));
}

#[test]
fn clone_is_a_heap_of_its_own() {
    let mut heap = heap_of(&[4, 8, 6]);
    let mut copy = heap.clone();
    assert_eq!(copy.data(), heap.data());
    assert_eq!(copy.keys(), heap.keys());
    copy.push(9, 10);
    assert_eq!(heap.len(), 3);
    assert_eq!(drained(&mut heap), vec![8, 6, 4]);
    assert_eq!(drained(&mut copy), vec![10, 8, 6, 4]);
}

#[test]
fn of_two_children_that_rank_alike_the_first_comes_to_the_root() {
    let mut heap: BinaryHeap<i32, i32> = BinaryHeap::new();
    heap.push(0, 9);
    heap.push(1, 7);
    heap.push(2, 7);
    *heap.peek_mut().unwrap() = 5;
    heap.update_top();
    assert_eq!(heap.peek_with_key(), Some((&1, &7)));
    assert_eq!(heap.len(), 3);
    assert_eq!(heap.get(&0), Some(&5));
    assert_eq!(heap.data(), &vec![(1, 7), (0, 5), (2, 7)]);
    assert_eq!(heap.keys()[&1], 0);
    assert_eq!(heap.keys()[&0], 1);
    assert_eq!(heap.keys()[&2], 2);
    assert_eq!(heap.pop(), Some(7));
    assert_eq!(heap.pop(), Some(7));
    assert_eq!(heap.pop(), Some(5));
}

#[test]
fn update_and_rebuild_leave_a_heap_in_order_as_it_is() {
    let mut heap = heap_of(&[2, 4, 6, 2, 1, 8, 10, 3, 5, 7, 0, 9, 1]);
    let stored = heap.data().clone();
    let index = heap.keys().clone();
    for key in 0..13 {
        heap.update(&key);
        assert_eq!(heap.data(), &stored);
        assert_eq!(heap.keys(), &index);
    }
    heap.rebuild();
    assert_eq!(heap.data(), &stored);
    assert_eq!(heap.keys(), &index);
}

#[test]
fn the_comparator_is_replaced_without_a_rebuild_and_the_heap_rebuilt_after() {
    fn by(ascending: bool) -> impl Fn(&i32, &i32) -> mut_binary_heap::Order {
        move |a: &i32, b: &i32| {
            if ascending {
                mut_binary_heap::Order::from_ordering(b.cmp(a))
            } else {
                mut_binary_heap::Order::from_ordering(a.cmp(b))
            }
        }
    }
    let mut heap = BinaryHeap::new_by(by(false));
    for (k, v) in [3, 1, 5, 4, 2].into_iter().enumerate() {
        heap.push(k, v);
    }
    let stored = heap.data().clone();
    let index = heap.keys().clone();
    heap.replace_cmp_raw(mut_binary_heap::FnComparator(by(true)), false);
    assert_eq!(heap.data(), &stored);
    assert_eq!(heap.keys(), &index);
    assert_eq!(heap.len(), 5);
    assert_eq!(heap.cmp().compare(&1, &2), Ordering::Greater);
    heap.rebuild();
    assert_eq!(heap.peek(), Some(&1));
    assert_eq!(drained_by(&mut heap), vec![1, 2, 3, 4, 5]);
}

fn drained_by<C: Compare<i32>>(heap: &mut BinaryHeap<usize, i32, C>) -> Vec<i32> {
    heap.drain_sorted().into_iter().map(|kv| kv.1).collect()
}

#[test]
fn an_entry_appended_to_a_heap_rises_past_the_entries_on_its_way() {
    let mut a: BinaryHeap<usize, i32> = BinaryHeap::new();
    a.push(0, 5);
    a.push(1, 3);
    let mut b: BinaryHeap<usize, i32> = BinaryHeap::new();
    b.push(2, 9);
    a.append(&mut b);
    assert_eq!(a.data(), &vec![(2, 9), (1, 3), (0, 5)]);
    assert_eq!(a.keys()[&2], 0);
    assert_eq!(a.keys()[&1], 1);
    assert_eq!(a.keys()[&0], 2);
    assert_eq!(a.peek_with_key(), Some((&2, &9)));
    assert_eq!(a.len(), 3);
    assert_eq!(a.pop_with_key(), Some((2, 9)));
    assert_eq!(a.pop_with_key(), Some((0, 5)));
    assert_eq!(a.pop_with_key(), Some((1, 3)));
}

#[test]
fn pairs_are_gathered_in_their_order_and_made_a_heap() {
    let heap: BinaryHeap<i32, i32> = BinaryHeap::from_iter(vec![(5, 5), (9, 9), (3, 3)]);
    assert_eq!(heap.data(), &vec![(9, 9), (5, 5), (3, 3)]);
    let heap = BinaryHeap::from_iter_with(
        vec![(5, 5), (9, 9), (3, 3), (9, 1)],
        mut_binary_heap::MinComparator,
    );
    assert_eq!(heap.data(), &vec![(9, 1), (5, 5), (3, 3)]);
    assert_eq!(heap.keys()[&9], 0);
}

#[test]
fn a_rising_entry_moves_the_entries_on_its_way_one_level_down() {
    let mut heap = heap_of(&[50, 40, 30, 20, 10, 5, 1]);
    let stored = heap.data().clone();
    heap.push(7, 45);
    // the new entry at 7 rises past 3 and 1 and rests under the root
    assert_eq!(heap.data()[1], (7, 45));
    assert_eq!(heap.data()[3], stored[1]);
    assert_eq!(heap.data()[7], stored[3]);
    for i in [0, 2, 4, 5, 6] {
        assert_eq!(heap.data()[i], stored[i]);
    }
}

#[test]
fn a_removed_entry_leaves_the_rest_of_the_storage_outside_its_subtree() {
    let mut heap = heap_of(&[90, 80, 70, 60, 50, 40, 30, 20, 10, 5]);
    let stored = heap.data().clone();
    assert_eq!(heap.remove(&stored[1].0), Some(stored[1]));
    // the last entry took the place at 1 and sank below 3 and 4
    for i in [0, 2, 5, 6] {
        assert_eq!(heap.data()[i], stored[i]);
    }
    assert_eq!(heap.data()[1], stored[3]);
    assert!(is_well_formed(&heap));
}
