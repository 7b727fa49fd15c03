use mut_binary_heap::{
    BinaryHeap, Compare, FnComparator, KeyComparator, MaxComparator, MinComparator, Order,
};
use std::cmp::Ordering;

fn indexed(values: &[i32]) -> Vec<(usize, i32)> {
    values.iter().cloned().enumerate().collect()
}

fn pop_all<C: Compare<i32>>(heap: &mut BinaryHeap<usize, i32, C>) -> Vec<i32> {
    let mut out = Vec::new();
    while let Some(v) = heap.pop() {
        out.push(v);
    }
    out
}

fn check_shape<C: Compare<i32>>(heap: &BinaryHeap<usize, i32, C>) {
    let data = heap.data();
    assert_eq!(heap.keys().len(), data.len());
    for (i, kv) in data.iter().enumerate() {
        assert_eq!(heap.keys()[&kv.0], i);
        if i > 0 {
            let parent = &data[(i - 1) / 2].1;
            assert_ne!(heap.cmp().compare(&kv.1, parent), Ordering::Greater);
        }
    }
}

#[test]
fn pop_yields_descending_order() {
    let values = [2, 4, 6, 2, 1, 8, 10, 3, 5, 7, 0, 9, 1];
    let mut heap: BinaryHeap<usize, i32> = BinaryHeap::new();
    for (k, v) in indexed(&values) {
        assert_eq!(heap.push(k, v), None);
        check_shape(&heap);
    }
    assert_eq!(heap.len(), 13);
    assert_eq!(pop_all(&mut heap), vec![10, 9, 8, 7, 6, 5, 4, 3, 2, 2, 1, 1, 0]);
    assert!(heap.is_empty());
}

#[test]
fn push_same_key_replaces_value() {
    let mut heap: BinaryHeap<i32, i32> = BinaryHeap::new();
    assert_eq!(heap.push(7, 5), None);
    assert_eq!(heap.push(7, 9), Some(5));
    assert_eq!(heap.len(), 1);
    assert_eq!(heap.get(&7), Some(&9));
    assert_eq!(heap.pop_with_key(), Some((7, 9)));
    assert_eq!(heap.pop_with_key(), None);
}

#[test]
fn push_same_key_moves_entry_both_ways() {
    let mut heap: BinaryHeap<usize, i32> = BinaryHeap::new();
    for (k, v) in indexed(&[50, 40, 30, 20, 10, 5, 1]) {
        heap.push(k, v);
    }
    assert_eq!(heap.push(6, 100), Some(1));
    check_shape(&heap);
    assert_eq!(heap.peek_with_key(), Some((&6, &100)));
    assert_eq!(heap.push(6, 0), Some(100));
    check_shape(&heap);
    assert_eq!(heap.peek_with_key(), Some((&0, &50)));
    assert_eq!(heap.push(0, 25), Some(50));
    check_shape(&heap);
    assert_eq!(pop_all(&mut heap), vec![40, 30, 25, 20, 10, 5, 0]);
}

#[test]
fn remove_by_key() {
    let mut heap: BinaryHeap<i32, i32> = BinaryHeap::new();
    heap.push(0, 5);
    heap.push(1, 3);
    assert_eq!(heap.remove(&0), Some((0, 5)));
    assert_eq!(heap.remove(&0), None);
    assert_eq!(heap.remove(&2), None);
    assert_eq!(heap.len(), 1);
    assert_eq!(heap.get(&1), Some(&3));
    assert!(!heap.contains_key(&0));
    assert!(heap.contains_key(&1));
}

#[test]
fn remove_lets_the_replacement_rise() {
    // the last entry stands in for the removed one and is greater than the
    // parent of the place it takes
    let mut heap: BinaryHeap<usize, i32> = BinaryHeap::new();
    for (k, v) in indexed(&[10, 5, 9, 1, 2, 8, 7]) {
        heap.push(k, v);
    }
    assert_eq!(heap.remove(&3), Some((3, 1)));
    check_shape(&heap);
    assert_eq!(heap.len(), 6);
    assert_eq!(pop_all(&mut heap), vec![10, 9, 8, 7, 5, 2]);
}

#[test]
fn remove_every_position() {
    let values = [13, 8, 21, 3, 5, 1, 34, 2, 55, 89, 0, 144, 1];
    for victim in 0..values.len() {
        let mut heap: BinaryHeap<usize, i32> = BinaryHeap::from_iter(indexed(&values));
        assert_eq!(heap.remove(&victim), Some((victim, values[victim])));
        check_shape(&heap);
        let mut expected: Vec<i32> =
            indexed(&values).into_iter().filter(|kv| kv.0 != victim).map(|kv| kv.1).collect();
        expected.sort();
        expected.reverse();
        assert_eq!(pop_all(&mut heap), expected);
    }
}

#[test]
fn append_merges_and_empties_the_other() {
    let mut a: BinaryHeap<usize, i32> = BinaryHeap::new();
    for (k, v) in indexed(&[-10, 1, 2, 3, 3]) {
        a.push(k, v);
    }
    let mut b: BinaryHeap<usize, i32> = BinaryHeap::new();
    for (k, v) in indexed(&[-20, 5, 43]) {
        b.push(k + 100, v);
    }
    a.append(&mut b);
    assert!(b.is_empty());
    assert_eq!(b.keys().len(), 0);
    check_shape(&a);
    let mut popped = pop_all(&mut a);
    popped.reverse();
    assert_eq!(popped, vec![-20, -10, 1, 2, 3, 3, 5, 43]);
}

#[test]
fn append_into_the_smaller_heap() {
    let mut a: BinaryHeap<usize, i32> = BinaryHeap::new();
    a.push(0, 4);
    let mut b: BinaryHeap<usize, i32> = BinaryHeap::new();
    for (k, v) in indexed(&[7, 1, 9, 3]) {
        b.push(k + 10, v);
    }
    a.append(&mut b);
    assert!(b.is_empty());
    check_shape(&a);
    assert_eq!(pop_all(&mut a), vec![9, 7, 4, 3, 1]);
}

#[test]
fn append_keeps_the_value_of_the_other_for_a_shared_key() {
    let mut a: BinaryHeap<usize, i32> = BinaryHeap::new();
    for (k, v) in indexed(&[10, 20, 30]) {
        a.push(k, v);
    }
    let mut b: BinaryHeap<usize, i32> = BinaryHeap::new();
    b.push(1, 99);
    b.push(7, 5);
    a.append(&mut b);
    check_shape(&a);
    assert_eq!(a.len(), 4);
    assert_eq!(a.get(&1), Some(&99));

    // and the same where the other heap is the larger one
    let mut c: BinaryHeap<usize, i32> = BinaryHeap::new();
    c.push(1, 0);
    let mut d: BinaryHeap<usize, i32> = BinaryHeap::new();
    for (k, v) in indexed(&[10, 20, 30]) {
        d.push(k, v);
    }
    c.append(&mut d);
    check_shape(&c);
    assert!(d.is_empty());
    assert_eq!(c.len(), 3);
    assert_eq!(c.get(&1), Some(&20));
    assert_eq!(pop_all(&mut c), vec![30, 20, 10]);
}

#[test]
fn append_long_tail_and_short_tail() {
    // a long tail is rebuilt whole, a short one rises entry by entry
    for (big, small) in [(40usize, 39usize), (600, 3), (3000, 100), (3000, 2900)] {
        let mut a: BinaryHeap<usize, i32> = BinaryHeap::new();
        for k in 0..big {
            a.push(k, ((k * 7919) % 1009) as i32);
        }
        let mut b: BinaryHeap<usize, i32> = BinaryHeap::new();
        for k in 0..small {
            b.push(big + k, ((k * 104729) % 2003) as i32);
        }
        let mut expected: Vec<i32> = a.data().iter().chain(b.data().iter()).map(|kv| kv.1).collect();
        expected.sort();
        expected.reverse();
        a.append(&mut b);
        check_shape(&a);
        assert_eq!(a.len(), big + small);
        assert_eq!(pop_all(&mut a), expected);
    }
}

#[test]
fn bulk_and_single_push_pop_alike() {
    let pairs = indexed(&[2, 4, 6, 2, 1, 8, 10, 3, 5, 7, 0, 9, 1]);
    let mut pushed: BinaryHeap<usize, i32> = BinaryHeap::new();
    for (k, v) in pairs.clone() {
        pushed.push(k, v);
    }
    let mut bulk: BinaryHeap<usize, i32> = BinaryHeap::from_iter(pairs);
    check_shape(&bulk);
    assert_eq!(pop_all(&mut pushed), pop_all(&mut bulk));
}

#[test]
fn bulk_keeps_the_later_of_two_pairs_with_one_key() {
    let mut heap: BinaryHeap<usize, i32> = BinaryHeap::from_iter(vec![(1, 10), (2, 20), (1, 30)]);
    check_shape(&heap);
    assert_eq!(heap.len(), 2);
    assert_eq!(heap.get(&1), Some(&30));
    assert_eq!(heap.pop_with_key(), Some((1, 30)));
    assert_eq!(heap.pop_with_key(), Some((2, 20)));
    assert_eq!(heap.pop_with_key(), None);
}

#[test]
fn from_takes_keys_from_the_selector() {
    let mut heap: BinaryHeap<i32, i32> = BinaryHeap::from(vec![31, 12, 53], |v| v % 10);
    assert_eq!(heap.get(&1), Some(&31));
    assert_eq!(heap.get(&2), Some(&12));
    assert_eq!(heap.get(&3), Some(&53));
    assert_eq!(heap.pop_with_key(), Some((3, 53)));
}

#[test]
fn replace_comparator_reverses_pop_order() {
    fn by(ascending: bool) -> impl Fn(&i32, &i32) -> Order {
        move |a: &i32, b: &i32| {
            if ascending {
                Order::from_ordering(b.cmp(a))
            } else {
                Order::from_ordering(a.cmp(b))
            }
        }
    }
    let mut heap = BinaryHeap::new_by(by(false));
    for (k, v) in indexed(&[3, 1, 5, 4, 2]) {
        heap.push(k, v);
    }
    assert_eq!(heap.peek(), Some(&5));
    heap.replace_cmp(FnComparator(by(true)));
    check_shape(&heap);
    assert_eq!(pop_all(&mut heap), vec![1, 2, 3, 4, 5]);
}

#[test]
fn min_heap_pops_ascending() {
    let mut heap = BinaryHeap::new_min();
    for (k, v) in indexed(&[3, 1, 5]) {
        heap.push(k, v);
    }
    assert_eq!(heap.pop(), Some(1));
    assert_eq!(heap.pop(), Some(3));
    assert_eq!(heap.pop(), Some(5));
    assert_eq!(heap.pop(), None);
    let with_room: BinaryHeap<usize, i32, MinComparator> = BinaryHeap::with_capacity_min(10);
    assert!(with_room.capacity() >= 10);
    assert!(with_room.is_empty());
}

#[test]
fn heap_by_function() {
    let mut heap = BinaryHeap::new_by(|a: &i32, b: &i32| Order::from_ordering(b.cmp(a)));
    for (k, v) in indexed(&[3, 1, 5]) {
        heap.push(k, v);
    }
    assert_eq!(heap.pop(), Some(1));
    let mut with_room =
        BinaryHeap::with_capacity_by(10, |a: &i32, b: &i32| Order::from_ordering(a.cmp(b)));
    assert!(with_room.capacity() >= 10);
    with_room.push(0usize, 3);
    with_room.push(1, 5);
    assert_eq!(with_room.pop(), Some(5));
}

#[test]
fn heap_by_sort_key() {
    let mut heap = BinaryHeap::new_by_sort_key(|a: &i32| a % 4);
    for (k, v) in indexed(&[3, 1, 5]) {
        heap.push(k, v);
    }
    assert_eq!(heap.pop(), Some(3));
    let mut with_room = BinaryHeap::with_capacity_by_sort_key(10, |a: &i32| a % 4);
    assert!(with_room.capacity() >= 10);
    with_room.push(0usize, 6);
    with_room.push(1, 3);
    with_room.push(2, 1);
    assert_eq!(with_room.pop(), Some(3));
}

#[test]
fn comparators_answer_three_ways() {
    assert_eq!(MaxComparator.compare(&1, &2), Ordering::Less);
    assert_eq!(MaxComparator.compare(&2, &2), Ordering::Equal);
    assert_eq!(MaxComparator.compare(&3, &2), Ordering::Greater);
    assert_eq!(MinComparator.compare(&1, &2), Ordering::Greater);
    assert_eq!(MinComparator.compare(&2, &2), Ordering::Equal);
    assert_eq!(MinComparator.compare(&3, &2), Ordering::Less);
    let by_len = KeyComparator(|s: &&str| s.len());
    assert_eq!(by_len.compare(&"aa", &"b"), Ordering::Greater);
    assert_eq!(by_len.compare(&"aa", &"bb"), Ordering::Equal);
    let backwards = FnComparator(|a: &i32, b: &i32| Order::from_ordering(b.cmp(a)));
    assert_eq!(backwards.compare(&1, &2), Ordering::Greater);
    assert_eq!(Order::Greater.into_ordering(), Ordering::Greater);
    assert_eq!(Order::from_ordering(Ordering::Less), Order::Less);
}

#[test]
fn equal_values_take_the_first_child() {
    // of two children that rank alike the first one moves up
    let mut heap = BinaryHeap::new_by_sort_key(|a: &(i32, char)| a.0);
    heap.push(0usize, (9, 'r'));
    heap.push(1, (5, 'a'));
    heap.push(2, (5, 'b'));
    assert_eq!(heap.pop_with_key(), Some((0, (9, 'r'))));
    assert_eq!(heap.pop_with_key(), Some((1, (5, 'a'))));
    assert_eq!(heap.pop_with_key(), Some((2, (5, 'b'))));
}

#[test]
fn update_restores_order_after_a_change() {
    let data = vec![(0usize, 10), (1, 1), (2, 8), (3, 4), (4, 5)];
    let mut keys = std::collections::HashMap::new();
    for (i, kv) in data.iter().enumerate() {
        keys.insert(kv.0, i);
    }
    // the value under key 1 is out of order; everything else is a heap
    let mut heap = BinaryHeap::new_from_data_raw(data, keys, MaxComparator, false);
    heap.update(&1);
    check_shape(&heap);
    assert_eq!(pop_all(&mut heap), vec![10, 8, 5, 4, 1]);

    let data = vec![(0usize, 10), (1, 9), (2, 8), (3, 4), (4, 50)];
    let mut keys = std::collections::HashMap::new();
    for (i, kv) in data.iter().enumerate() {
        keys.insert(kv.0, i);
    }
    let mut heap = BinaryHeap::new_from_data_raw(data, keys, MaxComparator, false);
    heap.update(&4);
    check_shape(&heap);
    assert_eq!(heap.peek_with_key(), Some((&4, &50)));
}

#[test]
fn raw_parts_are_rebuilt_on_request() {
    let data = vec![(0usize, 1), (1, 2), (2, 3), (3, 4)];
    let mut keys = std::collections::HashMap::new();
    for (i, kv) in data.iter().enumerate() {
        keys.insert(kv.0, i);
    }
    let mut heap = BinaryHeap::new_from_data_raw(data, keys, MaxComparator, true);
    check_shape(&heap);
    assert_eq!(heap.peek(), Some(&4));
    heap.replace_cmp_raw(MaxComparator, false);
    check_shape(&heap);
    let (data, keys, _) = heap.into_parts();
    assert_eq!(data.len(), 4);
    assert_eq!(keys.len(), 4);
    assert_eq!(data[0], (3, 4));
}

#[test]
fn empty_heap_gives_nothing() {
    let mut heap: BinaryHeap<i32, i32> = BinaryHeap::new();
    assert_eq!(heap.peek(), None);
    assert_eq!(heap.peek_with_key(), None);
    assert_eq!(heap.pop(), None);
    assert_eq!(heap.pop_with_key(), None);
    assert_eq!(heap.get(&1), None);
    assert_eq!(heap.remove(&1), None);
    assert!(!heap.contains_key(&1));
    assert_eq!(heap.len(), 0);
    assert!(heap.is_empty());
    let other: BinaryHeap<i32, i32> = Default::default();
    assert!(other.is_empty());
}

#[test]
fn room_is_kept_and_given_up() {
    let mut heap: BinaryHeap<i32, i32> = BinaryHeap::with_capacity(10);
    assert!(heap.capacity() >= 10);
    heap.push(1, 1);
    heap.reserve(100);
    assert!(heap.capacity() >= 101);
    heap.reserve_exact(200);
    assert!(heap.capacity() >= 201);
    heap.shrink_to(50);
    assert!(heap.capacity() >= 50);
    heap.shrink_to_fit();
    assert!(heap.capacity() >= 1);
    assert_eq!(heap.len(), 1);
    assert_eq!(heap.get(&1), Some(&1));
}

#[test]
fn clear_and_drain_empty_storage_and_index() {
    let mut heap: BinaryHeap<usize, i32> = BinaryHeap::from_iter(indexed(&[1, 3, 2]));
    let stored: Vec<(usize, i32)> = heap.data().clone();
    let mut drained = heap.drain();
    assert_eq!(drained.size_hint(), (3, Some(3)));
    assert_eq!(drained.next(), Some(stored[0]));
    assert_eq!(drained.next_back(), Some(stored[2]));
    assert_eq!(drained.next(), Some(stored[1]));
    assert_eq!(drained.next(), None);
    assert_eq!(drained.next_back(), None);
    assert!(heap.is_empty());
    assert_eq!(heap.keys().len(), 0);
    assert_eq!(heap.push(0, 7), None);

    heap.clear();
    assert!(heap.is_empty());
    assert_eq!(heap.keys().len(), 0);
    assert_eq!(heap.push(0, 8), None);
    assert_eq!(heap.pop_with_key(), Some((0, 8)));
}

#[test]
fn cursors_follow_storage_order() {
    let heap: BinaryHeap<usize, i32> = BinaryHeap::from_iter(indexed(&[5, 9, 3]));
    let stored: Vec<(usize, i32)> = heap.data().clone();
    assert_eq!(stored[0], (1, 9));

    let mut entries = heap.iter();
    assert_eq!(entries.size_hint(), (3, Some(3)));
    assert_eq!(entries.next(), Some((&stored[0].0, &stored[0].1)));
    assert_eq!(entries.next_back(), Some((&stored[2].0, &stored[2].1)));
    assert_eq!(entries.size_hint(), (1, Some(1)));
    assert_eq!(entries.last(), Some((&stored[1].0, &stored[1].1)));

    let mut values = heap.iter_values();
    assert_eq!(values.next(), Some(&stored[0].1));
    assert_eq!(values.size_hint(), (2, Some(2)));
    assert_eq!(values.last(), Some(&stored[2].1));

    let mut keys = heap.iter_keys();
    assert_eq!(keys.next(), Some(&stored[0].0));
    assert_eq!(keys.size_hint(), (2, Some(2)));
    assert_eq!(keys.last(), Some(&stored[2].0));

    let mut values = heap.clone().into_values();
    assert_eq!(values.size_hint(), (3, Some(3)));
    assert_eq!(values.next(), Some(stored[0].1));
    assert_eq!(values.next(), Some(stored[1].1));
    assert_eq!(values.next(), Some(stored[2].1));
    assert_eq!(values.next(), None);

    let mut keys = heap.clone().into_keys();
    assert_eq!(keys.size_hint(), (3, Some(3)));
    assert_eq!(keys.next(), Some(stored[0].0));
    assert_eq!(keys.next(), Some(stored[1].0));
    assert_eq!(keys.next(), Some(stored[2].0));
    assert_eq!(keys.next(), None);

    let mut sorted = heap.into_iter_sorted();
    assert_eq!(sorted.size_hint(), (3, Some(3)));
    assert_eq!(sorted.next(), Some(9));
    assert_eq!(sorted.next(), Some(5));
    assert_eq!(sorted.size_hint(), (1, Some(1)));
    assert_eq!(sorted.next(), Some(3));
    assert_eq!(sorted.next(), None);
}
