use mut_binary_heap::BinaryHeap;
use std::collections::HashMap;
use std::hash::Hash;

fn assert_key_map_valid<K: Hash + Eq + Clone, T, C>(bh: &BinaryHeap<K, T, C>) {
    let mut expected_keys = HashMap::new();
    for (i, kv) in bh.data().iter().enumerate() {
        expected_keys.insert(kv.0.clone(), i);
    }

    for key_index in &expected_keys {
        let key = &key_index.0;
        let index = *key_index.1;
        assert!(bh.keys().contains_key(&key));
        assert_eq!(bh.keys()[key], index);
    }
    assert_eq!(bh.keys().len(), expected_keys.len());
}

#[test]
fn valid_key_map() {
    let mut heap: BinaryHeap<_, _> = BinaryHeap::new();

    assert_key_map_valid(&heap);

    heap.push(0, 0);

    assert_key_map_valid(&heap);

    heap.push(1, 10);
    heap.push(2, 15);
    heap.push(3, 5);
    heap.push(4, 8);

    assert_key_map_valid(&heap);

    assert_eq!(heap.pop_with_key(), Some((2, 15)));

    assert_key_map_valid(&heap);

    assert_eq!(heap.pop_with_key(), Some((1, 10)));
    assert_eq!(heap.pop_with_key(), Some((4, 8)));

    heap.push(5, 2);

    assert_key_map_valid(&heap);

    assert_eq!(heap.pop_with_key(), Some((3, 5)));
    assert_eq!(heap.pop_with_key(), Some((5, 2)));
    assert_eq!(heap.pop_with_key(), Some((0, 0)));

    assert_key_map_valid(&heap);

    assert_eq!(heap.pop_with_key(), None);

    assert_key_map_valid(&heap);
}

#[test]
fn test_iterator() {
    let data = vec![5, 9, 3];
    let iterout = [9, 5, 3];
    let heap = BinaryHeap::<_, _>::from(data, |k| k.clone());
    let mut i = 0;
    let mut it = heap.iter();
    while let Some(el) = it.next() {
        assert_eq!(*el.1, iterout[i]);
        i += 1;
    }
    assert_eq!(i, 3);
}

#[test]
fn test_move_iter_size_hint() {
    let data = vec![5, 9];
    let pq = BinaryHeap::<_, _>::from(data, |k| k.clone());

    let mut it = pq.into_iter();

    assert_eq!(it.size_hint(), (2, Some(2)));
    assert_eq!(it.next(), Some((9, 9)));

    assert_eq!(it.size_hint(), (1, Some(1)));
    assert_eq!(it.next(), Some((5, 5)));

    assert_eq!(it.size_hint(), (0, Some(0)));
    assert_eq!(it.next(), None);
}

#[test]
fn test_peek_and_pop() {
    let data = vec![2, 4, 6, 2, 1, 8, 10, 3, 5, 7, 0, 9, 1];
    let mut sorted = data.clone();
    sorted.sort();
    // each value is its own key, and a heap holds one entry for a key
    sorted.dedup();
    let mut heap = BinaryHeap::<_, _>::from(data, |k| k.clone());
    while !heap.is_empty() {
        assert_eq!(heap.peek().unwrap(), sorted.last().unwrap());
        assert_eq!(heap.pop().unwrap(), sorted.pop().unwrap());
    }
    assert!(sorted.is_empty());
}
