use interval_heap::{IntervalHeap, Natural, Reversed};

#[test]
fn test_empty_heap() {
    let mut heap = IntervalHeap::<u32>::new();
    assert_eq!(heap.len(), 0);
    assert!(heap.is_empty());
    assert_eq!(heap.min(), None);
    assert_eq!(heap.max(), None);
    assert_eq!(heap.min_max(), None);
    assert_eq!(heap.pop_min(), None);
    assert_eq!(heap.pop_max(), None);
    assert!(heap.min_mut().is_none());
    assert!(heap.max_mut().is_none());
    assert!(heap.is_valid());
}

#[test]
fn test_single_item() {
    let mut heap = IntervalHeap::<i32>::new();
    heap.push(7);
    assert_eq!(heap.len(), 1);
    assert_eq!(heap.min(), Some(&7));
    assert_eq!(heap.max(), Some(&7));
    assert_eq!(heap.min_max(), Some((&7, &7)));
    assert!(heap.is_valid());
    assert_eq!(heap.pop_min(), Some(7));
    assert!(heap.is_empty());
}

#[test]
fn test_two_items_normalize() {
    let heap = IntervalHeap::from_vec(vec![5, 3]);
    assert_eq!(heap.min(), Some(&3));
    assert_eq!(heap.max(), Some(&5));
    assert_eq!(heap.min_max(), Some((&3, &5)));
}

#[test]
fn test_from_four() {
    let heap = IntervalHeap::from_vec(vec![5, 1, 6, 4]);
    assert_eq!(heap.len(), 4);
    assert_eq!(heap.min_max(), Some((&1, &6)));
}

#[test]
fn test_into_sorted_vec_exact() {
    let heap = IntervalHeap::from_vec(vec![5, 3, 8, 1, 9, 2]);
    assert_eq!(heap.into_sorted_vec(), vec![1, 2, 3, 5, 8, 9]);
}

#[test]
fn test_pop_min_sequence() {
    let mut heap = IntervalHeap::from_vec(vec![4, 2, 9, 2, 7]);
    let mut out: Vec<i32> = Vec::new();
    while let Some(x) = heap.pop_min() {
        out.push(x);
        assert!(heap.is_valid());
    }
    assert_eq!(out, vec![2, 2, 4, 7, 9]);
    assert_eq!(heap.len(), 0);
}

#[test]
fn test_pop_max_sequence() {
    let mut heap = IntervalHeap::from_vec(vec![4, 2, 9, 2, 7]);
    let mut out: Vec<i32> = Vec::new();
    while let Some(x) = heap.pop_max() {
        out.push(x);
        assert!(heap.is_valid());
    }
    assert_eq!(out, vec![9, 7, 4, 2, 2]);
}

#[test]
fn test_push_keeps_valid() {
    let mut heap = IntervalHeap::<i32>::new();
    for x in [3, -1, 4, 1, -5, 9, 2, 6, -5, 3] {
        heap.push(x);
        assert!(heap.is_valid());
    }
    assert_eq!(heap.min_max(), Some((&-5, &9)));
    assert_eq!(heap.len(), 10);
}

#[test]
fn test_reversed_comparator() {
    let mut heap = IntervalHeap::<i32, Reversed>::with_comparator(Reversed);
    heap.push(1);
    heap.push(3);
    heap.push(2);
    // under the mirrored rule the "minimum" is the greatest item
    assert_eq!(heap.min_max(), Some((&3, &1)));
    assert_eq!(heap.pop_min(), Some(3));
    assert_eq!(heap.pop_min(), Some(2));
    assert_eq!(heap.pop_min(), Some(1));
    assert_eq!(heap.pop_min(), None);
}

#[test]
fn test_with_capacity_and_reserve() {
    let mut heap = IntervalHeap::<u32>::with_capacity(5);
    assert!(heap.is_empty());
    assert!(heap.capacity() >= 5);
    heap.push(2);
    heap.reserve(10);
    heap.reserve_exact(20);
    assert_eq!(heap.min(), Some(&2));
    heap.shrink_to_fit();
    assert_eq!(heap.pop_max(), Some(2));
    assert!(heap.capacity() >= heap.len());
}

#[test]
fn test_clear() {
    let mut heap = IntervalHeap::from_vec(vec![1, 2, 3]);
    heap.clear();
    assert!(heap.is_empty());
    assert_eq!(heap.min(), None);
    heap.push(4);
    assert_eq!(heap.min_max(), Some((&4, &4)));
}

#[test]
fn test_iter_visits_all() {
    let heap = IntervalHeap::from_vec(vec![4, 1, 3, 2]);
    let mut seen: Vec<i32> = Vec::new();
    let mut it = heap.iter();
    while let Some(x) = it.next() {
        seen.push(*x);
    }
    seen.sort();
    assert_eq!(seen, vec![1, 2, 3, 4]);
    // the iterator is restartable by re-acquiring it
    let mut again = heap.iter();
    assert!(again.next().is_some());
}

#[test]
fn test_into_iter_yields_all() {
    let heap = IntervalHeap::from_vec(vec![4, 1, 3]);
    let mut seen: Vec<i32> = Vec::new();
    let mut it = heap.into_iter();
    while let Some(x) = it.next() {
        seen.push(x);
    }
    seen.sort();
    assert_eq!(seen, vec![1, 3, 4]);
}

#[test]
fn test_drain_empties_heap() {
    let mut heap = IntervalHeap::from_vec(vec![4, 1, 3]);
    let mut seen: Vec<i32> = Vec::new();
    let mut d = heap.drain();
    while let Some(x) = d.next() {
        seen.push(x);
    }
    seen.sort();
    assert_eq!(seen, vec![1, 3, 4]);
    assert!(heap.is_empty());
    heap.push(5);
    assert_eq!(heap.min(), Some(&5));
}

#[test]
fn test_into_vec_keeps_items() {
    let heap = IntervalHeap::from_vec(vec![4, 1, 3]);
    let mut v = heap.into_vec();
    v.sort();
    assert_eq!(v, vec![1, 3, 4]);
}

#[test]
fn test_release_without_mutation() {
    let mut heap = IntervalHeap::from_vec(vec![2, 1, 3]);
    let peek = heap.min_mut().unwrap();
    assert_eq!(*peek.get(), 1);
    heap.release(peek);
    assert_eq!(heap.min_max(), Some((&1, &3)));
    assert_eq!(heap.len(), 3);
    assert!(heap.is_valid());
}

#[test]
fn test_max_mut_lower_than_rest() {
    // shrinking the max below other items must still restore a valid heap
    let mut heap = IntervalHeap::from_vec(vec![1, 5, 3]);
    let mut peek = heap.max_mut().unwrap();
    peek.set(0);
    heap.release(peek);
    assert!(heap.is_valid());
    assert_eq!(heap.min_max(), Some((&0, &3)));
}

#[test]
fn test_min_mut_higher_than_rest() {
    let mut heap = IntervalHeap::from_vec(vec![1, 5, 3]);
    let mut peek = heap.min_mut().unwrap();
    peek.set(9);
    heap.release(peek);
    assert!(heap.is_valid());
    assert_eq!(heap.min_max(), Some((&3, &9)));
}

#[test]
fn test_round_trip_drain_sorted() {
    let input = vec![10, -3, 7, 7, 0, 2, -3, 5];
    let mut expected = input.clone();
    expected.sort();
    let mut heap = IntervalHeap::from_vec(input);
    let mut out: Vec<i32> = Vec::new();
    while let Some(x) = heap.pop_min() {
        out.push(x);
    }
    assert_eq!(out, expected);
    assert_eq!(heap.len(), 0);
}

#[test]
fn test_from_raw_vec_and_comparator_keeps_order() {
    let heap = IntervalHeap::from_raw_vec_and_comparator(vec![1, 5, 2, 4], Natural);
    assert!(heap.is_valid());
    assert_eq!(heap.len(), 4);
}

#[test]
fn test_extend() {
    let mut heap = IntervalHeap::from_vec(vec![4, 9]);
    heap.extend(vec![1, 7, 5]);
    assert_eq!(heap.len(), 5);
    assert_eq!(heap.min_max(), Some((&1, &9)));
    assert_eq!(heap.into_sorted_vec(), vec![1, 4, 5, 7, 9]);
}
