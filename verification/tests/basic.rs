use interval_heap::{IntervalHeap, Natural};

fn raw(data: Vec<i32>) -> IntervalHeap<i32> {
    IntervalHeap::from_raw_vec_and_comparator(data, Natural)
}

#[test]
fn test_from_vec() {
    let heap = IntervalHeap::<i32>::from_vec(vec![]);
    assert_eq!(heap.min_max(), None);

    let heap = IntervalHeap::from_vec(vec![2]);
    assert_eq!(heap.min_max(), Some((&2, &2)));

    let heap = IntervalHeap::from_vec(vec![2, 1]);
    assert_eq!(heap.min_max(), Some((&1, &2)));

    let heap = IntervalHeap::from_vec(vec![2, 1, 3]);
    assert_eq!(heap.min_max(), Some((&1, &3)));
}

#[test]
fn test_is_valid() {
    assert!(raw(vec![]).is_valid());
    assert!(raw(vec![1]).is_valid());
    assert!(raw(vec![1, 1]).is_valid());
    assert!(raw(vec![1, 5]).is_valid());
    assert!(raw(vec![1, 5, 1]).is_valid());
    assert!(raw(vec![1, 5, 1, 1]).is_valid());
    assert!(raw(vec![1, 5, 5]).is_valid());
    assert!(raw(vec![1, 5, 5, 5]).is_valid());
    assert!(raw(vec![1, 5, 2, 4]).is_valid());
    assert!(raw(vec![1, 5, 2, 4, 3]).is_valid());
    assert!(raw(vec![1, 5, 2, 4, 3, 3]).is_valid());

    assert!(!raw(vec![2, 1]).is_valid()); // violates within-node order
    assert!(!raw(vec![1, 5, 4, 3]).is_valid()); // violates within-node order
    assert!(!raw(vec![1, 5, 0]).is_valid()); // violates low containment
    assert!(!raw(vec![1, 5, 0, 5]).is_valid()); // violates low containment
    assert!(!raw(vec![1, 5, 6]).is_valid()); // violates high containment
    assert!(!raw(vec![1, 5, 1, 6]).is_valid()); // violates high containment
    assert!(!raw(vec![1, 5, 0, 6]).is_valid()); // violates both containments
}

#[test]
fn test_min_mut() {
    let mut heap = IntervalHeap::<i32>::from_vec(vec![2, 1, 3]);

    let mut peek = heap.min_mut().unwrap();
    peek.set(0);
    heap.release(peek);

    assert_eq!(heap.min_max(), Some((&0, &3)));

    let peek = heap.min_mut().unwrap();
    assert_eq!(peek.pop(&mut heap), 0);

    assert_eq!(heap.min_max(), Some((&2, &3)));
    assert_eq!(heap.len(), 2);
}

#[test]
fn test_max_mut() {
    let mut heap = IntervalHeap::<i32>::from_vec(vec![2, 1, 3]);

    let mut peek = heap.max_mut().unwrap();
    peek.set(6);
    heap.release(peek);

    assert_eq!(heap.min_max(), Some((&1, &6)));

    let peek = heap.max_mut().unwrap();
    assert_eq!(peek.pop(&mut heap), 6);

    assert_eq!(heap.min_max(), Some((&1, &2)));
    assert_eq!(heap.len(), 2);
}
