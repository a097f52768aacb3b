use algorithms::heap::Heap;
use algorithms::heap::MaxCmp;
use algorithms::heap::MaxHeap;
use algorithms::heap::MinCmp;
use algorithms::heap::MinHeap;

#[test]
fn test_empty_heap() {
    let mut heap = MaxHeap::new::<i32>();
    assert_eq!(heap.next(), None);
}

#[test]
fn test_min_heap() {
    let mut heap = MinHeap::new();
    heap.add(4);
    heap.add(2);
    heap.add(9);
    heap.add(11);
    assert_eq!(heap.len(), 4);
    assert_eq!(heap.next(), Some(2));
    assert_eq!(heap.next(), Some(4));
    assert_eq!(heap.next(), Some(9));
    heap.add(1);
    assert_eq!(heap.next(), Some(1));
}

#[test]
fn test_max_heap() {
    let mut heap = MaxHeap::new();
    heap.add(4);
    heap.add(2);
    heap.add(9);
    heap.add(11);
    assert_eq!(heap.len(), 4);
    assert_eq!(heap.next(), Some(11));
    assert_eq!(heap.next(), Some(9));
    assert_eq!(heap.next(), Some(4));
    heap.add(1);
    assert_eq!(heap.next(), Some(2));
}

#[test]
fn test_generic_constructors() {
    let mut min: Heap<i32, MinCmp> = Heap::new_min();
    let mut max: Heap<i32, MaxCmp> = Heap::new_max();
    min.add(7);
    min.add(-3);
    max.add(7);
    max.add(-3);
    assert_eq!(min.next(), Some(-3));
    assert_eq!(max.next(), Some(7));
}

#[test]
fn test_sorted_extraction_with_duplicates() {
    let mut heap = MinHeap::new();
    for v in [5, 3, 8, 3, 1, 8, 0, 5] {
        heap.add(v);
    }
    let out = heap.drain();
    assert_eq!(out, vec![0, 1, 3, 3, 5, 5, 8, 8]);
    assert!(heap.is_empty());
    assert_eq!(heap.next(), None);
}

#[test]
fn test_drain_max_order() {
    let mut heap = MaxHeap::new();
    for v in [4u64, 2, 9, 11, 9] {
        heap.add(v);
    }
    let out = heap.drain();
    assert_eq!(out, vec![11, 9, 9, 4, 2]);
}

#[test]
fn test_count_conservation() {
    let mut heap = MinHeap::new();
    let inserted: [i32; 6] = [10, -4, 6, 0, 6, 2];
    for (k, v) in inserted.iter().enumerate() {
        heap.add(*v);
        assert_eq!(heap.len(), k + 1);
    }
    for j in 1..=4usize {
        assert!(heap.next().is_some());
        assert_eq!(heap.len(), 6 - j);
    }
    assert_eq!(heap.len(), 2);
    assert!(!heap.is_empty());
}

#[test]
fn test_exhaustion_keeps_signalling() {
    let mut heap = MinHeap::new::<i32>();
    assert_eq!(heap.next(), None);
    assert_eq!(heap.next(), None);
    heap.add(3);
    assert_eq!(heap.next(), Some(3));
    assert_eq!(heap.next(), None);
    assert_eq!(heap.next(), None);
    assert_eq!(heap.len(), 0);
}

#[test]
fn test_singleton() {
    let mut heap = MaxHeap::new();
    heap.add(42);
    assert_eq!(heap.len(), 1);
    assert_eq!(heap.next(), Some(42));
    assert_eq!(heap.next(), None);
}

fn check_min_invariant(heap: &Heap<i32, MinCmp>) {
    let items = heap.storage();
    for c in 1..items.len() {
        let p = (c - 1) / 2;
        assert!(items[p] <= items[c], "parent {} outranked by child {}", items[p], items[c]);
    }
}

fn check_max_invariant(heap: &Heap<i32, MaxCmp>) {
    let items = heap.storage();
    for c in 1..items.len() {
        let p = (c - 1) / 2;
        assert!(items[p] >= items[c], "parent {} outranked by child {}", items[p], items[c]);
    }
}

#[test]
fn test_invariant_after_every_mutation() {
    let values = [7, 1, 9, 1, -5, 12, 3, 3, 0, 8];
    let mut min = MinHeap::new();
    let mut max = MaxHeap::new();
    for v in values {
        min.add(v);
        check_min_invariant(&min);
        max.add(v);
        check_max_invariant(&max);
    }
    while !min.is_empty() {
        min.next();
        check_min_invariant(&min);
    }
    while !max.is_empty() {
        max.next();
        check_max_invariant(&max);
    }
}

#[test]
fn test_reuse_after_drain() {
    let mut heap = MinHeap::new();
    heap.add(2);
    heap.add(1);
    let first = heap.drain();
    assert_eq!(first, vec![1, 2]);
    heap.add(5);
    heap.add(4);
    assert_eq!(heap.next(), Some(4));
    assert_eq!(heap.next(), Some(5));
    assert_eq!(heap.next(), None);
}
