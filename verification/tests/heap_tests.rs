use binary_heap::Heap;
use binary_heap::MaxFirst;
use binary_heap::MaxHeap;
use binary_heap::MinFirst;
use binary_heap::MinHeap;

#[test]
fn test_empty_heap() {
    let mut heap = MaxHeap::new::<i32>();
    assert_eq!(heap.next(), None);
}

#[test]
fn test_min_heap() {
    let mut heap = MinHeap::new();
    heap.add(4);
    heap.add(2);
    heap.add(9);
    heap.add(11);
    assert_eq!(heap.len(), 4);
    assert_eq!(heap.next(), Some(2));
    assert_eq!(heap.next(), Some(4));
    assert_eq!(heap.next(), Some(9));
    heap.add(1);
    assert_eq!(heap.next(), Some(1));
}

#[test]
fn test_max_heap() {
    let mut heap = MaxHeap::new();
    heap.add(4);
    heap.add(2);
    heap.add(9);
    heap.add(11);
    assert_eq!(heap.len(), 4);
    assert_eq!(heap.next(), Some(11));
    assert_eq!(heap.next(), Some(9));
    assert_eq!(heap.next(), Some(4));
    heap.add(1);
    assert_eq!(heap.next(), Some(2));
}

#[test]
fn min_extraction_order() {
    let mut heap = MinHeap::new();
    heap.add(4);
    heap.add(2);
    heap.add(9);
    heap.add(11);
    assert_eq!(heap.next(), Some(2));
    assert_eq!(heap.next(), Some(4));
    assert_eq!(heap.next(), Some(9));
    assert_eq!(heap.next(), Some(11));
    assert_eq!(heap.next(), None);
}

#[test]
fn max_extraction_order() {
    let mut heap = MaxHeap::new();
    heap.add(4);
    heap.add(2);
    heap.add(9);
    heap.add(11);
    assert_eq!(heap.next(), Some(11));
    assert_eq!(heap.next(), Some(9));
    assert_eq!(heap.next(), Some(4));
    assert_eq!(heap.next(), Some(2));
    assert_eq!(heap.next(), None);
}

#[test]
fn min_heap_extracts_sorted() {
    let mut heap = MinHeap::new();
    for v in [5, 3, 8, 1, 9, 2, 7] {
        heap.add(v);
    }
    let mut drained = Vec::new();
    while let Some(v) = heap.next() {
        drained.push(v);
    }
    assert_eq!(drained, vec![1, 2, 3, 5, 7, 8, 9]);
}

#[test]
fn add_after_partial_drain() {
    let mut heap = MinHeap::new();
    heap.add(4);
    heap.add(2);
    heap.add(9);
    heap.add(11);
    assert_eq!(heap.next(), Some(2));
    heap.add(1);
    assert_eq!(heap.next(), Some(1));
    assert_eq!(heap.next(), Some(4));
    assert_eq!(heap.next(), Some(9));
    assert_eq!(heap.next(), Some(11));
}

#[test]
fn empty_heap_exhaustion_repeats() {
    let mut heap = MinHeap::new::<i32>();
    assert_eq!(heap.next(), None);
    assert_eq!(heap.next(), None);
    assert_eq!(heap.next(), None);
    heap.add(7);
    assert_eq!(heap.next(), Some(7));
    assert_eq!(heap.next(), None);
    assert_eq!(heap.next(), None);
}

#[test]
fn len_tracks_adds_and_extractions() {
    let mut heap = MaxHeap::new::<i32>();
    assert_eq!(heap.len(), 0);
    heap.add(3);
    assert_eq!(heap.len(), 1);
    heap.add(5);
    heap.add(5);
    assert_eq!(heap.len(), 3);
    assert_eq!(heap.next(), Some(5));
    assert_eq!(heap.len(), 2);
    assert_eq!(heap.next(), Some(5));
    assert_eq!(heap.next(), Some(3));
    assert_eq!(heap.len(), 0);
    // an extraction that produces nothing leaves the count alone
    assert_eq!(heap.next(), None);
    assert_eq!(heap.len(), 0);
    heap.add(1);
    assert_eq!(heap.len(), 1);
}

#[test]
fn is_empty_iff_len_zero() {
    let mut heap = MinHeap::new::<i32>();
    assert!(heap.is_empty());
    assert_eq!(heap.len(), 0);
    heap.add(10);
    assert!(!heap.is_empty());
    assert_eq!(heap.len(), 1);
    heap.next();
    assert!(heap.is_empty());
    assert_eq!(heap.len(), 0);
}

#[test]
fn duplicates_are_kept() {
    let mut heap = MinHeap::new();
    heap.add(3);
    heap.add(1);
    heap.add(3);
    heap.add(1);
    assert_eq!(heap.next(), Some(1));
    assert_eq!(heap.next(), Some(1));
    assert_eq!(heap.next(), Some(3));
    assert_eq!(heap.next(), Some(3));
    assert_eq!(heap.next(), None);
}

#[test]
fn new_with_explicit_comparator() {
    let mut heap = Heap::new(MaxFirst);
    heap.add(2u64);
    heap.add(8u64);
    heap.add(5u64);
    assert_eq!(heap.next(), Some(8));
    assert_eq!(heap.next(), Some(5));
    assert_eq!(heap.next(), Some(2));

    let mut low = Heap::new(MinFirst);
    low.add(2usize);
    low.add(8usize);
    assert_eq!(low.next(), Some(2));
}

#[test]
fn typed_constructors() {
    let mut small = Heap::new_min();
    small.add(6i64);
    small.add(-4i64);
    assert_eq!(small.next(), Some(-4));
    assert_eq!(small.next(), Some(6));

    let mut big = Heap::new_max();
    big.add(6u32);
    big.add(4u32);
    assert_eq!(big.next(), Some(6));
    assert_eq!(big.next(), Some(4));
}
