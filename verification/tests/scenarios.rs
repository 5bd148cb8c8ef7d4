use min_binary_heap::MinBinaryHeap;

#[test]
fn empty_heap() {
    let mut queue: MinBinaryHeap<u8> = MinBinaryHeap::new();

    assert_eq!(queue.size(), 0);
    assert_eq!(queue.extract_min(), None);
    assert_eq!(queue.size(), 0);
}

#[test]
fn single_element() {
    let mut queue: MinBinaryHeap<u8> = MinBinaryHeap::new();
    queue.insert(5);

    assert_eq!(queue.size(), 1);
    assert_eq!(queue.extract_min(), Some(5));
    assert_eq!(queue.extract_min(), None);
    assert_eq!(queue.size(), 0);
}

#[test]
fn two_elements() {
    let mut queue: MinBinaryHeap<u8> = MinBinaryHeap::new();
    queue.insert(10);
    queue.insert(1);

    assert_eq!(queue.extract_min(), Some(1));
    assert_eq!(queue.extract_min(), Some(10));
    assert_eq!(queue.extract_min(), None);
}

#[test]
fn round_trip() {
    let mut queue: MinBinaryHeap<u8> = MinBinaryHeap::new();
    queue.insert(16);
    queue.insert(14);
    queue.insert(10);
    queue.insert(8);
    queue.insert(7);
    queue.insert(9);
    queue.insert(3);
    queue.insert(2);
    queue.insert(4);
    queue.insert(1);

    assert_eq!(queue.size(), 10);
    let expected: Vec<u8> = vec![1, 2, 3, 4, 7, 8, 9, 10, 14, 16];
    for value in expected {
        assert_eq!(queue.extract_min(), Some(value));
    }
    assert_eq!(queue.extract_min(), None);
}

#[test]
fn size_accounting() {
    let mut queue: MinBinaryHeap<u64> = MinBinaryHeap::new();

    assert_eq!(queue.size(), 0);
    queue.insert(3);
    assert_eq!(queue.size(), 1);
    queue.insert(1);
    assert_eq!(queue.size(), 2);
    queue.insert(2);
    assert_eq!(queue.size(), 3);
    // A read alone changes nothing.
    assert_eq!(queue.size(), 3);
    queue.extract_min();
    assert_eq!(queue.size(), 2);
    queue.extract_min();
    assert_eq!(queue.size(), 1);
    queue.extract_min();
    assert_eq!(queue.size(), 0);
    // Extracting from an empty heap removes nothing.
    queue.extract_min();
    assert_eq!(queue.size(), 0);
}

#[test]
fn equal_keys() {
    let mut queue: MinBinaryHeap<u8> = MinBinaryHeap::new();
    queue.insert(5);
    queue.insert(5);
    queue.insert(1);
    queue.insert(5);

    assert_eq!(queue.extract_min(), Some(1));
    assert_eq!(queue.extract_min(), Some(5));
    assert_eq!(queue.extract_min(), Some(5));
    assert_eq!(queue.extract_min(), Some(5));
    assert_eq!(queue.extract_min(), None);
}

#[test]
fn u64_extremes() {
    let mut queue: MinBinaryHeap<u64> = MinBinaryHeap::new();
    queue.insert(u64::MAX);
    queue.insert(0);
    queue.insert(42);

    assert_eq!(queue.extract_min(), Some(0));
    assert_eq!(queue.extract_min(), Some(42));
    assert_eq!(queue.extract_min(), Some(u64::MAX));
    assert_eq!(queue.extract_min(), None);
}

#[test]
fn sorted_output() {
    let mut queue: MinBinaryHeap<u64> = MinBinaryHeap::new();
    // A fixed shuffle of 0..=19 with one duplicate value.
    let input: Vec<u64> = vec![13, 4, 19, 0, 7, 16, 2, 11, 9, 5, 18, 1, 14, 6, 10, 3, 17, 8, 15, 4];
    let count = input.len();
    let mut sorted_input = input.clone();
    sorted_input.sort();
    for value in input {
        queue.insert(value);
    }
    assert_eq!(queue.size(), count);

    let mut drained: Vec<u64> = Vec::new();
    while let Some(value) = queue.extract_min() {
        drained.push(value);
    }
    assert_eq!(drained.len(), count);
    // Non-decreasing, and exactly the inserted multiset.
    for i in 1..drained.len() {
        assert!(drained[i - 1] <= drained[i]);
    }
    assert_eq!(drained, sorted_input);
}

#[test]
fn mixed_operations() {
    let mut queue: MinBinaryHeap<u8> = MinBinaryHeap::new();
    queue.insert(3);
    queue.insert(1);
    assert_eq!(queue.extract_min(), Some(1));
    queue.insert(0);
    queue.insert(2);
    assert_eq!(queue.extract_min(), Some(0));
    assert_eq!(queue.extract_min(), Some(2));
    assert_eq!(queue.extract_min(), Some(3));
    assert_eq!(queue.extract_min(), None);
}
