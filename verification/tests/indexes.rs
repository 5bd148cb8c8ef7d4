use min_binary_heap::MinBinaryHeap;

fn setup() -> MinBinaryHeap<u8> {
    let mut queue = MinBinaryHeap::new();
    queue.insert(16);
    queue.insert(14);
    queue.insert(10);
    queue.insert(8);
    queue.insert(7);
    queue.insert(9);
    queue.insert(3);
    queue.insert(2);
    queue.insert(4);
    queue.insert(1);

    queue
}

#[test]
fn parent_index() {
    let queue = &setup();

    assert_eq!(queue.parent_index(9), 4);
    assert_eq!(queue.parent_index(8), 3);
    assert_eq!(queue.parent_index(7), 3);
    assert_eq!(queue.parent_index(6), 2);
    assert_eq!(queue.parent_index(5), 2);
    assert_eq!(queue.parent_index(4), 1);
    assert_eq!(queue.parent_index(3), 1);
    assert_eq!(queue.parent_index(2), 0);
    assert_eq!(queue.parent_index(1), 0);
}

#[test]
fn child_index_min() {
    let queue = setup();

    assert_eq!(queue.child_index_min(9), None);
    assert_eq!(queue.child_index_min(8), None);
    assert_eq!(queue.child_index_min(7), None);
    assert_eq!(queue.child_index_min(6), None);
    assert_eq!(queue.child_index_min(5), None);
    assert_eq!(queue.child_index_min(4), Some(9));
    assert_eq!(queue.child_index_min(3), Some(8));
    assert_eq!(queue.child_index_min(2), Some(6));
    assert_eq!(queue.child_index_min(1), Some(4));
    assert_eq!(queue.child_index_min(0), Some(1));
}
