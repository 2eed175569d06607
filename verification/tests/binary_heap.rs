use algorithms::tree::binary_heap::MaxBinaryHeap;

#[test]
fn binary_heap_test_insert() {
    let mut heap: MaxBinaryHeap<u32> = MaxBinaryHeap::new();

    assert_eq!(heap.values, Vec::new());

    heap.insert(10);
    assert_eq!(heap.values, vec![10]);

    heap.insert(8);
    assert_eq!(heap.values, vec![10, 8]);

    heap.insert(12);
    assert_eq!(heap.values, vec![12, 8, 10]);

    heap.insert(9);
    assert_eq!(heap.values, vec![12, 9, 10, 8]);

    heap.insert(11);
    assert_eq!(heap.values, vec![12, 11, 10, 8, 9]);

    heap.insert(4);
    assert_eq!(heap.values, vec![12, 11, 10, 8, 9, 4]);

    heap.insert(20);
    assert_eq!(heap.values, vec![20, 11, 12, 8, 9, 4, 10]);

    heap.insert(20);
    assert_eq!(heap.values, vec![20, 20, 12, 11, 9, 4, 10, 8]);
}

#[test]
fn test_extract() {
    let mut heap: MaxBinaryHeap<u32> = MaxBinaryHeap::new();
    heap.insert(20);
    heap.insert(20);
    heap.insert(12);
    heap.insert(11);
    heap.insert(10);
    heap.insert(9);
    heap.insert(8);
    heap.insert(4);

    assert_eq!(heap.extract(), Some(20));
    assert_eq!(heap.extract(), Some(20));
    assert_eq!(heap.extract(), Some(12));
    assert_eq!(heap.extract(), Some(11));
    assert_eq!(heap.extract(), Some(10));
    assert_eq!(heap.extract(), Some(9));
    assert_eq!(heap.extract(), Some(8));
    assert_eq!(heap.extract(), Some(4));
    assert_eq!(heap.extract(), None);
}

#[test]
fn heap_positions_of_parents_and_children() {
    let mut heap: MaxBinaryHeap<u32> = MaxBinaryHeap::new();
    for value in [50, 30, 40, 10, 20] {
        heap.insert(value);
    }
    assert_eq!(heap.values, vec![50, 30, 40, 10, 20]);
    assert_eq!(heap.get_parent_index_of(0), None);
    assert_eq!(heap.get_parent_index_of(1), Some(0));
    assert_eq!(heap.get_parent_index_of(2), Some(0));
    assert_eq!(heap.get_parent_index_of(4), Some(1));
    assert_eq!(heap.get_index_of_first_child(0), Some(1));
    assert_eq!(heap.get_index_of_second_child(0), Some(2));
    assert_eq!(heap.get_index_of_first_child(1), Some(3));
    assert_eq!(heap.get_index_of_second_child(1), Some(4));
    assert_eq!(heap.get_index_of_first_child(2), None);
    assert_eq!(heap.get_index_of_second_child(2), None);
    assert_eq!(heap.get_index_of_greater_child(0), Some(2));
    assert_eq!(heap.get_index_of_greater_child(1), Some(4));
    assert_eq!(heap.get_index_of_greater_child(2), None);
    assert_eq!(heap.extract(), Some(50));
    assert_eq!(heap.values, vec![40, 30, 20, 10]);
    assert_eq!(heap.get_index_of_greater_child(1), Some(3));
}
