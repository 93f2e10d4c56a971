use graph_metrics::heap::{HeapEntry, MinHeap};

#[test]
fn heap_gives_entries_back_nearest_first() {
    let mut heap = MinHeap::new();
    assert!(heap.is_empty());
    let distances = [5usize, 3, 8, 1, 9, 2, 7, 3, 0, 6];
    for (node, distance) in distances.iter().enumerate() {
        heap.push(HeapEntry { distance: *distance, node });
    }
    assert_eq!(heap.len(), 10);
    let mut taken = Vec::new();
    while let Some(entry) = heap.pop() {
        assert_eq!(distances[entry.node], entry.distance);
        taken.push(entry.distance);
    }
    assert_eq!(taken, vec![0, 1, 2, 3, 3, 5, 6, 7, 8, 9]);
    assert!(heap.is_empty());
    assert_eq!(heap.pop(), None);
}

#[test]
fn heap_keeps_repeated_entries() {
    let mut heap = MinHeap::new();
    let entry = HeapEntry { distance: 4, node: 1 };
    heap.push(entry);
    heap.push(entry);
    heap.push(HeapEntry { distance: 2, node: 7 });
    assert_eq!(heap.len(), 3);
    assert_eq!(heap.pop(), Some(HeapEntry { distance: 2, node: 7 }));
    assert_eq!(heap.pop(), Some(entry));
    assert_eq!(heap.pop(), Some(entry));
    assert_eq!(heap.len(), 0);
}

#[test]
fn heap_orders_many_entries() {
    let mut heap = MinHeap::new();
    let mut seed: usize = 12345;
    let mut expected = Vec::new();
    for node in 0..500 {
        seed = seed.wrapping_mul(6364136223846793005).wrapping_add(1442695040888963407);
        let distance = (seed >> 33) % 1000;
        expected.push(distance);
        heap.push(HeapEntry { distance, node });
    }
    expected.sort();
    let mut taken = Vec::new();
    while let Some(entry) = heap.pop() {
        taken.push(entry.distance);
    }
    assert_eq!(taken, expected);
}
