use external_buffer::ExternalBuffer;
use external_buffer::ExternalBufferQueue;
use external_buffer::Prioritized;

type TestItem = Prioritized<(i32, u32), String>;

fn test_item(priority: i32, id: u32, name: &str) -> TestItem {
    Prioritized { key: (priority, id), item: name.to_string() }
}

#[test]
fn test_new_queue_is_empty() {
    let mut buffer = ExternalBufferQueue::<i32>::new();
    assert!(buffer.shift().unwrap().is_none());
}

#[test]
fn test_push_and_shift_single_item() {
    let mut buffer = ExternalBufferQueue::new();

    buffer.push(42).unwrap();
    assert_eq!(buffer.shift().unwrap(), Some(42));
    assert!(buffer.shift().unwrap().is_none());
}

#[test]
fn test_push_and_shift_multiple_items() {
    let mut buffer = ExternalBufferQueue::new();

    let item1 = test_item(1, 1, "low priority");
    let item2 = test_item(5, 2, "high priority");
    let item3 = test_item(3, 3, "medium priority");

    // Push items
    buffer.push(item1.clone()).unwrap();
    buffer.push(item2.clone()).unwrap();
    buffer.push(item3.clone()).unwrap();

    // Should get items in max-heap order (highest priority first)
    assert_eq!(buffer.shift().unwrap(), Some(item2)); // priority 5
    assert_eq!(buffer.shift().unwrap(), Some(item3)); // priority 3
    assert_eq!(buffer.shift().unwrap(), Some(item1)); // priority 1
    assert!(buffer.shift().unwrap().is_none());
}

#[test]
fn test_max_heap_behavior() {
    let mut buffer = ExternalBufferQueue::new();

    // Push numbers in arbitrary order
    let numbers = vec![3, 1, 4, 1, 5, 9, 2, 6, 5, 3];
    for num in &numbers {
        buffer.push(*num).unwrap();
    }

    let mut result = Vec::new();
    while let Some(item) = buffer.shift().unwrap() {
        result.push(item);
    }

    // Should be in descending order (max-heap)
    let mut expected = numbers.clone();
    expected.sort_by(|a, b| b.cmp(a)); // Sort descending
    assert_eq!(result, expected);
}

#[test]
fn queue_test_interleaved_push_and_shift() {
    let mut buffer = ExternalBufferQueue::new();

    buffer.push(3).unwrap();
    buffer.push(1).unwrap();
    assert_eq!(buffer.shift().unwrap(), Some(3)); // Max so far

    buffer.push(4).unwrap();
    buffer.push(2).unwrap();
    assert_eq!(buffer.shift().unwrap(), Some(4)); // New max
    assert_eq!(buffer.shift().unwrap(), Some(2));
    assert_eq!(buffer.shift().unwrap(), Some(1));
    assert!(buffer.shift().unwrap().is_none());
}

#[test]
fn test_same_priority_items() {
    let mut buffer = ExternalBufferQueue::new();

    let item1 = test_item(5, 1, "first");
    let item2 = test_item(5, 2, "second");
    let item3 = test_item(5, 3, "third");

    buffer.push(item1.clone()).unwrap();
    buffer.push(item2.clone()).unwrap();
    buffer.push(item3.clone()).unwrap();

    // All have same priority, but different ids
    // Order should be determined by the secondary field (id)
    let first = buffer.shift().unwrap().unwrap();
    let second = buffer.shift().unwrap().unwrap();
    let third = buffer.shift().unwrap().unwrap();

    assert_eq!(first.key.0, 5);
    assert_eq!(second.key.0, 5);
    assert_eq!(third.key.0, 5);

    // Should maintain heap property
    assert!(first >= second);
    assert!(second >= third);
}

#[test]
fn test_large_dataset() {
    let mut buffer = ExternalBufferQueue::new();

    // Push a large number of items
    let n = 1000;
    for i in 0..n {
        buffer.push(i).unwrap();
    }

    // Verify all items come out in correct order
    for expected in (0..n).rev() {
        assert_eq!(buffer.shift().unwrap(), Some(expected));
    }

    assert!(buffer.shift().unwrap().is_none());
}

#[test]
fn test_no_loss_with_interspersed_empty_shifts() {
    let mut buffer = ExternalBufferQueue::new();
    assert_eq!(buffer.shift().unwrap(), None::<u64>);
    buffer.push(7u64).unwrap();
    buffer.push(9u64).unwrap();
    assert_eq!(buffer.shift().unwrap(), Some(9));
    assert_eq!(buffer.shift().unwrap(), Some(7));
    assert_eq!(buffer.shift().unwrap(), None);
    buffer.push(7u64).unwrap();
    assert_eq!(buffer.shift().unwrap(), Some(7));
    assert_eq!(buffer.shift().unwrap(), None);
}

#[test]
fn test_equal_keys_keep_both_items() {
    let mut buffer = ExternalBufferQueue::new();
    buffer.push(test_item(2, 1, "one")).unwrap();
    buffer.push(test_item(2, 1, "one")).unwrap();
    let a = buffer.shift().unwrap().unwrap();
    let b = buffer.shift().unwrap().unwrap();
    assert_eq!(a, test_item(2, 1, "one"));
    assert_eq!(b, test_item(2, 1, "one"));
    assert!(buffer.shift().unwrap().is_none());
}
