use external_buffer::Error;
use external_buffer::ExternalBuffer;
use external_buffer::ExternalBufferSled;
use tempfile::TempDir;

type TestItem = (u32, String);

fn test_item(id: u32, name: &str) -> TestItem {
    (id, name.to_string())
}

#[test]
fn test_push_and_shift() {
    let temp_dir = TempDir::new().unwrap();
    let path = temp_dir.path().join("test_db");
    let mut buffer = ExternalBufferSled::new(path.to_str().unwrap()).unwrap();

    let item1 = test_item(1, "first");
    let item2 = test_item(2, "second");

    // Push items
    buffer.push(item1.clone()).unwrap();
    buffer.push(item2.clone()).unwrap();

    // Shift items (should come out in FIFO order)
    let shifted1 = buffer.shift().unwrap();
    assert_eq!(shifted1, Some(item1));

    let shifted2 = buffer.shift().unwrap();
    assert_eq!(shifted2, Some(item2));

    // Buffer should be empty now
    let shifted3: Option<TestItem> = buffer.shift().unwrap();
    assert_eq!(shifted3, None);
}

#[test]
fn test_empty_buffer() {
    let temp_dir = TempDir::new().unwrap();
    let path = temp_dir.path().join("empty_db");
    let mut buffer = ExternalBufferSled::new(path.to_str().unwrap()).unwrap();

    // Empty buffer should return None
    let result: Option<TestItem> = buffer.shift().unwrap();
    assert_eq!(result, None);
}

#[test]
fn test_persistence() {
    let temp_dir = TempDir::new().unwrap();
    let db_path = temp_dir.path().join("persistent_db");

    let item = test_item(42, "persistent");

    // Create buffer, push item, and drop it
    {
        let mut buffer = ExternalBufferSled::new(db_path.to_str().unwrap()).unwrap();
        buffer.push(item.clone()).unwrap();
    }

    // Create new buffer with same path and verify item is still there
    {
        let mut buffer = ExternalBufferSled::new(db_path.to_str().unwrap()).unwrap();
        let retrieved = buffer.shift().unwrap();
        assert_eq!(retrieved, Some(item));
    }
}

#[test]
fn test_multiple_pushes_and_shifts() {
    let temp_dir = TempDir::new().unwrap();
    let path = temp_dir.path().join("multi_db");
    let mut buffer = ExternalBufferSled::new(path.to_str().unwrap()).unwrap();

    let items: Vec<TestItem> = (0..10).map(|i| (i, format!("item_{}", i))).collect();

    // Push all items
    for item in &items {
        buffer.push(item.clone()).unwrap();
    }

    // Shift all items and verify order
    for expected_item in &items {
        let shifted = buffer.shift().unwrap();
        assert_eq!(shifted, Some(expected_item.clone()));
    }

    // Buffer should be empty
    let result: Option<TestItem> = buffer.shift().unwrap();
    assert_eq!(result, None);
}

#[test]
fn sled_test_interleaved_push_and_shift() {
    let temp_dir = TempDir::new().unwrap();
    let path = temp_dir.path().join("interleaved_db");
    let mut buffer = ExternalBufferSled::new(path.to_str().unwrap()).unwrap();

    let item1 = test_item(1, "first");
    let item2 = test_item(2, "second");
    let item3 = test_item(3, "third");

    // Push one, shift one
    buffer.push(item1.clone()).unwrap();
    let shifted1 = buffer.shift().unwrap();
    assert_eq!(shifted1, Some(item1));

    // Push two, shift two
    buffer.push(item2.clone()).unwrap();
    buffer.push(item3.clone()).unwrap();

    let shifted2 = buffer.shift().unwrap();
    assert_eq!(shifted2, Some(item2));

    let shifted3 = buffer.shift().unwrap();
    assert_eq!(shifted3, Some(item3));

    // Should be empty
    let result: Option<TestItem> = buffer.shift().unwrap();
    assert_eq!(result, None);
}

#[test]
fn test_reopen_empty_store_gives_immediate_empty_shift() {
    let temp_dir = TempDir::new().unwrap();
    let db_path = temp_dir.path().join("drained_db");

    // Fill and fully drain the store
    {
        let mut buffer = ExternalBufferSled::new(db_path.to_str().unwrap()).unwrap();
        for i in 0..5u32 {
            buffer.push((i, format!("item_{}", i))).unwrap();
        }
        while buffer.shift().map(|o: Option<TestItem>| o.is_some()).unwrap() {}
    }

    // A reopened drained store has nothing left
    {
        let mut buffer = ExternalBufferSled::new(db_path.to_str().unwrap()).unwrap();
        let result: Option<TestItem> = buffer.shift().unwrap();
        assert_eq!(result, None);
    }
}

#[test]
fn test_recovery_rejects_malformed_key() {
    let keys: Vec<Vec<u8>> = vec![vec![0, 0, 0, 0, 0, 0, 0, 1], vec![1, 2, 3]];
    let result = ExternalBufferSled::initialize_counters(&keys);
    assert_eq!(result, Err(Error::InvalidSledKeyFormat));
}

#[test]
fn test_recovery_bounds_from_keys() {
    let keys: Vec<Vec<u8>> = vec![
        vec![0, 0, 0, 0, 0, 0, 0, 7],
        vec![0, 0, 0, 0, 0, 0, 0, 3],
        vec![0, 0, 0, 0, 0, 0, 0, 5],
    ];
    let (head, tail) = ExternalBufferSled::initialize_counters(&keys).unwrap();
    assert_eq!(head, 3);
    assert_eq!(tail, 8);

    let empty: Vec<Vec<u8>> = Vec::new();
    let (head, tail) = ExternalBufferSled::initialize_counters(&empty).unwrap();
    assert_eq!(head, 0);
    assert_eq!(tail, 0);
}

#[test]
fn test_counters_recovered_across_reopen() {
    let temp_dir = TempDir::new().unwrap();
    let db_path = temp_dir.path().join("counters_db");

    {
        let mut buffer = ExternalBufferSled::new(db_path.to_str().unwrap()).unwrap();
        assert_eq!(buffer.counters(), (0, 0));
        for i in 0..3u32 {
            buffer.push((i, format!("item_{}", i))).unwrap();
        }
        assert_eq!(buffer.counters(), (0, 3));
    }

    {
        let mut buffer = ExternalBufferSled::new(db_path.to_str().unwrap()).unwrap();
        assert_eq!(buffer.counters(), (0, 3));
        let first: Option<TestItem> = buffer.shift().unwrap();
        assert_eq!(first, Some((0, "item_0".to_string())));
        assert_eq!(buffer.counters(), (1, 3));
    }
}

#[test]
fn test_key_from_u64_is_big_endian() {
    assert_eq!(ExternalBufferSled::key_from_u64(0), [0u8; 8]);
    assert_eq!(ExternalBufferSled::key_from_u64(1), [0, 0, 0, 0, 0, 0, 0, 1]);
    assert_eq!(
        ExternalBufferSled::key_from_u64(0x0102030405060708),
        [1, 2, 3, 4, 5, 6, 7, 8]
    );
    assert_eq!(ExternalBufferSled::key_from_u64(u64::MAX), [0xFF; 8]);
}
