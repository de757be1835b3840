use kiwi_store::{
    borrowed_to_owned, deserialize_value, owned_to_value, serialize_value, BorrowedEntry,
    DeserializationError, Key, OwnedEntry, Store, StoreError, Value, HEADER_SIZE,
};

#[test]
fn test_roundtrip_values() -> Result<(), DeserializationError> {
    let v = Value::Int(2025);
    let s = serialize_value(&v);
    let (out, _) = deserialize_value(&s)?;
    assert_eq!(out, BorrowedEntry::Int(2025));

    let v2 = Value::String("hello".into());
    let s2 = serialize_value(&v2);
    let (out2, _) = deserialize_value(&s2)?;
    assert_eq!(out2, BorrowedEntry::Text("hello"));

    Ok(())
}

#[test]
fn test_checksum_catches_corruption() {
    let v = Value::String("abcdef".into());
    let mut s = serialize_value(&v);
    let header_size = HEADER_SIZE;
    s[header_size] ^= 0xFF;

    let result = deserialize_value(&s);
    assert!(result.is_err());

    let err = result.unwrap_err();
    assert!(matches!(err, DeserializationError::ChecksumMismatch { .. }));
}

#[test]
fn test_borrowed_owned() {
    let b = BorrowedEntry::Text("hi");
    let o = borrowed_to_owned(&b);
    assert_eq!(o, OwnedEntry::Text("hi".into()));
    let b2 = BorrowedEntry::Int(7);
    let o2 = borrowed_to_owned(&b2);
    assert_eq!(o2, OwnedEntry::Int(7));
}

#[test]
fn test_owned_to_value() {
    let o = OwnedEntry::Text("x".into());
    assert_eq!(owned_to_value(&o), Value::String("x".into()));
    let o2 = OwnedEntry::Int(5);
    assert_eq!(owned_to_value(&o2), Value::Int(5));
}

#[test]
fn test_store_iterator() -> Result<(), StoreError> {
    let mut store = Store::new();

    store.put(Key::String("k1".into()), Value::Int(1));
    store.put(Key::Int(2), Value::String("v2".into()));
    store.put(Key::String("k3".into()), Value::String("v3".into()));

    let mut entries = Vec::new();
    let mut it = store.iter();
    while let Some(entry) = it.next() {
        entries.push(entry);
    }

    assert_eq!(entries.len(), 3);

    let mut found_items = 0;
    for (key, value_result) in entries {
        let value = value_result?;
        match (key, value) {
            (Key::String(s), BorrowedEntry::Int(1)) if s == "k1" => found_items += 1,
            (Key::Int(2), BorrowedEntry::Text("v2")) => found_items += 1,
            (Key::String(s), BorrowedEntry::Text("v3")) if s == "k3" => found_items += 1,
            _ => {}
        }
    }
    assert_eq!(found_items, 3);

    Ok(())
}

#[test]
fn test_keys_iterator() {
    let mut store = Store::new();
    store.put(Key::String("a".into()), Value::Int(1));
    store.put(Key::Int(42), Value::String("test".into()));

    let keys = store.keys();
    assert_eq!(keys.len(), 2);
}

#[test]
fn test_values_iterator() -> Result<(), StoreError> {
    let mut store = Store::new();
    store.put(Key::String("a".into()), Value::Int(1));
    store.put(Key::String("b".into()), Value::String("hello".into()));

    let values: Result<Vec<_>, _> = store.values().into_iter().collect();
    let values = values?;
    assert_eq!(values.len(), 2);

    Ok(())
}

#[test]
fn test_buffer_iterator_preserves_order() -> Result<(), StoreError> {
    let mut store = Store::new();

    store.put(Key::String("first".into()), Value::Int(1));
    store.put(Key::String("second".into()), Value::Int(2));
    store.put(Key::String("third".into()), Value::Int(3));

    let mut collected = Vec::new();
    let mut it = store.buffer_iter();
    while let Some(entry) = it.next() {
        collected.push(entry);
    }
    let values: Result<Vec<_>, _> = collected.into_iter().collect();
    let values = values?;

    assert_eq!(values, vec![
        BorrowedEntry::Int(1),
        BorrowedEntry::Int(2),
        BorrowedEntry::Int(3),
    ]);

    Ok(())
}

#[test]
fn test_multiple_entries() -> Result<(), StoreError> {
    let mut store = Store::new();

    store.put(Key::String("k1".into()), Value::Int(1));
    store.put(Key::Int(2), Value::String("v2".into()));
    store.put(Key::String("k3".into()), Value::String("v3".into()));

    assert_eq!(store.get(&Key::String("k1".into()))?, BorrowedEntry::Int(1));
    assert_eq!(store.get(&Key::Int(2))?, BorrowedEntry::Text("v2"));
    assert_eq!(store.get(&Key::String("k3".into()))?, BorrowedEntry::Text("v3"));

    let result = store.get(&Key::Int(999));
    assert!(result.is_err());
    assert!(matches!(result.unwrap_err(), StoreError::KeyNotFound(_)));

    Ok(())
}

#[test]
fn test_delete() -> Result<(), StoreError> {
    let mut store = Store::new();
    store.put(Key::String("key1".into()), Value::Int(42));
    store.put(Key::String("key2".into()), Value::Int(100));

    assert_eq!(store.get(&Key::String("key1".into()))?, BorrowedEntry::Int(42));

    store.delete(&Key::String("key1".into()))?;

    let result = store.get(&Key::String("key1".into()));
    assert!(result.is_err());
    assert!(matches!(result.unwrap_err(), StoreError::KeyNotFound(_)));

    assert_eq!(store.get(&Key::String("key2".into()))?, BorrowedEntry::Int(100));

    let result = store.delete(&Key::String("nonexistent".into()));
    assert!(result.is_err());

    Ok(())
}

#[test]
fn test_compaction() -> Result<(), StoreError> {
    let mut store = Store::new();

    store.put(Key::String("k1".into()), Value::Int(1));
    store.put(Key::String("k2".into()), Value::Int(2));
    store.put(Key::String("k3".into()), Value::Int(3));

    let initial_size = store.data_len();

    store.put(Key::String("k1".into()), Value::Int(100));

    store.delete(&Key::String("k2".into()))?;

    let size_before_compact = store.data_len();
    assert!(size_before_compact > initial_size);

    let bytes_reclaimed = store.compact()?;
    assert!(bytes_reclaimed > 0);

    let size_after_compact = store.data_len();
    assert!(size_after_compact < size_before_compact);

    assert_eq!(store.get(&Key::String("k1".into()))?, BorrowedEntry::Int(100));
    assert_eq!(store.get(&Key::String("k3".into()))?, BorrowedEntry::Int(3));

    let result = store.get(&Key::String("k2".into()));
    assert!(result.is_err());

    Ok(())
}

#[test]
fn test_overwrite_behavior() -> Result<(), StoreError> {
    let mut store = Store::new();
    store.put(Key::Int(1), Value::Int(10));
    assert_eq!(store.get(&Key::Int(1))?, BorrowedEntry::Int(10));

    store.put(Key::Int(1), Value::Int(20));
    assert_eq!(store.get(&Key::Int(1))?, BorrowedEntry::Int(20));

    Ok(())
}

#[test]
fn test_borrowed_lifetime() -> Result<(), StoreError> {
    let mut store = Store::new();
    store.put(Key::String("t".into()), Value::String("abc".into()));

    let b = store.get(&Key::String("t".into()))?;
    if let BorrowedEntry::Text(s) = b {
        assert_eq!(s, "abc");
        assert_eq!(s.len(), 3);
    } else {
        panic!("expected borrowed text");
    }

    Ok(())
}

#[test]
fn test_borrowed_to_owned_roundtrip() -> Result<(), StoreError> {
    let mut store = Store::new();
    store.put(Key::String("c".into()), Value::String("hello".into()));

    let b = store.get(&Key::String("c".into()))?;
    let owned = borrowed_to_owned(&b);
    assert_eq!(owned, OwnedEntry::Text("hello".into()));

    Ok(())
}

#[test]
fn test_clear() -> Result<(), StoreError> {
    let mut store = Store::new();

    store.put(Key::String("key1".into()), Value::Int(100));
    store.put(Key::String("key2".into()), Value::String("test".into()));
    store.put(Key::Int(42), Value::Int(999));

    assert_eq!(store.get(&Key::String("key1".into()))?, BorrowedEntry::Int(100));
    assert!(store.data_len() > 0);
    assert_eq!(store.keys().len(), 3);

    store.clear();

    assert_eq!(store.data_len(), 0);
    assert_eq!(store.keys().len(), 0);
    assert_eq!(store.live_bytes(), 0);
    assert!(!store.needs_compaction());

    let result = store.get(&Key::String("key1".into()));
    assert!(result.is_err());
    assert!(matches!(result.unwrap_err(), StoreError::KeyNotFound(_)));

    store.put(Key::String("new_key".into()), Value::Int(42));
    assert_eq!(store.get(&Key::String("new_key".into()))?, BorrowedEntry::Int(42));

    Ok(())
}
