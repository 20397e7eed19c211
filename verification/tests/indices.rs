use foyer_storage::indices::{Index, Indices};

fn index(key: u64, offset: u32) -> Index<u64> {
    Index {
        key,
        region: 1,
        version: 2,
        offset,
        len: 64,
        key_len: 8,
        value_len: 3,
    }
}

#[test]
fn new_index_is_empty() {
    let indices = Indices::<u64>::new();
    assert!(indices.lookup(&1).is_none());
}

#[test]
fn lookup_finds_what_was_inserted() {
    let mut indices = Indices::new();
    indices.insert(index(1, 64));
    indices.insert(index(2, 128));
    let found = indices.lookup(&1).unwrap();
    assert_eq!(
        (found.key, found.region, found.version, found.offset, found.len, found.key_len, found.value_len),
        (1, 1, 2, 64, 64, 8, 3)
    );
    assert_eq!(indices.lookup(&2).unwrap().offset, 128);
    assert!(indices.lookup(&3).is_none());
}

#[test]
fn insert_replaces() {
    let mut indices = Indices::new();
    indices.insert(index(1, 64));
    indices.insert(index(2, 128));
    indices.insert(index(1, 192));
    assert_eq!(indices.lookup(&1).unwrap().offset, 192);
    assert_eq!(indices.lookup(&2).unwrap().offset, 128);
}

#[test]
fn remove_forgets_one_key() {
    let mut indices = Indices::new();
    for key in 0..5 {
        indices.insert(index(key, key as u32 * 64));
    }
    indices.remove(&0);
    indices.remove(&4);
    indices.remove(&9);
    assert!(indices.lookup(&0).is_none());
    assert!(indices.lookup(&4).is_none());
    for key in 1..4 {
        assert_eq!(indices.lookup(&key).unwrap().offset, key as u32 * 64);
    }
    indices.insert(index(0, 7));
    assert_eq!(indices.lookup(&0).unwrap().offset, 7);
}
