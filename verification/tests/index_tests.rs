use tunadb::index::{BinaryOffsetIndexer, OffsetIndexer};

#[test]
fn fresh_index_has_no_entries() {
    let index = BinaryOffsetIndexer::new();
    assert_eq!(index.get(b"k"), None);
}

#[test]
fn set_then_get_returns_offset() {
    let mut index = BinaryOffsetIndexer::new();
    index.set(b"k", 17);
    assert_eq!(index.get(b"k"), Some(17));
    assert_eq!(index.get(b"other"), None);
}

#[test]
fn set_replaces_earlier_offset() {
    let mut index = BinaryOffsetIndexer::new();
    index.set(b"k", 17);
    index.set(b"k", 99);
    assert_eq!(index.get(b"k"), Some(99));
}

#[test]
fn delete_drops_only_its_key() {
    let mut index = BinaryOffsetIndexer::new();
    index.set(b"a", 1);
    index.set(b"b", 2);
    index.delete(b"a");
    assert_eq!(index.get(b"a"), None);
    assert_eq!(index.get(b"b"), Some(2));
}

#[test]
fn delete_of_absent_key_is_harmless() {
    let mut index = BinaryOffsetIndexer::new();
    index.set(b"a", 1);
    index.delete(b"never");
    assert_eq!(index.get(b"a"), Some(1));
}
