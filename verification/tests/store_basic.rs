use cask_db::store::Store;

#[test]
fn simple_set_get() {
    let mut store = Store::new(100);
    store.set("hello", "world");
    assert_eq!(store.get("hello"), Some("world".to_string()));
    assert_eq!(store.get("absent"), None);
}

#[test]
fn overwrite_returns_latest() {
    let mut store = Store::new(1000);
    store.set("k", "v1");
    store.set("k", "v2");
    assert_eq!(store.get("k"), Some("v2".to_string()));
}

#[test]
fn overwrite_survives_reopen() {
    let mut store = Store::new(1000);
    store.set("k", "v1");
    store.set("k", "v2");
    let segments = store.close();
    let store = Store::open(segments, 1000);
    assert_eq!(store.get("k"), Some("v2".to_string()));
}

#[test]
fn last_set_wins_per_key() {
    let mut store = Store::new(10_000);
    store.set("a", "1");
    store.set("b", "2");
    store.set("a", "3");
    store.set("c", "4");
    store.set("b", "5");
    assert_eq!(store.get("a"), Some("3".to_string()));
    assert_eq!(store.get("b"), Some("5".to_string()));
    assert_eq!(store.get("c"), Some("4".to_string()));
}

#[test]
fn delete_then_get_is_absent() {
    let mut store = Store::new(1000);
    store.set("k", "v");
    store.delete("k");
    assert_eq!(store.get("k"), None);
}

#[test]
fn delete_then_set_restores() {
    let mut store = Store::new(1000);
    store.set("k", "v");
    store.delete("k");
    store.set("k", "v2");
    assert_eq!(store.get("k"), Some("v2".to_string()));
}

#[test]
fn delete_of_missing_key_is_a_no_op() {
    let mut store = Store::new(1000);
    store.set("a", "1");
    store.delete("never-there");
    assert_eq!(store.get("a"), Some("1".to_string()));
    assert_eq!(store.get("never-there"), None);
}

#[test]
fn write_position_tracks_active_segment_length() {
    let mut store = Store::new(10_000);
    assert_eq!(store.write_position(), 0);
    store.set("ab", "cdef");
    // one frame: 28-byte header + 2 key bytes + 4 value bytes
    assert_eq!(store.write_position(), 34);
    store.set("g", "h");
    assert_eq!(store.write_position(), 34 + 30);
    let segments = store.close();
    assert_eq!(segments.len(), 1);
    assert_eq!(segments[0].data.len(), 64);
}

#[test]
fn deterministic_timestamps_round_trip() {
    let mut store = Store::new(1000);
    store.set_with_timestamp("k", "v", 1_600_000_000);
    let segments = store.close();
    assert_eq!(segments[0].id, 0);
    let store = Store::open(segments, 1000);
    assert_eq!(store.get("k"), Some("v".to_string()));
}

#[test]
fn empty_store_reopens_empty() {
    let store = Store::new(100);
    let segments = store.close();
    let store = Store::open(segments, 100);
    assert_eq!(store.get("anything"), None);
    assert_eq!(store.segment_count(), 1);
}
