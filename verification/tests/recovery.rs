use cask_db::format::KeyValue;
use cask_db::segment::Segment;
use cask_db::store::Store;

#[test]
fn set_close_open_get_returns_the_value() {
    let mut store = Store::new(100);
    store.set("key", "value");
    let segments = store.close();
    let store = Store::open(segments, 100);
    assert_eq!(store.get("key"), Some("value".to_string()));
}

#[test]
fn multibyte_keys_and_values_survive_reopen() {
    let mut store = Store::new(1000);
    store.set("clé", "värde—漢");
    let store = Store::open(store.close(), 1000);
    assert_eq!(store.get("clé"), Some("värde—漢".to_string()));
}

#[test]
fn delete_without_merge_is_undone_by_reopen() {
    // A deletion writes no record, so replay at the next opening finds
    // the old record again: documented behaviour.
    let mut store = Store::new(1000);
    store.set("k", "v");
    store.delete("k");
    assert_eq!(store.get("k"), None);
    let segments = store.close();
    let mut store = Store::open(segments, 1000);
    assert_eq!(store.get("k"), Some("v".to_string()));
    // Deleting again and merging makes the deletion durable once the
    // record's segment is sealed; here it sits in the active segment,
    // so only the in-memory state changes.
    store.delete("k");
    store.merge();
    assert_eq!(store.get("k"), None);
}

#[test]
fn deletion_of_sealed_record_survives_merge_and_reopen() {
    let mut store = Store::new(50);
    store.set("doomed", "value");
    store.set("filler", "xxxxxxxxxxxxxxxxxxxx");
    store.set("keeper", "kept");
    // "doomed" now sits in a sealed segment.
    let mut store = Store::open(store.close(), 50);
    store.delete("doomed");
    store.merge();
    let store = Store::open(store.close(), 50);
    assert_eq!(store.get("doomed"), None);
    assert_eq!(store.get("keeper"), Some("kept".to_string()));
}

#[test]
fn truncated_tail_recovers_intact_records() {
    let mut store = Store::new(100_000);
    store.set_with_timestamp("first", "1", 10);
    store.set_with_timestamp("second", "2", 11);
    store.set_with_timestamp("third", "3", 12);
    let mut segments = store.close();
    assert_eq!(segments.len(), 1);
    // cut the last record's payload in half
    let cut = segments[0].data.len() - 3;
    segments[0].data.truncate(cut);
    let store = Store::open(segments, 100_000);
    assert_eq!(store.get("first"), Some("1".to_string()));
    assert_eq!(store.get("second"), Some("2".to_string()));
    assert_eq!(store.get("third"), None);
    // the damaged tail was discarded: the append offset sits after the
    // last intact frame
    assert_eq!(store.write_position(), 34 + 35);
}

#[test]
fn appends_after_truncated_recovery_survive_reopen() {
    let mut store = Store::new(100_000);
    store.set("a", "1");
    store.set("b", "2");
    let mut segments = store.close();
    let cut = segments[0].data.len() - 1;
    segments[0].data.truncate(cut);
    let mut store = Store::open(segments, 100_000);
    store.set("c", "3");
    let store = Store::open(store.close(), 100_000);
    assert_eq!(store.get("a"), Some("1".to_string()));
    assert_eq!(store.get("b"), None);
    assert_eq!(store.get("c"), Some("3".to_string()));
}

#[test]
fn corrupted_value_byte_reads_as_absent() {
    // Hand-corrupt one byte inside a value of a sealed segment: the
    // checksum no longer matches, so the key reads as absent while
    // other keys are unaffected.
    let mut store = Store::new(100_000);
    store.set_with_timestamp("good", "fine", 1);
    store.set_with_timestamp("bad", "broken", 2);
    let mut segments = store.close();
    // flip a byte in "broken": second frame starts at 36, its value at
    // 36 + 28 + 3
    let off = 36 + 28 + 3;
    assert_eq!(segments[0].data[off], b'b');
    segments[0].data[off] ^= 0x20;
    let store = Store::open(segments, 100_000);
    assert_eq!(store.get("bad"), None);
    assert_eq!(store.get("good"), Some("fine".to_string()));
}

#[test]
fn zero_header_window_ends_replay() {
    let mut data = KeyValue::new(5, "live".to_string(), "yes".to_string()).to_bytes();
    data.extend_from_slice(&[0u8; 28]);
    let mut after = KeyValue::new(6, "ghost".to_string(), "no".to_string()).to_bytes();
    data.append(&mut after);
    let store = Store::open(vec![Segment { id: 0, data }], 1000);
    assert_eq!(store.get("live"), Some("yes".to_string()));
    assert_eq!(store.get("ghost"), None);
}

#[test]
fn replay_takes_the_later_record_across_segments() {
    let old = KeyValue::new(1, "k".to_string(), "old".to_string()).to_bytes();
    let new = KeyValue::new(2, "k".to_string(), "new".to_string()).to_bytes();
    let segments = vec![Segment { id: 3, data: old }, Segment { id: 7, data: new }];
    let store = Store::open(segments, 1000);
    assert_eq!(store.get("k"), Some("new".to_string()));
}
