use cask_db::store::Store;

// 28-byte header + 10-byte key + 12-byte value = 50 bytes per record.
const KEYS: [&str; 3] = ["aaaaaaaaaa", "bbbbbbbbbb", "cccccccccc"];
const VALS: [&str; 3] = ["111111111111", "222222222222", "333333333333"];

#[test]
fn rollover_after_threshold_produces_two_segments() {
    let mut store = Store::new(100);
    store.set(KEYS[0], VALS[0]);
    store.set(KEYS[1], VALS[1]);
    assert_eq!(store.segment_count(), 1);
    store.set(KEYS[2], VALS[2]);
    assert_eq!(store.segment_count(), 2);
    assert_eq!(store.get(KEYS[0]), Some(VALS[0].to_string()));
    assert_eq!(store.get(KEYS[1]), Some(VALS[1].to_string()));
    assert_eq!(store.get(KEYS[2]), Some(VALS[2].to_string()));
}

#[test]
fn rollover_resets_write_position() {
    let mut store = Store::new(100);
    store.set(KEYS[0], VALS[0]);
    store.set(KEYS[1], VALS[1]);
    assert_eq!(store.write_position(), 100);
    store.set(KEYS[2], VALS[2]);
    assert_eq!(store.write_position(), 50);
}

#[test]
fn single_segment_never_exceeds_threshold_by_itself() {
    // Writing records totaling more than the threshold forces at least
    // two segment files.
    let mut store = Store::new(100);
    let mut total = 0usize;
    let keys = ["k1", "k2", "k3", "k4", "k5"];
    for k in keys {
        store.set(k, "valuevaluevalue");
        total += 28 + k.len() + 15;
    }
    assert!(total > 100);
    assert!(store.segment_count() >= 2);
}

#[test]
fn rollover_keeps_ids_increasing() {
    let mut store = Store::new(60);
    store.set(KEYS[0], VALS[0]);
    store.set(KEYS[1], VALS[1]);
    store.set(KEYS[2], VALS[2]);
    let segments = store.close();
    for w in segments.windows(2) {
        assert!(w[0].id < w[1].id);
    }
}

#[test]
fn rollover_survives_reopen() {
    let mut store = Store::new(100);
    store.set(KEYS[0], VALS[0]);
    store.set(KEYS[1], VALS[1]);
    store.set(KEYS[2], VALS[2]);
    let segments = store.close();
    assert_eq!(segments.len(), 2);
    let store = Store::open(segments, 100);
    assert_eq!(store.get(KEYS[0]), Some(VALS[0].to_string()));
    assert_eq!(store.get(KEYS[2]), Some(VALS[2].to_string()));
}
