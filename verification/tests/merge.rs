use cask_db::store::Store;

// 50-byte records against a 100-byte threshold: two per segment.
fn filled_store() -> Store {
    let mut store = Store::new(100);
    store.set("aaaaaaaaaa", "111111111111");
    store.set("bbbbbbbbbb", "222222222222");
    store.set("aaaaaaaaaa", "333333333333");
    store.set("cccccccccc", "444444444444");
    store.set("dddddddddd", "555555555555");
    store
}

#[test]
fn merge_keeps_the_observable_mapping() {
    let mut store = filled_store();
    store.merge();
    assert_eq!(store.get("aaaaaaaaaa"), Some("333333333333".to_string()));
    assert_eq!(store.get("bbbbbbbbbb"), Some("222222222222".to_string()));
    assert_eq!(store.get("cccccccccc"), Some("444444444444".to_string()));
    assert_eq!(store.get("dddddddddd"), Some("555555555555".to_string()));
    assert_eq!(store.get("absent"), None);
}

#[test]
fn merging_twice_changes_nothing_more() {
    let mut once = filled_store();
    once.merge();
    let mut twice = filled_store();
    twice.merge();
    twice.merge();
    for k in ["aaaaaaaaaa", "bbbbbbbbbb", "cccccccccc", "dddddddddd"] {
        assert_eq!(once.get(k), twice.get(k));
    }
    let a = once.close();
    let b = twice.close();
    assert_eq!(a.len(), b.len());
    for (x, y) in a.iter().zip(b.iter()) {
        assert_eq!(x.id, y.id);
        assert_eq!(x.data, y.data);
    }
}

#[test]
fn merge_reclaims_overwritten_records() {
    let mut store = filled_store();
    let before: usize = {
        let segments = store.close();
        let total = segments.iter().map(|s| s.data.len()).sum();
        store = Store::open(segments, 100);
        total
    };
    store.merge();
    let segments = store.close();
    let after: usize = segments.iter().map(|s| s.data.len()).sum();
    // the stale record of the overwritten key is gone
    assert_eq!(before - after, 50);
}

#[test]
fn merge_drops_a_fully_stale_segment() {
    let mut store = Store::new(100);
    store.set("aaaaaaaaaa", "111111111111");
    store.set("bbbbbbbbbb", "222222222222");
    // both keys overwritten later: the first segment holds only stale data
    store.set("aaaaaaaaaa", "333333333333");
    store.set("bbbbbbbbbb", "444444444444");
    store.set("cccccccccc", "555555555555");
    let n = store.segment_count();
    store.merge();
    assert!(store.segment_count() < n);
    assert_eq!(store.get("aaaaaaaaaa"), Some("333333333333".to_string()));
    assert_eq!(store.get("bbbbbbbbbb"), Some("444444444444".to_string()));
}

#[test]
fn merge_survives_reopen() {
    let mut store = filled_store();
    store.merge();
    let store = Store::open(store.close(), 100);
    assert_eq!(store.get("aaaaaaaaaa"), Some("333333333333".to_string()));
    assert_eq!(store.get("dddddddddd"), Some("555555555555".to_string()));
}

#[test]
fn merge_on_a_fresh_store_is_harmless() {
    let mut store = Store::new(100);
    store.merge();
    assert_eq!(store.get("k"), None);
    store.set("k", "v");
    assert_eq!(store.get("k"), Some("v".to_string()));
}
