use cask_db::segment::{Segment, parse_segment_name, sort_segments};

#[test]
fn parses_simple_names() {
    assert_eq!(parse_segment_name("0.db"), Some(0));
    assert_eq!(parse_segment_name("7.db"), Some(7));
    assert_eq!(parse_segment_name("10.db"), Some(10));
    assert_eq!(parse_segment_name("4294967295.db"), Some(u32::MAX));
}

#[test]
fn rejects_malformed_names() {
    assert_eq!(parse_segment_name(""), None);
    assert_eq!(parse_segment_name(".db"), None);
    assert_eq!(parse_segment_name("db"), None);
    assert_eq!(parse_segment_name("x.db"), None);
    assert_eq!(parse_segment_name("1x2.db"), None);
    assert_eq!(parse_segment_name("3.log"), None);
    assert_eq!(parse_segment_name("-1.db"), None);
    assert_eq!(parse_segment_name("4294967296.db"), None);
    assert_eq!(parse_segment_name("99999999999999999999.db"), None);
}

#[test]
fn sorts_numerically_not_lexicographically() {
    // lexicographic order would put "10.db" before "2.db"
    let segments = vec![
        Segment { id: 10, data: vec![1] },
        Segment { id: 2, data: vec![2] },
        Segment { id: 0, data: vec![3] },
    ];
    let sorted = sort_segments(segments);
    let ids: Vec<u32> = sorted.iter().map(|s| s.id).collect();
    assert_eq!(ids, vec![0, 2, 10]);
    assert_eq!(sorted[0].data, vec![3]);
    assert_eq!(sorted[2].data, vec![1]);
}

#[test]
fn sorting_keeps_every_segment() {
    let segments: Vec<Segment> =
        (0..20u32).rev().map(|id| Segment { id, data: vec![id as u8] }).collect();
    let sorted = sort_segments(segments);
    assert_eq!(sorted.len(), 20);
    for (i, seg) in sorted.iter().enumerate() {
        assert_eq!(seg.id, i as u32);
        assert_eq!(seg.data, vec![i as u8]);
    }
}
