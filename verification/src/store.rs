//! The store: an in-memory key directory coupled to a list of log
//! segments. The segment bytes are the store's durable content; the
//! caller persists each segment under `<id>.db` and hands the bytes back
//! at the next opening. All decisions — encoding, replay, rollover,
//! lookup, deletion, compaction — are made here, on plain values.
//!
//! Rollover policy: a record is written to a fresh segment when the
//! active segment's length plus the record's length would exceed the
//! threshold, so the threshold is a true upper bound for every segment
//! that holds more than one record.

use vstd::prelude::*;
use vstd::utf8::{valid_utf8, encode_utf8};
use crate::format::{KeyEntry, KeyValue, RecordView, crc_matches, frame_bytes, frame_len};
use crate::key_dir::KeyDir;
use crate::segment::{
    Segment, SegView, FrameView, clean_log, data_of, dir_after, entry_of, frame_at, frames_of,
    frames_from, fs_has_key, fs_last_idx, has_seg, ids_sorted, latest_entry, lemma_data_of,
    lemma_data_of_remove, lemma_data_of_update, lemma_dir_after_present, lemma_dir_after_snoc,
    lemma_frame_at_append, lemma_frame_at_extend, lemma_frame_at_fits,
    lemma_frame_bytes_at, lemma_frames_aligned, lemma_latest_entry_id, lemma_latest_entry_found_at,
    lemma_latest_entry_seg, lemma_latest_remove_absent, lemma_latest_remove_later,
    only_live_frames,
    lemma_latest_update_absent, lemma_latest_update_later, lemma_replay_all_char,
    lemma_scan_append, lemma_scan_truncate, load_segment, read_frame, replay_all, scan_end,
};

verus! {

/// The default rollover threshold in bytes.
pub const DEFAULT_THRESHOLD: usize = 100;

/// Whether a directory entry points at an intact frame of the given
/// bytes that carries the directory's own key.
pub open spec fn entry_frame_ok(data: Seq<u8>, e: KeyEntry, k: Seq<u8>) -> bool {
    match frame_at(data, e.position as int) {
        Some(r) => r.key == k && r.timestamp == e.timestamp && frame_len(r) == e.total_size as int
            && e.position + e.total_size <= data.len(),
        None => false,
    }
}

/// Relies on `std::time::SystemTime::now` and `Duration::as_secs` for the
/// wall clock in whole seconds since the Unix epoch; nothing is assumed
/// of the value.
#[verifier::external_body]
fn now_seconds() -> u64 {
    std::time::SystemTime::now().duration_since(std::time::UNIX_EPOCH).map_or(0, |d| d.as_secs())
}

/// Appending a fresh empty segment with a higher id changes nothing that
/// replay or lookup can see.
proof fn lemma_push_empty(segs: Seq<SegView>, segs2: Seq<SegView>, nid: u32)
    requires
        ids_sorted(segs),
        segs.len() >= 1,
        segs.last().id < nid,
        segs2 == segs + seq![SegView { id: nid, data: Seq::<u8>::empty() }],
    ensures
        ids_sorted(segs2),
        replay_all(segs2) == replay_all(segs),
        clean_log(Seq::<u8>::empty()),
        forall|id: u32| id != nid ==> data_of(segs2, id) == data_of(segs, id),
        forall|id: u32| has_seg(segs, id) ==> has_seg(segs2, id),
        forall|id: u32| has_seg(segs2, id) && id != nid ==> has_seg(segs, id),
{
    assert(forall|i: int| 0 <= i < segs.len() ==> segs2[i] == segs[i]);
    assert forall|i: int, j: int| 0 <= i < j < segs2.len() implies segs2[i].id < segs2[j].id by {
        if j == segs2.len() - 1 {
            assert(segs2[i].id == segs[i].id);
            if i < segs.len() - 1 {
                assert(segs[i].id < segs.last().id);
            }
        }
    }
    assert(frame_at(Seq::<u8>::empty(), 0) is None);
    assert(frames_of(Seq::<u8>::empty()) =~= Seq::<FrameView>::empty());
    assert(segs2.drop_last() =~= segs);
    assert(replay_all(segs2) == dir_after(
        replay_all(segs),
        nid,
        frames_of(Seq::<u8>::empty()),
    ));
    assert forall|id: u32| id != nid implies data_of(segs2, id) == data_of(segs, id) by {
        assert(segs2.last().id == nid);
    }
    assert forall|id: u32| has_seg(segs, id) implies has_seg(segs2, id) by {
        let i = choose|i: int| 0 <= i < segs.len() && segs[i].id == id;
        assert(segs2[i].id == id);
    }
    assert forall|id: u32| has_seg(segs2, id) && id != nid implies has_seg(segs, id) by {
        let i = choose|i: int| 0 <= i < segs2.len() && segs2[i].id == id;
        assert(i < segs.len());
        assert(segs[i].id == id);
    }
}

/// Appending one record's frame to the active segment: replay gains
/// exactly that key at that entry; every other segment, and every frame
/// already accepted in the active segment, is untouched.
proof fn lemma_extend_active(segs: Seq<SegView>, segs2: Seq<SegView>, r: RecordView)
    requires
        segs.len() >= 1,
        ids_sorted(segs),
        clean_log(segs.last().data),
        valid_utf8(r.key),
        valid_utf8(r.value),
        r.key.len() > 0,
        r.key.len() < 0x1_0000_0000_0000_0000,
        r.value.len() < 0x1_0000_0000_0000_0000,
        crc_matches(r),
        segs.last().data.len() + frame_bytes(r).len() <= usize::MAX,
        segs2 == segs.update(
            segs.len() - 1,
            SegView { id: segs.last().id, data: segs.last().data + frame_bytes(r) },
        ),
    ensures
        ids_sorted(segs2),
        segs2.len() == segs.len(),
        clean_log(segs2.last().data),
        frame_at(segs2.last().data, segs.last().data.len() as int) == Some(r),
        replay_all(segs2) == replay_all(segs).insert(
            r.key,
            entry_of(
                FrameView { pos: segs.last().data.len() as int, rec: r },
                segs.last().id,
            ),
        ),
        forall|id: u32| id != segs.last().id ==> data_of(segs2, id) == data_of(segs, id),
        forall|id: u32| has_seg(segs2, id) <==> has_seg(segs, id),
        data_of(segs2, segs.last().id) == segs2.last().data,
        forall|p: int|
            #[trigger] frame_at(segs.last().data, p) is Some ==> frame_at(segs2.last().data, p)
                == frame_at(segs.last().data, p),
{
    let d1 = segs.last().data;
    let ext = frame_bytes(r);
    let c = d1 + ext;
    let aid = segs.last().id;
    let pos = d1.len() as int;
    let f = FrameView { pos, rec: r };
    assert(segs2.last() == SegView { id: aid, data: c });
    assert(forall|i: int| 0 <= i < segs.len() - 1 ==> segs2[i] == segs[i]);
    assert(ext.len() == frame_len(r));
    lemma_frame_at_append(d1, r);
    lemma_scan_append(d1, ext, 0);
    assert(clean_log(c));
    assert(segs2.drop_last() =~= segs.drop_last());
    let prev = replay_all(segs.drop_last());
    assert(replay_all(segs2) == dir_after(prev, aid, frames_of(c)));
    assert(replay_all(segs) == dir_after(prev, aid, frames_of(d1)));
    assert(frames_of(c) == frames_of(d1) + seq![f]);
    lemma_dir_after_snoc(prev, aid, frames_of(d1), f);
    assert forall|id: u32| id != aid implies data_of(segs2, id) == data_of(segs, id) by {}
    assert forall|id: u32| has_seg(segs2, id) implies has_seg(segs, id) by {
        let i = choose|i: int| 0 <= i < segs2.len() && segs2[i].id == id;
        assert(segs[i].id == id);
    }
    assert forall|id: u32| has_seg(segs, id) implies has_seg(segs2, id) by {
        let i = choose|i: int| 0 <= i < segs.len() && segs[i].id == id;
        assert(segs2[i].id == id);
    }
    lemma_data_of(segs2, segs2.len() - 1);
    assert forall|p: int| #[trigger] frame_at(d1, p) is Some implies frame_at(c, p) == frame_at(
        d1,
        p,
    ) by {
        lemma_frame_at_extend(d1, ext, p);
    }
}

/// The value bytes an entry points at, in the segment its id names.
pub open spec fn entry_value(segs: Seq<SegView>, e: KeyEntry) -> Seq<u8> {
    match frame_at(data_of(segs, e.file_id), e.position as int) {
        Some(r) => r.value,
        None => Seq::empty(),
    }
}

/// After a record is appended (to the active segment of `segs1`, giving
/// `segs2`; `segs1` is `segs0` possibly extended by one fresh empty
/// segment) and the directory gains its entry, the directory again
/// agrees with replay, all its entries point at intact frames, and the
/// observable mapping gains exactly this record's pair.
proof fn lemma_set_post(
    segs0: Seq<SegView>,
    segs1: Seq<SegView>,
    segs2: Seq<SegView>,
    dir0: Map<Seq<u8>, KeyEntry>,
    r: RecordView,
    aid: u32,
    pos: usize,
    entry: KeyEntry,
)
    requires
        replay_all(segs1) == replay_all(segs0),
        forall|id: u32| has_seg(segs0, id) ==> has_seg(segs1, id),
        segs1.len() >= 1,
        segs2.len() == segs1.len(),
        segs1.last().id == aid,
        segs2.last().id == aid,
        frame_at(segs2.last().data, pos as int) == Some(r),
        replay_all(segs2) == replay_all(segs1).insert(r.key, entry),
        forall|id: u32| id != aid ==> data_of(segs2, id) == data_of(segs1, id),
        forall|id: u32| has_seg(segs2, id) <==> has_seg(segs1, id),
        data_of(segs2, aid) == segs2.last().data,
        forall|p: int|
            #[trigger] frame_at(segs1.last().data, p) is Some ==> frame_at(segs2.last().data, p)
                == frame_at(segs1.last().data, p),
        forall|id: u32|
            has_seg(segs0, id) && id != aid ==> data_of(segs1, id) == data_of(segs0, id),
        has_seg(segs0, aid) ==> data_of(segs0, aid) == segs1.last().data,
        entry.file_id == aid,
        entry.position == pos,
        entry.timestamp == r.timestamp,
        entry.total_size == frame_len(r),
        pos + frame_len(r) <= segs2.last().data.len(),
        forall|k: Seq<u8>| #[trigger]
            dir0.contains_key(k) ==> replay_all(segs0).contains_key(k) && replay_all(segs0)[k]
                == dir0[k],
        forall|k: Seq<u8>| #[trigger]
            dir0.contains_key(k) ==> has_seg(segs0, dir0[k].file_id) && entry_frame_ok(
                data_of(segs0, dir0[k].file_id),
                dir0[k],
                k,
            ),
    ensures
        forall|k: Seq<u8>| #[trigger]
            dir0.insert(r.key, entry).contains_key(k) ==> replay_all(segs2).contains_key(k)
                && replay_all(segs2)[k] == dir0.insert(r.key, entry)[k],
        forall|k: Seq<u8>| #[trigger]
            dir0.insert(r.key, entry).contains_key(k) ==> has_seg(
                segs2,
                dir0.insert(r.key, entry)[k].file_id,
            ) && entry_frame_ok(
                data_of(segs2, dir0.insert(r.key, entry)[k].file_id),
                dir0.insert(r.key, entry)[k],
                k,
            ),
        forall|k: Seq<u8>| #[trigger]
            dir0.insert(r.key, entry).contains_key(k) ==> entry_value(
                segs2,
                dir0.insert(r.key, entry)[k],
            ) == if k == r.key {
                r.value
            } else {
                entry_value(segs0, dir0[k])
            },
{
    let dirf = dir0.insert(r.key, entry);
    assert forall|k: Seq<u8>| #[trigger] dirf.contains_key(k) implies replay_all(
        segs2,
    ).contains_key(k) && replay_all(segs2)[k] == dirf[k] by {
        if k != r.key {
            assert(dir0.contains_key(k));
        }
    }
    assert forall|k: Seq<u8>| #[trigger] dirf.contains_key(k) implies has_seg(
        segs2,
        dirf[k].file_id,
    ) && entry_frame_ok(data_of(segs2, dirf[k].file_id), dirf[k], k) by {
        if k == r.key {
            assert(frame_at(segs2.last().data, pos as int) == Some(r));
        } else {
            assert(dir0.contains_key(k));
            let e = dir0[k];
            assert(has_seg(segs0, e.file_id) && entry_frame_ok(data_of(segs0, e.file_id), e, k));
            if e.file_id == aid {
                assert(data_of(segs0, aid) == segs1.last().data);
                assert(frame_at(segs1.last().data, e.position as int) is Some);
            } else {
                assert(data_of(segs2, e.file_id) == data_of(segs1, e.file_id));
                assert(data_of(segs1, e.file_id) == data_of(segs0, e.file_id));
                assert(has_seg(segs1, e.file_id));
            }
        }
    }
    assert forall|k: Seq<u8>| #[trigger] dirf.contains_key(k) implies entry_value(segs2, dirf[k])
        == if k == r.key {
        r.value
    } else {
        entry_value(segs0, dir0[k])
    } by {
        if k == r.key {
            assert(frame_at(data_of(segs2, aid), pos as int) == Some(r));
        } else {
            let e = dir0[k];
            if e.file_id == aid {
                assert(data_of(segs0, aid) == segs1.last().data);
                assert(frame_at(segs1.last().data, e.position as int) is Some);
            } else {
                assert(data_of(segs2, e.file_id) == data_of(segs1, e.file_id));
                assert(data_of(segs1, e.file_id) == data_of(segs0, e.file_id));
            }
        }
    }
}

/// The entry that replay leaves for a key points at an intact frame of
/// that key, in the segment the entry's id names.
#[verifier::rlimit(100)]
proof fn lemma_latest_entry_valid(segs: Seq<SegView>, k: Seq<u8>)
    requires
        ids_sorted(segs),
        latest_entry(segs, k) is Some,
        forall|i: int| 0 <= i < segs.len() ==> #[trigger] segs[i].data.len() <= usize::MAX,
    ensures
        ({
            let e = latest_entry(segs, k)->Some_0;
            let fs = frames_of(data_of(segs, e.file_id));
            &&& has_seg(segs, e.file_id)
            &&& entry_frame_ok(data_of(segs, e.file_id), e, k)
            &&& fs_has_key(fs, k)
            &&& entry_of(fs[fs_last_idx(fs, k)], e.file_id) == e
        }),
    decreases segs.len(),
{
    let s = segs.last();
    let fs = frames_of(s.data);
    if fs_has_key(fs, k) {
        lemma_dir_after_present(Map::<Seq<u8>, KeyEntry>::empty(), s.id, fs, k);
        let f = fs[fs_last_idx(fs, k)];
        lemma_frames_aligned(s.data, 0);
        assert(frame_at(s.data, f.pos) == Some(f.rec));
        assert(segs[segs.len() - 1].data.len() <= usize::MAX);
        assert(0 <= f.pos && f.pos + frame_len(f.rec) <= s.data.len());
        let e = entry_of(f, s.id);
        assert(e.position == f.pos && e.total_size == frame_len(f.rec));
        lemma_data_of(segs, segs.len() - 1);
        assert(has_seg(segs, s.id));
        assert(entry_frame_ok(data_of(segs, e.file_id), e, k));
    } else {
        assert(ids_sorted(segs.drop_last())) by {
            assert(forall|p: int, q: int|
                0 <= p < q < segs.len() - 1 ==> segs.drop_last()[p].id < segs.drop_last()[q].id);
        }
        lemma_latest_entry_valid(segs.drop_last(), k);
        let e = latest_entry(segs, k)->Some_0;
        assert(has_seg(segs.drop_last(), e.file_id));
        let i = choose|i: int| 0 <= i < segs.len() - 1 && segs.drop_last()[i].id == e.file_id;
        assert(segs[i].id == e.file_id);
        assert(segs[i].id < s.id);
        assert(data_of(segs, e.file_id) == data_of(segs.drop_last(), e.file_id));
        assert(has_seg(segs, e.file_id));
    }
}

/// After one sealed segment is rewritten to hold exactly the frames the
/// directory still points at (moved to their new offsets, their entries
/// updated), the directory again agrees with replay, its entries point
/// at intact frames, and every key keeps its value. `nd` is the new
/// byte vector; a segment left empty is removed instead.
#[verifier::rlimit(100)]
proof fn lemma_merge_post(
    segs0: Seq<SegView>,
    segsN: Seq<SegView>,
    dir0: Map<Seq<u8>, KeyEntry>,
    dirN: Map<Seq<u8>, KeyEntry>,
    copied: Seq<FrameView>,
    seg_id: u32,
    i: int,
    removed: bool,
    nd: Seq<u8>,
)
    requires
        ids_sorted(segs0),
        segs0.len() >= 2,
        0 <= i < segs0.len() - 1,
        segs0[i].id == seg_id,
        nd.len() <= usize::MAX,
        forall|k: Seq<u8>| #[trigger]
            dir0.contains_key(k) ==> replay_all(segs0).contains_key(k) && replay_all(segs0)[k]
                == dir0[k],
        forall|k: Seq<u8>| #[trigger]
            dir0.contains_key(k) ==> has_seg(segs0, dir0[k].file_id) && entry_frame_ok(
                data_of(segs0, dir0[k].file_id),
                dir0[k],
                k,
            ),
        frames_of(nd) =~= copied,
        forall|j: int| 0 <= j < copied.len() ==> {
            let ck = (#[trigger] copied[j]).rec.key;
            &&& dir0.contains_key(ck)
            &&& dir0[ck].file_id == seg_id
            &&& dirN[ck] == entry_of(copied[j], seg_id)
            &&& copied[j].rec == frame_at(data_of(segs0, seg_id), dir0[ck].position as int)->Some_0
        },
        forall|j1: int, j2: int|
            0 <= j1 < j2 < copied.len() ==> copied[j1].rec.key != copied[j2].rec.key,
        dirN.dom() == dir0.dom(),
        forall|k: Seq<u8>| #[trigger]
            dir0.contains_key(k) && dir0[k].file_id != seg_id ==> dirN[k] == dir0[k],
        forall|k: Seq<u8>| #[trigger]
            dir0.contains_key(k) && dir0[k].file_id == seg_id ==> exists|j: int|
                0 <= j < copied.len() && (#[trigger] copied[j]).rec.key == k,
        removed ==> nd.len() == 0 && segsN == segs0.remove(i),
        !removed ==> segsN == segs0.update(i, SegView { id: seg_id, data: nd }),
    ensures
        ids_sorted(segsN),
        segsN.len() >= 1,
        segsN.last() == segs0.last(),
        forall|k: Seq<u8>| #[trigger]
            dirN.contains_key(k) ==> replay_all(segsN).contains_key(k) && replay_all(segsN)[k]
                == dirN[k],
        forall|k: Seq<u8>| #[trigger]
            dirN.contains_key(k) ==> has_seg(segsN, dirN[k].file_id) && entry_frame_ok(
                data_of(segsN, dirN[k].file_id),
                dirN[k],
                k,
            ),
        forall|k: Seq<u8>| #[trigger]
            dirN.contains_key(k) ==> entry_value(segsN, dirN[k]) == entry_value(segs0, dir0[k]),
{
    if removed {
        assert(segsN =~= segs0.remove(i));
        lemma_data_of_remove(segs0, i);
        assert(segsN.last() == segs0.last());
    } else {
        assert(segsN[i].data == nd);
        lemma_data_of_update(segs0, segsN, i);
        assert(segsN.last() == segs0.last());
    }
    lemma_frames_aligned(nd, 0);
    assert forall|k: Seq<u8>| #[trigger] dirN.contains_key(k) implies {
        &&& replay_all(segsN).contains_key(k)
        &&& replay_all(segsN)[k] == dirN[k]
        &&& has_seg(segsN, dirN[k].file_id)
        &&& entry_frame_ok(data_of(segsN, dirN[k].file_id), dirN[k], k)
        &&& entry_value(segsN, dirN[k]) == entry_value(segs0, dir0[k])
    } by {
        lemma_replay_all_char(segs0, k);
        assert(latest_entry(segs0, k) == Some(dir0[k]));
        if dir0[k].file_id == seg_id {
            let j = choose|j: int| 0 <= j < copied.len() && (#[trigger] copied[j]).rec.key == k;
            assert(!removed);
            assert(fs_has_key(frames_of(segsN[i].data), k)) by {
                assert(frames_of(nd)[j].rec.key == k);
            }
            assert forall|m: int| i < m < segsN.len() implies !fs_has_key(
                frames_of(#[trigger] segsN[m].data),
                k,
            ) by {
                assert(segsN[m] == segs0[m]);
                if fs_has_key(frames_of(segs0[m].data), k) {
                    lemma_latest_entry_id(segs0, k);
                    assert(segs0[m].id <= seg_id);
                    assert(segs0[i].id < segs0[m].id);
                }
            }
            lemma_latest_entry_found_at(segsN, i, k);
            let fsn = frames_of(segsN[i].data);
            lemma_dir_after_present(Map::<Seq<u8>, KeyEntry>::empty(), seg_id, fsn, k);
            let idx = fs_last_idx(fsn, k);
            assert(fsn[idx].rec.key == k);
            assert(fsn[idx] == copied[idx]);
            assert(idx == j) by {
                if idx < j {
                    assert(copied[idx].rec.key != copied[j].rec.key);
                }
                if j < idx {
                    assert(copied[j].rec.key != copied[idx].rec.key);
                }
            }
            assert(latest_entry(segsN, k) == Some(entry_of(copied[j], seg_id)));
            lemma_replay_all_char(segsN, k);
            assert(replay_all(segsN)[k] == dirN[k]);
            assert(frame_at(nd, copied[j].pos) == Some(copied[j].rec));
            assert(data_of(segsN, seg_id) == nd);
            assert(entry_frame_ok(data_of(segsN, dirN[k].file_id), dirN[k], k));
            assert(entry_value(segsN, dirN[k]) == copied[j].rec.value);
            assert(entry_value(segs0, dir0[k]) == copied[j].rec.value);
        } else {
            assert(dirN[k] == dir0[k]);
            if fs_has_key(frames_of(segs0[i].data), k) {
                lemma_latest_entry_seg(segs0, k);
                let m = choose|m: int|
                    0 <= m < segs0.len() && segs0[m].id == latest_entry(segs0, k)->Some_0.file_id
                        && fs_has_key(frames_of(#[trigger] segs0[m].data), k);
                lemma_latest_entry_id(segs0, k);
                assert(segs0[i].id <= dir0[k].file_id);
                assert(m > i) by {
                    if m < i {
                        assert(segs0[m].id < segs0[i].id);
                    }
                    if m == i {
                        assert(segs0[m].id == seg_id);
                    }
                }
                if removed {
                    lemma_latest_remove_later(segs0, i, m, k);
                } else {
                    lemma_latest_update_later(segs0, segsN, i, m, k);
                }
            } else {
                if removed {
                    lemma_latest_remove_absent(segs0, i, k);
                } else {
                    assert(!fs_has_key(frames_of(segsN[i].data), k)) by {
                        if fs_has_key(frames_of(nd), k) {
                            let w = choose|w: int|
                                0 <= w < frames_of(nd).len() && frames_of(nd)[w].rec.key == k;
                            assert(copied[w].rec.key == k);
                            assert(dir0[k].file_id == seg_id);
                        }
                    }
                    lemma_latest_update_absent(segs0, segsN, i, k);
                }
            }
            assert(latest_entry(segsN, k) == Some(dir0[k]));
            lemma_replay_all_char(segsN, k);
            assert(data_of(segsN, dir0[k].file_id) == data_of(segs0, dir0[k].file_id));
            assert(has_seg(segsN, dir0[k].file_id)) by {
                if removed {
                    let w = choose|w: int|
                        0 <= w < segs0.len() && #[trigger] segs0[w].id == dir0[k].file_id;
                    assert(w != i);
                }
            }
        }
    }
}

/// Whether some element of the list holds exactly the bytes `x`.
pub open spec fn key_listed(s: Seq<Vec<u8>>, x: Seq<u8>) -> bool {
    exists|i: int| 0 <= i < s.len() && s[i]@ == x
}

/// Whether the list holds an element with exactly the bytes `k`.
fn key_in_list(list: &Vec<Vec<u8>>, k: &[u8]) -> (r: bool)
    ensures
        r == key_listed(list@, k@),
{
    let n = list.len();
    let mut i: usize = 0;
    while i < n
        invariant
            n == list@.len(),
            0 <= i <= n,
            forall|j: int| 0 <= j < i ==> list@[j]@ != k@,
        decreases n - i,
    {
        if crate::key_dir::bytes_eq(list[i].as_slice(), k) {
            proof {
                assert(key_listed(list@, k@)) by {
                    assert(list@[i as int]@ == k@);
                }
            }
            return true;
        }
        i += 1;
    }
    proof {
        assert(!key_listed(list@, k@)) by {
            if key_listed(list@, k@) {
                let j = choose|j: int| 0 <= j < list@.len() && list@[j]@ == k@;
            }
        }
    }
    false
}

/// Removes the single element whose bytes equal `k` from a
/// duplicate-free list, if one is there.
#[verifier::loop_isolation(false)]
fn remove_key(list: &mut Vec<Vec<u8>>, k: &[u8])
    requires
        forall|i: int, j: int|
            0 <= i < j < old(list)@.len() ==> old(list)@[i]@ != old(list)@[j]@,
    ensures
        forall|i: int, j: int|
            0 <= i < j < final(list)@.len() ==> final(list)@[i]@ != final(list)@[j]@,
        forall|x: Seq<u8>|
            #[trigger] key_listed(final(list)@, x) <==> (key_listed(old(list)@, x) && x != k@),
{
    let ghost s0 = list@;
    let n = list.len();
    let mut i: usize = 0;
    while i < n
        invariant
            list@ == s0,
            n == s0.len(),
            0 <= i <= n,
            forall|j: int| 0 <= j < i ==> s0[j]@ != k@,
            forall|p: int, q: int| 0 <= p < q < s0.len() ==> s0[p]@ != s0[q]@,
        decreases n - i,
    {
        if crate::key_dir::bytes_eq(list[i].as_slice(), k) {
            list.remove(i);
            proof {
                let s1 = list@;
                assert forall|p: int, q: int| 0 <= p < q < s1.len() implies s1[p]@ != s1[q]@ by {
                    let p0 = if p < i { p } else { p + 1 };
                    let q0 = if q < i { q } else { q + 1 };
                    assert(s1[p] == s0[p0] && s1[q] == s0[q0]);
                }
                assert forall|x: Seq<u8>| #[trigger] key_listed(s1, x) implies (key_listed(s0, x)
                    && x != k@) by {
                    let j = choose|j: int| 0 <= j < s1.len() && s1[j]@ == x;
                    let j0 = if j < i { j } else { j + 1 };
                    assert(s1[j] == s0[j0]);
                    assert(j0 != i);
                    assert(s0[j0]@ != s0[i as int]@);
                    assert(key_listed(s0, x));
                }
                assert forall|x: Seq<u8>| key_listed(s0, x) && x != k@ implies #[trigger] key_listed(
                    s1,
                    x,
                ) by {
                    let j0 = choose|j: int| 0 <= j < s0.len() && s0[j]@ == x;
                    assert(j0 != i);
                    let j = if j0 < i { j0 } else { j0 - 1 };
                    assert(s1[j] == s0[j0]);
                    assert(s1[j]@ == x);
                }
            }
            return ;
        }
        i += 1;
    }
    proof {
        assert forall|x: Seq<u8>| #[trigger] key_listed(s0, x) implies x != k@ by {
            let j = choose|j: int| 0 <= j < s0.len() && s0[j]@ == x;
            assert(s0[j]@ != k@);
        }
    }
}

/// A Bitcask-style store over in-memory segment bytes.
pub struct Store {
    segments: Vec<Segment>,
    key_dir: KeyDir,
    tombstone: Vec<Vec<u8>>,
    write_position: usize,
    threshold: usize,
}

impl View for Store {
    type V = Map<Seq<u8>, Seq<u8>>;

    /// The observable content: each live key's bytes mapped to the value
    /// bytes its directory entry points at.
    closed spec fn view(&self) -> Map<Seq<u8>, Seq<u8>> {
        Map::new(|k: Seq<u8>| self.key_dir@.contains_key(k), |k: Seq<u8>| self.value_of(k))
    }
}

impl Store {
    /// The segments' mathematical content, in storage order.
    pub closed spec fn segs(self) -> Seq<SegView> {
        self.segments@.map_values(|s: Segment| s@)
    }

    /// The active segment: the last one, the only one written to.
    pub closed spec fn active(self) -> SegView {
        self.segs().last()
    }

    /// The key directory's content.
    pub closed spec fn dir(self) -> Map<Seq<u8>, KeyEntry> {
        self.key_dir@
    }

    /// The append offset of the active segment.
    pub closed spec fn position(self) -> usize {
        self.write_position
    }

    /// The rollover threshold.
    pub closed spec fn spec_threshold(self) -> usize {
        self.threshold
    }

    /// Whether `k` was deleted in this session and not yet merged away.
    pub closed spec fn tombstoned(self, k: Seq<u8>) -> bool {
        key_listed(self.tombstone@, k)
    }

    /// The value bytes a key's directory entry points at.
    closed spec fn value_of(self, k: Seq<u8>) -> Seq<u8> {
        entry_value(self.segs(), self.key_dir@[k])
    }

    /// Every directory entry points at an intact frame carrying its key.
    spec fn dir_entries_valid(self) -> bool {
        forall|k: Seq<u8>| #[trigger] self.key_dir@.contains_key(k) ==> {
            let e = self.key_dir@[k];
            has_seg(self.segs(), e.file_id) && entry_frame_ok(
                data_of(self.segs(), e.file_id),
                e,
                k,
            )
        }
    }

    /// Replaying the segments from scratch agrees with the directory on
    /// every key the directory holds: each entry is its key's latest
    /// record. (Replay may hold more: a deletion is not logged, so its
    /// key returns at the next opening until a merge runs.)
    spec fn replay_coupled(self) -> bool {
        forall|k: Seq<u8>| #[trigger] self.key_dir@.contains_key(k) ==> replay_all(
            self.segs(),
        ).contains_key(k) && replay_all(self.segs())[k] == self.key_dir@[k]
    }

    /// Tombstoned keys have no directory entry, and are listed once.
    spec fn tombstone_ok(self) -> bool {
        &&& forall|i: int|
            0 <= i < self.tombstone@.len() ==> !self.key_dir@.contains_key(
                #[trigger] self.tombstone@[i]@,
            )
        &&& forall|i: int, j: int|
            0 <= i < j < self.tombstone@.len() ==> self.tombstone@[i]@ != self.tombstone@[j]@
    }

    /// The store's invariant: at least one segment, strictly increasing
    /// ids, the append offset equal to the active segment's length, an
    /// active segment that replays completely, a well-formed directory
    /// whose entries point at intact frames and agree with replay, and a
    /// tombstone set disjoint from the directory.
    pub closed spec fn wf(self) -> bool {
        &&& self.segments@.len() >= 1
        &&& ids_sorted(self.segs())
        &&& self.key_dir.wf()
        &&& self.write_position == self.active().data.len()
        &&& clean_log(self.active().data)
        &&& self.dir_entries_valid()
        &&& self.replay_coupled()
        &&& self.tombstone_ok()
    }

    /// A fresh store: one empty segment with id 0, an empty directory.
    pub fn new(threshold: usize) -> (r: Store)
        ensures
            r.wf(),
            r@ == Map::<Seq<u8>, Seq<u8>>::empty(),
            r.dir() == Map::<Seq<u8>, KeyEntry>::empty(),
            r.segs() =~= seq![SegView { id: 0u32, data: Seq::<u8>::empty() }],
            r.position() == 0,
            r.spec_threshold() == threshold,
            forall|k: Seq<u8>| !r.tombstoned(k),
    {
        let mut segments: Vec<Segment> = Vec::new();
        segments.push(Segment { id: 0, data: Vec::new() });
        let s = Store {
            segments,
            key_dir: KeyDir::new(),
            tombstone: Vec::new(),
            write_position: 0,
            threshold,
        };
        proof {
            assert(s.segs() =~= seq![SegView { id: 0u32, data: Seq::<u8>::empty() }]);
            assert(s@ =~= Map::<Seq<u8>, Seq<u8>>::empty());
        }
        s
    }

    /// Opens a store from segments read back from storage, listed in
    /// ascending id order; an empty list makes a fresh store. The key
    /// directory is rebuilt by replaying every segment in order, so a
    /// later record of a key replaces an earlier one. Recovery is
    /// lenient: each segment contributes exactly its longest intact
    /// prefix of frames. The active (last) segment is then cut back to
    /// where its replay stopped, so that a damaged tail is discarded and
    /// later appends replay correctly.
    #[verifier::loop_isolation(false)]
    #[verifier::rlimit(60)]
    pub fn open(segments: Vec<Segment>, threshold: usize) -> (s: Store)
        requires
            ids_sorted(segments@.map_values(|x: Segment| x@)),
        ensures
            s.wf(),
            s.spec_threshold() == threshold,
            forall|k: Seq<u8>| !s.tombstoned(k),
            segments@.len() == 0 ==> s@ == Map::<Seq<u8>, Seq<u8>>::empty(),
            segments@.len() > 0 ==> s.dir() == replay_all(segments@.map_values(|x: Segment| x@)),
            forall|k: Seq<u8>| #[trigger] s@.contains_key(k) <==> s.dir().contains_key(k),
            forall|k: Seq<u8>| #[trigger]
                s.dir().contains_key(k) ==> s@[k] == entry_value(
                    segments@.map_values(|x: Segment| x@),
                    s.dir()[k],
                ),
    {
        let ghost vs = segments@.map_values(|x: Segment| x@);
        if segments.len() == 0 {
            return Store::new(threshold);
        }
        let mut segments = segments;
        let mut dir = KeyDir::new();
        let n = segments.len();
        let mut i: usize = 0;
        let mut end: usize = 0;
        proof {
            assert(vs.subrange(0, 0) =~= Seq::<SegView>::empty());
        }
        while i < n
            invariant
                dir.wf(),
                0 <= i <= n,
                dir@ == replay_all(vs.subrange(0, i as int)),
                i > 0 ==> end == scan_end(vs[i as int - 1].data, 0) && end <= vs[i as int
                    - 1].data.len(),
            decreases n - i,
        {
            end = load_segment(&mut dir, &segments[i]);
            proof {
                assert(vs.subrange(0, i + 1).drop_last() =~= vs.subrange(0, i as int));
                assert(vs.subrange(0, i + 1).last() == vs[i as int]);
                assert(dir@ == replay_all(vs.subrange(0, i + 1)));
            }
            i += 1;
        }
        proof {
            assert(vs.subrange(0, n as int) =~= vs);
        }
        let last_idx = n - 1;
        let mut seg = segments.remove(last_idx);
        let active_id = seg.id;
        seg.data.truncate(end);
        segments.push(seg);
        let s = Store {
            segments,
            key_dir: dir,
            tombstone: Vec::new(),
            write_position: end,
            threshold,
        };
        proof {
            let vsf = s.segs();
            let full = vs.last().data;
            let cut = full.subrange(0, end as int);
            assert(vsf =~= vs.update(n - 1, SegView { id: active_id, data: cut }));
            lemma_scan_truncate(full, end as int, 0);
            assert(vsf.drop_last() =~= vs.drop_last());
            assert(replay_all(vsf) == replay_all(vs)) by {
                assert(replay_all(vsf) == dir_after(
                    replay_all(vsf.drop_last()),
                    active_id,
                    frames_of(cut),
                ));
                assert(replay_all(vs) == dir_after(
                    replay_all(vs.drop_last()),
                    active_id,
                    frames_of(full),
                ));
                assert(frames_of(cut) == frames_of(full));
            }
            assert(ids_sorted(vsf)) by {
                assert(forall|j: int| 0 <= j < vsf.len() ==> vsf[j].id == vs[j].id);
            }
            assert(clean_log(vsf.last().data));
            assert forall|k: Seq<u8>| #[trigger] s.key_dir@.contains_key(k) implies {
                let e = s.key_dir@[k];
                &&& has_seg(vsf, e.file_id)
                &&& entry_frame_ok(data_of(vsf, e.file_id), e, k)
                &&& entry_value(vsf, e) == entry_value(vs, e)
            } by {
                lemma_replay_all_char(vsf, k);
                assert forall|j: int|
                    0 <= j < vsf.len() implies #[trigger] vsf[j].data.len() <= usize::MAX by {
                    assert(vsf[j].data == s.segments@[j].data@);
                    vstd::std_specs::vec::axiom_spec_len(&s.segments@[j].data);
                }
                lemma_latest_entry_valid(vsf, k);
                let e = s.key_dir@[k];
                if e.file_id == active_id {
                    lemma_data_of(vsf, n - 1);
                    lemma_data_of(vs, n - 1);
                    let tail = full.subrange(end as int, full.len() as int);
                    assert(full =~= cut + tail);
                    lemma_frame_at_extend(cut, tail, e.position as int);
                } else {
                    assert(data_of(vsf, e.file_id) == data_of(vsf.drop_last(), e.file_id));
                    assert(data_of(vs, e.file_id) == data_of(vs.drop_last(), e.file_id));
                }
            }
        }
        s
    }

    /// Hands the segments back for persisting; the store is consumed.
    pub fn close(self) -> (r: Vec<Segment>)
        ensures
            r@.map_values(|s: Segment| s@) == self.segs(),
    {
        self.segments
    }

    /// How many segments the store holds.
    pub fn segment_count(&self) -> (r: usize)
        ensures
            r == self.segs().len(),
    {
        self.segments.len()
    }

    /// The active segment's id: the one appends go to.
    pub fn active_file_id(&self) -> (r: u32)
        ensures
            self.segs().len() > 0 ==> r == self.segs().last().id,
    {
        if self.segments.len() == 0 {
            0
        } else {
            self.segments[self.segments.len() - 1].id
        }
    }

    /// The active segment's append offset.
    pub fn write_position(&self) -> (r: usize)
        ensures
            r == self.position(),
    {
        self.write_position
    }

    /// The index of the segment with the given id.
    fn find_segment(&self, id: u32) -> (r: Option<usize>)
        ensures
            match r {
                Some(i) => i < self.segs().len() && self.segs()[i as int].id == id,
                None => !has_seg(self.segs(), id),
            },
    {
        let n = self.segments.len();
        let mut i: usize = 0;
        while i < n
            invariant
                n == self.segments@.len(),
                0 <= i <= n,
                forall|j: int| 0 <= j < i ==> self.segs()[j].id != id,
            decreases n - i,
        {
            if self.segments[i].id == id {
                return Some(i);
            }
            i += 1;
        }
        None
    }

    /// Every directory entry pointing into a segment sits on one of that
    /// segment's replay frame boundaries, carrying that frame's record.
    proof fn lemma_entries_on_boundaries(self, i: int)
        requires
            self.wf(),
            0 <= i < self.segs().len(),
        ensures
            forall|k: Seq<u8>| #[trigger]
                self.key_dir@.contains_key(k) && self.key_dir@[k].file_id == self.segs()[i].id
                    ==> exists|j: int|
                    0 <= j < frames_of(self.segs()[i].data).len() && (#[trigger] frames_of(
                        self.segs()[i].data,
                    )[j]).pos == self.key_dir@[k].position && frames_of(self.segs()[i].data)[
                        j
                    ].rec.key == k && entry_of(frames_of(self.segs()[i].data)[j], self.segs()[i].id)
                        == self.key_dir@[k],
    {
        let segs0 = self.segs();
        let dir0 = self.key_dir@;
        let seg_id = segs0[i].id;
        let fs0 = frames_of(segs0[i].data);
        lemma_data_of(segs0, i);
        lemma_frames_aligned(segs0[i].data, 0);
        assert forall|j: int|
            0 <= j < segs0.len() implies #[trigger] segs0[j].data.len() <= usize::MAX by {
            assert(segs0[j].data == self.segments@[j].data@);
            vstd::std_specs::vec::axiom_spec_len(&self.segments@[j].data);
        }
        assert forall|k: Seq<u8>| #[trigger]
            dir0.contains_key(k) && dir0[k].file_id == seg_id implies exists|j: int|
            0 <= j < fs0.len() && (#[trigger] fs0[j]).pos == dir0[k].position && fs0[j].rec.key
                == k && entry_of(fs0[j], seg_id) == dir0[k] by {
            lemma_replay_all_char(segs0, k);
            lemma_latest_entry_valid(segs0, k);
            lemma_dir_after_present(Map::<Seq<u8>, KeyEntry>::empty(), seg_id, fs0, k);
            let j = fs_last_idx(fs0, k);
            assert(entry_of(fs0[j], seg_id) == dir0[k]);
            assert(fs0[j].pos == entry_of(fs0[j], seg_id).position);
        }
    }

    /// While the walk stands on the frame at `pos`, no directory entry
    /// of this segment points strictly inside that frame: entries sit on
    /// frame boundaries, so one past `pos` starts at the next frame or
    /// later, and the one at `pos` belongs to this frame's own key.
    proof fn lemma_entries_skip_frame(
        dir0: Map<Seq<u8>, KeyEntry>,
        fs0: Seq<FrameView>,
        data0: Seq<u8>,
        seg_id: u32,
        pos: usize,
        total: int,
        cnt: int,
    )
        requires
            fs0 == frames_of(data0),
            0 <= cnt < fs0.len(),
            fs0[cnt].pos == pos,
            total == frame_len(fs0[cnt].rec),
            frames_from(data0, pos + total) == fs0.skip(cnt + 1),
            pos + total <= data0.len(),
            forall|j: int| 0 <= j < cnt ==> (#[trigger] fs0[j]).pos < pos,
            forall|k: Seq<u8>| #[trigger]
                dir0.contains_key(k) && dir0[k].file_id == seg_id ==> exists|j: int|
                    0 <= j < fs0.len() && (#[trigger] fs0[j]).pos == dir0[k].position
                        && fs0[j].rec.key == k && entry_of(fs0[j], seg_id) == dir0[k],
        ensures
            forall|k: Seq<u8>| #[trigger]
                dir0.contains_key(k) && dir0[k].file_id == seg_id && dir0[k].position > pos
                    ==> dir0[k].position >= pos + total,
            forall|k: Seq<u8>| #[trigger]
                dir0.contains_key(k) && dir0[k].file_id == seg_id && dir0[k].position == pos
                    ==> k == fs0[cnt].rec.key,
    {
        lemma_frames_aligned(data0, pos + total);
        assert forall|k: Seq<u8>| #[trigger]
            dir0.contains_key(k) && dir0[k].file_id == seg_id && dir0[k].position
                > pos implies dir0[k].position >= pos + total by {
            let jb = choose|jb: int|
                0 <= jb < fs0.len() && (#[trigger] fs0[jb]).pos == dir0[k].position
                    && fs0[jb].rec.key == k && entry_of(fs0[jb], seg_id) == dir0[k];
            assert(jb > cnt);
            assert(fs0.skip(cnt + 1)[jb - cnt - 1] == fs0[jb]);
        }
        assert forall|k: Seq<u8>| #[trigger]
            dir0.contains_key(k) && dir0[k].file_id == seg_id && dir0[k].position
                == pos implies k == fs0[cnt].rec.key by {
            let jb = choose|jb: int|
                0 <= jb < fs0.len() && (#[trigger] fs0[jb]).pos == dir0[k].position
                    && fs0[jb].rec.key == k && entry_of(fs0[jb], seg_id) == dir0[k];
            assert(jb >= cnt);
            if jb > cnt {
                assert(fs0.skip(cnt + 1)[jb - cnt - 1] == fs0[jb]);
                assert(fs0[jb].pos >= pos + total);
            }
        }
    }

    /// Rewrites one sealed segment in place, keeping only its live
    /// records: those whose directory entry still points into it. Live
    /// records are copied in order into a fresh byte vector and their
    /// entries follow them to the new offsets; a segment left with no
    /// record is dropped. The observable mapping does not change.
    #[verifier::rlimit(100)]
    fn rewrite_sealed(&mut self, i: usize) -> (removed: bool)
        requires
            old(self).wf(),
            i + 1 < old(self).segs().len(),
        ensures
            final(self).wf(),
            final(self)@ == old(self)@,
            final(self).dir().dom() == old(self).dir().dom(),
            forall|k: Seq<u8>| #[trigger]
                final(self).dir().contains_key(k) ==> final(self).dir()[k].timestamp == old(
                    self,
                ).dir()[k].timestamp && final(self).dir()[k].file_id == old(self).dir()[k].file_id,
            final(self).tombstone@ == old(self).tombstone@,
            final(self).position() == old(self).position(),
            final(self).spec_threshold() == old(self).spec_threshold(),
            final(self).segs().last() == old(self).segs().last(),
            forall|k: Seq<u8>| #[trigger]
                old(self).dir().contains_key(k) && old(self).dir()[k].file_id != old(
                    self,
                ).segs()[i as int].id ==> final(self).dir()[k] == old(self).dir()[k],
            removed ==> final(self).segs() == old(self).segs().remove(i as int),
            !removed ==> final(self).segs() == old(self).segs().update(
                i as int,
                final(self).segs()[i as int],
            ) && final(self).segs()[i as int].id == old(self).segs()[i as int].id
                && only_live_frames(final(self).segs()[i as int], final(self).dir())
                && frames_of(final(self).segs()[i as int].data).len() > 0,
            removed ==> final(self).segs().len() == old(self).segs().len() - 1,
            !removed ==> final(self).segs().len() == old(self).segs().len(),
    {
        let ghost segs0 = self.segs();
        let ghost dir0 = self.key_dir@;
        let ghost view0 = self@;
        let seg_id = self.segments[i].id;
        let ghost data0 = segs0[i as int].data;
        let ghost fs0 = frames_of(data0);
        proof {
            lemma_data_of(segs0, i as int);
            lemma_frames_aligned(data0, 0);
            self.lemma_entries_on_boundaries(i as int);
        }
        let mut new_data: Vec<u8> = Vec::new();
        let mut pos: usize = 0;
        let ghost mut cnt: int = 0;
        let ghost mut copied: Seq<FrameView> = Seq::empty();
        let n = self.segments[i].data.len();
        proof {
            assert(frames_from(data0, 0) =~= fs0.skip(0));
        }
        let mut done = false;
        while !done
            invariant
                done ==> frame_at(data0, pos as int) is None,
                self.segments@ == old(self).segments@,
                self.tombstone@ == old(self).tombstone@,
                self.threshold == old(self).threshold,
                self.write_position == old(self).write_position,
                self.key_dir.wf(),
                i < self.segments@.len(),
                seg_id == self.segments@[i as int]@.id,
                data0 == self.segments@[i as int]@.data,
                fs0 == frames_of(data0),
                n == data0.len(),
                forall|k: Seq<u8>| #[trigger]
                    dir0.contains_key(k) && dir0[k].file_id == seg_id ==> exists|j: int|
                        0 <= j < fs0.len() && (#[trigger] fs0[j]).pos == dir0[k].position
                            && fs0[j].rec.key == k && entry_of(fs0[j], seg_id) == dir0[k],
                0 <= pos <= n,
                0 <= cnt <= fs0.len(),
                frames_from(data0, pos as int) =~= fs0.skip(cnt),
                forall|j: int| 0 <= j < cnt ==> (#[trigger] fs0[j]).pos < pos,
                clean_log(new_data@),
                new_data@.len() <= pos,
                frames_of(new_data@) =~= copied,
                forall|j: int| 0 <= j < copied.len() ==> {
                    let ck = (#[trigger] copied[j]).rec.key;
                    &&& dir0.contains_key(ck)
                    &&& dir0[ck].file_id == seg_id
                    &&& dir0[ck].position < pos
                    &&& self.key_dir@[ck] == entry_of(copied[j], seg_id)
                    &&& copied[j].rec == frame_at(data0, dir0[ck].position as int)->Some_0
                },
                forall|j1: int, j2: int|
                    0 <= j1 < j2 < copied.len() ==> copied[j1].rec.key != copied[j2].rec.key,
                self.key_dir@.dom() == dir0.dom(),
                forall|k: Seq<u8>| #[trigger]
                    dir0.contains_key(k) && dir0[k].file_id != seg_id ==> self.key_dir@[k]
                        == dir0[k],
                forall|k: Seq<u8>| #[trigger]
                    dir0.contains_key(k) && dir0[k].file_id == seg_id && dir0[k].position >= pos
                        ==> self.key_dir@[k] == dir0[k],
                forall|k: Seq<u8>| #[trigger]
                    dir0.contains_key(k) && dir0[k].file_id == seg_id && dir0[k].position < pos
                        ==> exists|j: int|
                        0 <= j < copied.len() && (#[trigger] copied[j]).rec.key == k,
            decreases n - pos + (if done { 0int } else { 1 }),
        {
            match read_frame(&self.segments[i].data, pos) {
                None => {
                    done = true;
                },
                Some(kv) => {
                    let klen = kv.key.as_str().as_bytes().len();
                    let vlen = kv.value.as_str().as_bytes().len();
                    let total = 28 + klen + vlen;
                    let ghost f = FrameView { pos: pos as int, rec: kv@ };
                    proof {
                        assert(total == frame_len(kv@));
                        assert(frames_from(data0, pos as int) == seq![f] + frames_from(
                            data0,
                            pos + total,
                        ));
                        assert(fs0.skip(cnt)[0] == f);
                        assert(fs0[cnt] == f);
                        assert(fs0.skip(cnt + 1) =~= frames_from(data0, pos + total)) by {
                            assert(fs0.skip(cnt).drop_first() =~= fs0.skip(cnt + 1));
                            assert((seq![f] + frames_from(data0, pos + total)).drop_first()
                                =~= frames_from(data0, pos + total));
                        }
                        Self::lemma_entries_skip_frame(
                            dir0,
                            fs0,
                            data0,
                            seg_id,
                            pos,
                            total as int,
                            cnt,
                        );
                    }
                    let live = match self.key_dir.find(kv.key.as_str().as_bytes()) {
                        Some(e) => e.file_id == seg_id && e.position == pos,
                        None => false,
                    };
                    if live {
                        proof {
                            assert(dir0.contains_key(kv@.key));
                            assert(dir0[kv@.key].file_id == seg_id && dir0[kv@.key].position
                                == pos) by {
                                if dir0[kv@.key].file_id == seg_id && dir0[kv@.key].position
                                    < pos {
                                    lemma_frames_aligned(new_data@, 0);
                                    let j = choose|j: int|
                                        0 <= j < copied.len() && (#[trigger] copied[j]).rec.key
                                            == kv@.key;
                                    assert(copied[j].pos + frame_len(copied[j].rec)
                                        <= new_data@.len());
                                }
                            }
                            lemma_frame_bytes_at(data0, pos as int);
                            lemma_frame_at_fits(data0, pos as int);
                            lemma_frame_at_append(new_data@, kv@);
                            lemma_scan_append(new_data@, frame_bytes(kv@), 0);
                        }
                        let q = new_data.len();
                        let ghost fnew = FrameView { pos: q as int, rec: kv@ };
                        let piece_slice = vstd::slice::slice_subrange(
                            self.segments[i].data.as_slice(),
                            pos,
                            pos + total,
                        );
                        let mut piece = vstd::slice::slice_to_vec(piece_slice);
                        new_data.append(&mut piece);
                        let entry = KeyEntry::init(seg_id, kv.timestamp, q, total);
                        let key_vec = kv.key.as_str().as_bytes_vec();
                        self.key_dir.insert(key_vec, entry);
                        proof {
                            let copied2 = copied.push(fnew);
                            assert(frames_of(new_data@) =~= copied2);
                            assert(entry == entry_of(fnew, seg_id));
                            assert forall|j: int| 0 <= j < copied2.len() implies {
                                let ck = (#[trigger] copied2[j]).rec.key;
                                &&& dir0.contains_key(ck)
                                &&& dir0[ck].file_id == seg_id
                                &&& dir0[ck].position < pos + total
                                &&& self.key_dir@[ck] == entry_of(copied2[j], seg_id)
                                &&& copied2[j].rec == frame_at(
                                    data0,
                                    dir0[ck].position as int,
                                )->Some_0
                            } by {
                                if j < copied.len() {
                                    assert(copied2[j] == copied[j]);
                                    assert(copied[j].rec.key != kv@.key);
                                }
                            }
                            assert forall|j1: int, j2: int|
                                0 <= j1 < j2 < copied2.len() implies copied2[j1].rec.key
                                != copied2[j2].rec.key by {
                                if j2 == copied.len() {
                                    assert(copied2[j1] == copied[j1]);
                                    assert(copied[j1].rec.key != kv@.key) by {
                                        assert(dir0[copied[j1].rec.key].position < pos);
                                    }
                                }
                            }
                            assert forall|k: Seq<u8>| #[trigger]
                                dir0.contains_key(k) && dir0[k].file_id == seg_id
                                    && dir0[k].position >= pos + total implies self.key_dir@[k]
                                == dir0[k] by {
                                assert(k != kv@.key);
                            }
                            assert forall|k: Seq<u8>| #[trigger]
                                dir0.contains_key(k) && dir0[k].file_id == seg_id
                                    && dir0[k].position < pos + total implies exists|j: int|
                                0 <= j < copied2.len() && (#[trigger] copied2[j]).rec.key
                                    == k by {
                                if k == kv@.key {
                                    assert(copied2[copied.len() as int].rec.key == k);
                                } else if dir0[k].position < pos {
                                    let j = choose|j: int|
                                        0 <= j < copied.len() && (#[trigger] copied[j]).rec.key
                                            == k;
                                    assert(copied2[j].rec.key == k);
                                } else {
                                    // entries sit on frame boundaries: none starts
                                    // strictly inside this frame
                                    assert(dir0[k].position == pos ==> k == fs0[cnt].rec.key);
                                    assert(dir0[k].position > pos ==> dir0[k].position >= pos
                                        + total);
                                }
                            }
                            copied = copied2;
                            cnt = cnt + 1;
                        }
                        pos = pos + total;
                    } else {
                        proof {
                            assert forall|k: Seq<u8>| #[trigger]
                                dir0.contains_key(k) && dir0[k].file_id == seg_id
                                    && dir0[k].position >= pos + total implies self.key_dir@[k]
                                == dir0[k] by {}
                            assert forall|k: Seq<u8>| #[trigger]
                                dir0.contains_key(k) && dir0[k].file_id == seg_id
                                    && dir0[k].position < pos + total implies exists|j: int|
                                0 <= j < copied.len() && (#[trigger] copied[j]).rec.key == k by {
                                if dir0[k].position >= pos {
                                    if dir0[k].position == pos {
                                        // its frame is this one: the key would be live
                                        assert(k == fs0[cnt].rec.key);
                                        assert(self.key_dir@[k] == dir0[k]);
                                        assert(k == kv@.key);
                                        assert(false);
                                    } else {
                                        assert(dir0[k].position >= pos + total);
                                        assert(false);
                                    }
                                }
                            }
                            cnt = cnt + 1;
                        }
                        pos = pos + total;
                    }
                },
            }
        }
        proof {
            assert(frames_from(data0, pos as int) =~= Seq::<FrameView>::empty());
            assert(cnt == fs0.len());
            assert forall|k: Seq<u8>| #[trigger]
                dir0.contains_key(k) && dir0[k].file_id == seg_id implies exists|j: int|
                0 <= j < copied.len() && (#[trigger] copied[j]).rec.key == k by {
                if dir0[k].position >= pos {
                    let jb = choose|jb: int|
                        0 <= jb < fs0.len() && (#[trigger] fs0[jb]).pos == dir0[k].position
                            && fs0[jb].rec.key == k && entry_of(fs0[jb], seg_id) == dir0[k];
                    assert(fs0[jb].pos < pos);
                }
            }
        }
        let seg_old = self.segments.remove(i);
        let removed: bool;
        if new_data.len() == 0 {
            removed = true;
            proof {
                assert(copied =~= Seq::<FrameView>::empty());
                assert(self.segs() =~= segs0.remove(i as int));
            }
        } else {
            self.segments.insert(i, Segment { id: seg_id, data: new_data });
            removed = false;
            proof {
                assert(self.segs() =~= segs0.update(
                    i as int,
                    SegView { id: seg_id, data: self.segs()[i as int].data },
                ));
            }
        }
        proof {
            let segsn = self.segs();
            let dirn = self.key_dir@;
            let nd = segsn[i as int].data;
            lemma_merge_post(
                segs0,
                segsn,
                dir0,
                dirn,
                copied,
                seg_id,
                i as int,
                removed,
                if removed {
                    Seq::<u8>::empty()
                } else {
                    segsn[i as int].data
                },
            );
            assert(self@ =~= view0) by {
                assert forall|k: Seq<u8>| #[trigger] dirn.contains_key(k) implies self.value_of(k)
                    == view0[k] by {
                    assert(entry_value(segsn, dirn[k]) == entry_value(segs0, dir0[k]));
                }
            }
            assert forall|j: int|
                0 <= j < self.tombstone@.len() implies !dirn.contains_key(
                #[trigger] self.tombstone@[j]@,
            ) by {
                assert(!dir0.contains_key(self.tombstone@[j]@));
            }
            if !removed {
                let nd2 = segsn[i as int].data;
                assert(frames_of(nd2) =~= copied);
                assert(segsn[i as int] == SegView { id: seg_id, data: nd2 });
                assert(segsn =~= segs0.update(i as int, segsn[i as int]));
                assert forall|j: int| 0 <= j < frames_of(nd2).len() implies {
                    let f = #[trigger] frames_of(nd2)[j];
                    dirn.contains_key(f.rec.key) && dirn[f.rec.key] == entry_of(
                        f,
                        segsn[i as int].id,
                    )
                } by {
                    assert(frames_of(nd2)[j] == copied[j]);
                }
                assert(frames_of(nd2).len() > 0) by {
                    if frame_at(nd2, 0) is Some {
                        lemma_frame_at_fits(nd2, 0);
                    } else {
                        assert(scan_end(nd2, 0) == 0);
                    }
                }
            } else {
                assert(segsn =~= segs0.remove(i as int));
            }
        }
        removed
    }

    /// Compaction: rewrites every sealed segment to hold only the
    /// records the directory still points at, dropping overwritten and
    /// deleted records; a sealed segment left with nothing is dropped
    /// whole. The active segment is left alone, so space there is
    /// reclaimed only after the next rollover seals it. The observable
    /// mapping is unchanged — merging twice changes as little as merging
    /// once — and the tombstone set is drained.
    #[verifier::loop_isolation(false)]
    pub fn merge(&mut self)
        requires
            old(self).wf(),
        ensures
            final(self).wf(),
            final(self)@ == old(self)@,
            forall|k: Seq<u8>| !final(self).tombstoned(k),
            final(self).dir().dom() == old(self).dir().dom(),
            forall|k: Seq<u8>| #[trigger]
                final(self).dir().contains_key(k) ==> final(self).dir()[k].timestamp == old(
                    self,
                ).dir()[k].timestamp,
            final(self).position() == old(self).position(),
            final(self).spec_threshold() == old(self).spec_threshold(),
            final(self).segs().last() == old(self).segs().last(),
            forall|p: int|
                0 <= p < final(self).segs().len() - 1 ==> only_live_frames(
                    #[trigger] final(self).segs()[p],
                    final(self).dir(),
                ) && frames_of(final(self).segs()[p].data).len() > 0,
    {
        let mut i: usize = 0;
        while i < self.segments.len() - 1
            invariant
                self.wf(),
                self@ == old(self)@,
                self.key_dir@.dom() == old(self).key_dir@.dom(),
                forall|k: Seq<u8>| #[trigger]
                    self.key_dir@.contains_key(k) ==> self.key_dir@[k].timestamp == old(
                        self,
                    ).key_dir@[k].timestamp,
                self.tombstone@ == old(self).tombstone@,
                self.write_position == old(self).write_position,
                self.threshold == old(self).threshold,
                self.segs().last() == old(self).segs().last(),
                forall|p: int|
                    0 <= p < i ==> only_live_frames(#[trigger] self.segs()[p], self.key_dir@)
                        && frames_of(self.segs()[p].data).len() > 0,
            decreases self.segments@.len() - i,
        {
            let ghost segs_a = self.segs();
            let ghost dir_a = self.key_dir@;
            let removed = self.rewrite_sealed(i);
            proof {
                assert forall|p: int| 0 <= p < i implies only_live_frames(
                    #[trigger] self.segs()[p],
                    self.key_dir@,
                ) && frames_of(self.segs()[p].data).len() > 0 by {
                    assert(self.segs()[p] == segs_a[p]);
                    assert(only_live_frames(segs_a[p], dir_a));
                    assert(segs_a[p].id < segs_a[i as int].id);
                    assert forall|j: int| 0 <= j < frames_of(segs_a[p].data).len() implies {
                        let f = #[trigger] frames_of(segs_a[p].data)[j];
                        self.key_dir@.contains_key(f.rec.key) && self.key_dir@[f.rec.key]
                            == entry_of(f, segs_a[p].id)
                    } by {
                        let f = frames_of(segs_a[p].data)[j];
                        assert(dir_a.contains_key(f.rec.key) && dir_a[f.rec.key] == entry_of(
                            f,
                            segs_a[p].id,
                        ));
                        assert(dir_a[f.rec.key].file_id == segs_a[p].id);
                    }
                }
            }
            if !removed {
                i += 1;
            }
        }
        self.tombstone.clear();
        proof {
            assert(self@ =~= old(self)@);
            assert forall|k: Seq<u8>| !self.tombstoned(k) by {
                if key_listed(self.tombstone@, k) {
                    let w = choose|w: int|
                        0 <= w < self.tombstone@.len() && self.tombstone@[w]@ == k;
                }
            }
        }
    }

    /// Stores `value` under `key` with the given write timestamp: encodes
    /// the record, rolls the active segment over first when the record
    /// would push it past the threshold, appends the frame, and points
    /// the directory at it. The key must be non-empty: the on-disk format
    /// cannot tell an empty-key record's header reliably apart from the
    /// end-of-data sentinel.
    #[verifier::rlimit(100)]
    pub fn set_with_timestamp(&mut self, key: &str, value: &str, timestamp: u64)
        requires
            old(self).wf(),
            key@.len() > 0,
            old(self).segs().last().id < u32::MAX,
        ensures
            final(self).wf(),
            final(self)@ == old(self)@.insert(encode_utf8(key@), encode_utf8(value@)),
            final(self).spec_threshold() == old(self).spec_threshold(),
            forall|k: Seq<u8>|
                #[trigger] final(self).tombstoned(k) <==> (old(self).tombstoned(k) && k
                    != encode_utf8(key@)),
            final(self).dir() == old(self).dir().insert(
                encode_utf8(key@),
                final(self).dir()[encode_utf8(key@)],
            ),
            ({
                let flen = 28 + encode_utf8(key@).len() + encode_utf8(value@).len();
                let e = final(self).dir()[encode_utf8(key@)];
                &&& e.timestamp == timestamp
                &&& e.total_size == flen
                &&& e.file_id == final(self).segs().last().id
                &&& if old(self).position() + flen > old(self).spec_threshold() {
                    &&& final(self).segs().len() == old(self).segs().len() + 1
                    &&& final(self).segs().last().id == old(self).segs().last().id + 1
                    &&& final(self).position() == flen
                    &&& e.position == 0
                } else {
                    &&& final(self).segs().len() == old(self).segs().len()
                    &&& final(self).segs().last().id == old(self).segs().last().id
                    &&& final(self).position() == old(self).position() + flen
                    &&& e.position == old(self).position()
                }
            }),
            final(self).segs().last().id <= old(self).segs().last().id + 1,
            final(self).segs().len() == 1 ==> final(self).position()
                <= final(self).spec_threshold(),
    {
        broadcast use vstd::utf8::encode_utf8_valid_utf8;

        let ghost kb = encode_utf8(key@);
        let ghost vb = encode_utf8(value@);
        let kv = KeyValue::new(timestamp, key.to_owned(), value.to_owned());
        let frame = kv.to_bytes();
        let flen = frame.len();
        proof {
            assert(kv@.key == kb && kv@.value == vb && kv@.timestamp == timestamp);
            assert(frame@ == frame_bytes(kv@) && flen == frame_len(kv@));
            assert(kb.len() > 0) by {
                assert(encode_utf8(key@) == vstd::utf8::encode_scalar(key@[0] as u32)
                    + encode_utf8(key@.drop_first()));
                assert(vstd::utf8::encode_scalar(key@[0] as u32).len() >= 1);
            }
        }
        let ghost segs0 = self.segs();
        let ghost dir0 = self.key_dir@;
        let ghost view0 = self@;
        let roll = if self.write_position > self.threshold {
            true
        } else {
            flen > self.threshold - self.write_position
        };
        if roll {
            let last_idx = self.segments.len() - 1;
            let new_id = self.segments[last_idx].id + 1;
            self.segments.push(Segment { id: new_id, data: Vec::new() });
            self.write_position = 0;
            proof {
                assert(self.segs() =~= segs0 + seq![
                    SegView { id: new_id, data: Seq::<u8>::empty() },
                ]);
                lemma_push_empty(segs0, self.segs(), new_id);
            }
        }
        let ghost segs1 = self.segs();
        proof {
            assert(replay_all(segs1) == replay_all(segs0));
            assert(clean_log(segs1.last().data));
            assert(self.write_position == segs1.last().data.len());
            assert(forall|id: u32| has_seg(segs0, id) ==> has_seg(segs1, id));
            if roll {
                let nid = segs1.last().id;
                assert(!has_seg(segs0, nid)) by {
                    if has_seg(segs0, nid) {
                        let i = choose|i: int| 0 <= i < segs0.len() && segs0[i].id == nid;
                        if i < segs0.len() - 1 {
                            assert(segs0[i].id < segs0.last().id);
                        }
                    }
                }
            } else {
                lemma_data_of(segs0, segs0.len() - 1);
            }
        }
        let pos = self.write_position;
        let last_idx = self.segments.len() - 1;
        let mut seg = self.segments.remove(last_idx);
        let active_id = seg.id;
        let mut fmove = frame;
        seg.data.append(&mut fmove);
        let newlen = seg.data.len();
        self.segments.push(seg);
        self.write_position = newlen;
        proof {
            assert(self.segs() =~= segs1.update(
                segs1.len() - 1,
                SegView { id: active_id, data: segs1.last().data + frame_bytes(kv@) },
            ));
            lemma_extend_active(segs1, self.segs(), kv@);
        }
        let ghost segs2 = self.segs();
        let ghost fnew = FrameView { pos: pos as int, rec: kv@ };
        let ghost entry_v = entry_of(fnew, active_id);
        let key_vec = key.as_bytes_vec();
        let entry = KeyEntry::init(active_id, timestamp, pos, flen);
        proof {
            assert(entry == entry_v);
        }
        self.key_dir.insert(key_vec, entry);
        remove_key(&mut self.tombstone, key.as_bytes());
        proof {
            let dirf = self.key_dir@;
            assert(dirf == dir0.insert(kb, entry));
            lemma_set_post(segs0, segs1, segs2, dir0, kv@, active_id, pos, entry);
            assert forall|k: Seq<u8>| #[trigger] dirf.contains_key(k) implies self.value_of(k)
                == view0.insert(kb, vb)[k] by {
                assert(self.value_of(k) == entry_value(segs2, dirf[k]));
                if k != kb {
                    assert(view0[k] == entry_value(segs0, dir0[k]));
                }
            }
            assert(self@ =~= view0.insert(kb, vb));
            // tombstoned keys keep having no directory entry
            assert forall|i: int| 0 <= i < self.tombstone@.len() implies !dirf.contains_key(
                self.tombstone@[i]@,
            ) by {
                let x = self.tombstone@[i]@;
                assert(key_listed(self.tombstone@, x));
                assert(key_listed(old(self).tombstone@, x) && x != kb);
            }
        }
    }

    /// Stores `value` under `key`, stamped with the wall clock.
    pub fn set(&mut self, key: &str, value: &str)
        requires
            old(self).wf(),
            key@.len() > 0,
            old(self).segs().last().id < u32::MAX,
        ensures
            final(self).wf(),
            final(self)@ == old(self)@.insert(encode_utf8(key@), encode_utf8(value@)),
            final(self).spec_threshold() == old(self).spec_threshold(),
            forall|k: Seq<u8>|
                #[trigger] final(self).tombstoned(k) <==> (old(self).tombstoned(k) && k
                    != encode_utf8(key@)),
            final(self).dir() == old(self).dir().insert(
                encode_utf8(key@),
                final(self).dir()[encode_utf8(key@)],
            ),
            final(self).segs().last().id <= old(self).segs().last().id + 1,
            old(self).segs().len() <= final(self).segs().len() <= old(self).segs().len() + 1,
            final(self).segs().len() == old(self).segs().len() ==> final(self).position() == old(
                self,
            ).position() + 28 + encode_utf8(key@).len() + encode_utf8(value@).len(),
            final(self).segs().len() == old(self).segs().len() + 1 ==> final(self).position() == 28
                + encode_utf8(key@).len() + encode_utf8(value@).len(),
            final(self).segs().len() == 1 ==> final(self).position()
                <= final(self).spec_threshold(),
    {
        let timestamp = now_seconds();
        self.set_with_timestamp(key, value, timestamp);
    }

    /// Removes the key's directory entry, if any, and adds the key to
    /// the tombstone set, listed once. No record is written: a deletion
    /// not followed by a merge is undone by replay at the next opening.
    /// Deleting a missing key leaves the directory unchanged and cannot
    /// fail; the key is tombstoned all the same.
    pub fn delete(&mut self, key: &str)
        requires
            old(self).wf(),
        ensures
            final(self).wf(),
            final(self)@ == old(self)@.remove(encode_utf8(key@)),
            final(self).dir() == old(self).dir().remove(encode_utf8(key@)),
            final(self).segs() == old(self).segs(),
            final(self).position() == old(self).position(),
            final(self).spec_threshold() == old(self).spec_threshold(),
            forall|k: Seq<u8>|
                #[trigger] final(self).tombstoned(k) <==> (old(self).tombstoned(k) || k
                    == encode_utf8(key@)),
    {
        let ghost kb = encode_utf8(key@);
        let ghost dir0 = self.key_dir@;
        let ghost view0 = self@;
        let ghost tomb0 = self.tombstone@;
        self.key_dir.delete(key.as_bytes());
        if !key_in_list(&self.tombstone, key.as_bytes()) {
            self.tombstone.push(key.as_bytes_vec());
            proof {
                assert forall|x: Seq<u8>| #[trigger] key_listed(self.tombstone@, x) implies (
                key_listed(tomb0, x) || x == kb) by {
                    let i = choose|i: int|
                        0 <= i < self.tombstone@.len() && self.tombstone@[i]@ == x;
                    if i < tomb0.len() {
                        assert(tomb0[i]@ == x);
                    }
                }
                assert forall|x: Seq<u8>| key_listed(tomb0, x) implies #[trigger] key_listed(
                    self.tombstone@,
                    x,
                ) by {
                    let i = choose|i: int| 0 <= i < tomb0.len() && tomb0[i]@ == x;
                    assert(self.tombstone@[i]@ == x);
                }
                assert(key_listed(self.tombstone@, kb)) by {
                    assert(self.tombstone@.last()@ == kb);
                }
            }
        }
        proof {
            let dirf = self.key_dir@;
            assert(dirf == dir0.remove(kb));
            assert forall|i: int| 0 <= i < self.tombstone@.len() implies !dirf.contains_key(
                self.tombstone@[i]@,
            ) by {
                if i < tomb0.len() && self.tombstone@[i] == tomb0[i] {
                    assert(!dir0.contains_key(tomb0[i]@));
                }
            }
            assert forall|i: int, j: int|
                0 <= i < j < self.tombstone@.len() implies self.tombstone@[i]@
                != self.tombstone@[j]@ by {
                if j >= tomb0.len() {
                    assert(self.tombstone@[j]@ == kb);
                    assert(!key_listed(tomb0, kb));
                    assert(tomb0[i]@ == self.tombstone@[i]@);
                    assert(key_listed(tomb0, self.tombstone@[i]@));
                }
            }
            assert(self@ =~= view0.remove(kb));
        }
    }

    /// Point lookup. Returns the value of the key's latest record, read
    /// back from the segment bytes and checked against its checksum, or
    /// nothing when the key has no entry.
    pub fn get(&self, key: &str) -> (r: Option<String>)
        requires
            self.wf(),
        ensures
            match r {
                Some(v) => self@.contains_key(encode_utf8(key@)) && encode_utf8(v@) == self@[
                    encode_utf8(key@)
                ],
                None => !self@.contains_key(encode_utf8(key@)),
            },
    {
        let kb = key.as_bytes();
        let entry = match self.key_dir.find(kb) {
            None => {
                return None;
            },
            Some(e) => *e,
        };
        let idx = match self.find_segment(entry.file_id) {
            Some(i) => i,
            None => {
                proof {
                    assert(false);
                }
                return None;
            },
        };
        proof {
            lemma_data_of(self.segs(), idx as int);
        }
        let seg = &self.segments[idx];
        match read_frame(&seg.data, entry.position) {
            Some(kv) => {
                proof {
                    assert(frame_at(seg@.data, entry.position as int) == Some(kv@));
                }
                Some(kv.value)
            },
            None => {
                proof {
                    assert(false);
                }
                None
            },
        }
    }
}

/// The observable mapping holds exactly the keys the directory holds:
/// the two domains never differ, in any store.
pub proof fn lemma_view_matches_dir(s: Store)
    ensures
        forall|k: Seq<u8>| #[trigger] s@.contains_key(k) <==> s.dir().contains_key(k),
{
}

/// Persistence: every key a well-formed store holds is recovered by
/// replaying its segments. Replay rebuilds the same directory entry,
/// and that entry points at the same value bytes, so after `close` and
/// `open` a `get` of the key returns its value again.
pub proof fn lemma_reopen_recovers(s: Store, k: Seq<u8>)
    requires
        s.wf(),
        s.dir().contains_key(k),
    ensures
        s@.contains_key(k),
        replay_all(s.segs()).contains_key(k),
        replay_all(s.segs())[k] == s.dir()[k],
        entry_value(s.segs(), s.dir()[k]) == s@[k],
{
}

/// The segment invariant: between operations a well-formed store holds
/// at least one segment, in strictly ascending id order; its append
/// offset equals the active segment's byte length; and the active
/// segment replays completely.
pub proof fn lemma_write_position_is_active_len(s: Store)
    requires
        s.wf(),
    ensures
        s.segs().len() >= 1,
        ids_sorted(s.segs()),
        s.position() == s.active().data.len(),
        clean_log(s.active().data),
{
}

} // verus!
