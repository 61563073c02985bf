//! Log segments and their replay. A segment is an append-only sequence of
//! record frames identified by a numeric id. Replay walks a segment's
//! bytes from offset zero, accepting one frame after another and stopping
//! at the first window of 28 zero bytes (the end-of-data sentinel), at a
//! truncated frame, at bytes that are not valid UTF-8 where a key or a
//! value should be, or at a frame whose checksum does not match: recovery
//! keeps exactly the longest intact prefix of each segment.

use vstd::prelude::*;
use vstd::utf8::{valid_utf8, encode_utf8};
use crate::format::{
    KeyEntry, KeyValue, RecordView, be32, be32_at, be64, be64_at, crc_matches, frame_bytes,
    frame_len, lemma_decode_of_frame, lemma_u32_of_be_bytes, lemma_u64_be_round_trip,
    lemma_u64_be_zero, lemma_u64_of_be_bytes, spec_decode, read_be64,
};
use crate::key_dir::KeyDir;

verus! {

/// A log segment: its numeric id and its bytes.
pub struct Segment {
    pub id: u32,
    pub data: Vec<u8>,
}

/// The mathematical content of a segment.
pub struct SegView {
    pub id: u32,
    pub data: Seq<u8>,
}

impl View for Segment {
    type V = SegView;

    open spec fn view(&self) -> SegView {
        SegView { id: self.id, data: self.data@ }
    }
}

/// The end-of-data sentinel: 28 zero bytes at `pos`.
pub open spec fn zero_header_at(b: Seq<u8>, pos: int) -> bool {
    forall|i: int| pos <= i < pos + 28 ==> b[i] == 0u8
}

/// The record frame replay accepts at offset `pos` of `b`, if any: the
/// header must fit and not be the sentinel, the key must be non-empty (a
/// record with an empty key cannot be told reliably apart from the
/// sentinel, so none is ever written or accepted), the payload must fit
/// the stored sizes, key and value must be valid UTF-8, and the stored
/// checksum must match the recomputed one.
pub open spec fn frame_at(b: Seq<u8>, pos: int) -> Option<RecordView> {
    if 0 <= pos && pos + 28 <= b.len() && !zero_header_at(b, pos) {
        let ks = be64_at(b, pos + 12) as int;
        let vs = be64_at(b, pos + 20) as int;
        if ks >= 1 && pos + 28 + ks + vs <= b.len() {
            match spec_decode(b.subrange(pos, pos + 28 + ks + vs)) {
                Some(r) => if crc_matches(r) {
                    Some(r)
                } else {
                    None
                },
                None => None,
            }
        } else {
            None
        }
    } else {
        None
    }
}

/// A frame together with the offset it sits at.
pub struct FrameView {
    pub pos: int,
    pub rec: RecordView,
}

/// The frames replay accepts walking `b` from `pos`.
pub open spec fn frames_from(b: Seq<u8>, pos: int) -> Seq<FrameView>
    decreases b.len() - pos,
    when 0 <= pos <= b.len()
{
    match frame_at(b, pos) {
        Some(r) => if pos + frame_len(r) <= b.len() {
            seq![FrameView { pos, rec: r }] + frames_from(b, pos + frame_len(r))
        } else {
            seq![]
        },
        None => seq![],
    }
}

/// The frames of a whole segment.
pub open spec fn frames_of(b: Seq<u8>) -> Seq<FrameView> {
    frames_from(b, 0)
}

/// Where replay of `b` starting at `pos` stops.
pub open spec fn scan_end(b: Seq<u8>, pos: int) -> int
    decreases b.len() - pos,
    when 0 <= pos <= b.len()
{
    match frame_at(b, pos) {
        Some(r) => if pos + frame_len(r) <= b.len() {
            scan_end(b, pos + frame_len(r))
        } else {
            pos
        },
        None => pos,
    }
}

/// A log whose replay consumes every byte: nothing but whole accepted
/// frames. The active segment is kept in this shape so that appended
/// frames are always recovered.
pub open spec fn clean_log(b: Seq<u8>) -> bool {
    scan_end(b, 0) == b.len()
}

/// The directory entry a frame of segment `id` replays to.
pub open spec fn entry_of(f: FrameView, id: u32) -> KeyEntry {
    KeyEntry {
        file_id: id,
        timestamp: f.rec.timestamp,
        position: f.pos as usize,
        total_size: frame_len(f.rec) as usize,
    }
}

/// A directory after replaying the given frames of segment `id` over it,
/// in order, a later frame of a key replacing an earlier one.
pub open spec fn dir_after(dir: Map<Seq<u8>, KeyEntry>, id: u32, fs: Seq<FrameView>) -> Map<
    Seq<u8>,
    KeyEntry,
>
    decreases fs.len(),
{
    if fs.len() == 0 {
        dir
    } else {
        dir_after(dir.insert(fs[0].rec.key, entry_of(fs[0], id)), id, fs.drop_first())
    }
}

/// Whether every frame of the segment is live: the directory points at
/// exactly that frame for the frame's own key. This is what compaction
/// leaves behind in each sealed segment: no overwritten and no deleted
/// record survives it.
pub open spec fn only_live_frames(s: SegView, dir: Map<Seq<u8>, KeyEntry>) -> bool {
    forall|j: int| 0 <= j < frames_of(s.data).len() ==> {
        let f = #[trigger] frames_of(s.data)[j];
        dir.contains_key(f.rec.key) && dir[f.rec.key] == entry_of(f, s.id)
    }
}

/// A directory after replaying a whole segment over it.
pub open spec fn replay_seg(dir: Map<Seq<u8>, KeyEntry>, s: SegView) -> Map<Seq<u8>, KeyEntry> {
    dir_after(dir, s.id, frames_of(s.data))
}

/// The directory that replaying the segments in order rebuilds, starting
/// from nothing.
pub open spec fn replay_all(segs: Seq<SegView>) -> Map<Seq<u8>, KeyEntry>
    decreases segs.len(),
{
    if segs.len() == 0 {
        Map::empty()
    } else {
        replay_seg(replay_all(segs.drop_last()), segs.last())
    }
}

/// An accepted frame's length is what the sizes in its header claim, and
/// the frame lies inside the buffer.
pub proof fn lemma_frame_at_fits(b: Seq<u8>, pos: int)
    requires
        frame_at(b, pos) is Some,
    ensures
        frame_len(frame_at(b, pos)->Some_0) == 28 + be64_at(b, pos + 12) + be64_at(b, pos + 20),
        pos + frame_len(frame_at(b, pos)->Some_0) <= b.len(),
        frame_at(b, pos)->Some_0.key.len() == be64_at(b, pos + 12),
        frame_at(b, pos)->Some_0.value.len() == be64_at(b, pos + 20),
{
    let ks = be64_at(b, pos + 12) as int;
    let vs = be64_at(b, pos + 20) as int;
    let sub = b.subrange(pos, pos + 28 + ks + vs);
    assert(be64_at(sub, 12) == be64_at(b, pos + 12));
    assert(be64_at(sub, 20) == be64_at(b, pos + 20));
}

/// Replay never stops before the position it starts at.
pub proof fn lemma_scan_end_ge(b: Seq<u8>, pos: int)
    requires
        0 <= pos <= b.len(),
    ensures
        pos <= scan_end(b, pos) <= b.len(),
    decreases b.len() - pos,
{
    match frame_at(b, pos) {
        Some(r) => {
            lemma_frame_at_fits(b, pos);
            lemma_scan_end_ge(b, pos + frame_len(r));
        },
        None => {},
    }
}

/// A frame accepted inside `b` is still accepted, unchanged, after more
/// bytes are appended.
pub proof fn lemma_frame_at_extend(b: Seq<u8>, ext: Seq<u8>, pos: int)
    requires
        frame_at(b, pos) is Some,
    ensures
        frame_at(b + ext, pos) == frame_at(b, pos),
{
    let c = b + ext;
    let ks = be64_at(b, pos + 12) as int;
    let vs = be64_at(b, pos + 20) as int;
    assert(pos + 28 <= b.len());
    assert(forall|i: int| 0 <= i < b.len() ==> c[i] == b[i]);
    assert(be64_at(c, pos + 12) == be64_at(b, pos + 12));
    assert(be64_at(c, pos + 20) == be64_at(b, pos + 20));
    assert(!zero_header_at(b, pos));
    let w = choose|i: int| pos <= i < pos + 28 && b[i] != 0u8;
    assert(c[w] != 0u8);
    assert(!zero_header_at(c, pos));
    assert(c.subrange(pos, pos + 28 + ks + vs) =~= b.subrange(pos, pos + 28 + ks + vs));
}

/// Appending one whole accepted frame to a clean log extends its frame
/// list by that frame and leaves the log clean.
pub proof fn lemma_scan_append(b: Seq<u8>, ext: Seq<u8>, pos: int)
    requires
        0 <= pos <= b.len(),
        scan_end(b, pos) == b.len(),
        frame_at(b + ext, b.len() as int) matches Some(r) && frame_len(r) == ext.len(),
    ensures
        frames_from(b + ext, pos) =~= frames_from(b, pos) + seq![
            FrameView { pos: b.len() as int, rec: frame_at(b + ext, b.len() as int)->Some_0 },
        ],
        scan_end(b + ext, pos) == b.len() + ext.len(),
    decreases b.len() - pos,
{
    let c = b + ext;
    let rn = frame_at(c, b.len() as int)->Some_0;
    let fnew = FrameView { pos: b.len() as int, rec: rn };
    match frame_at(b, pos) {
        Some(r0) => {
            lemma_frame_at_fits(b, pos);
            let pos2 = pos + frame_len(r0);
            if scan_end(b, pos) == pos {
                assert(false);
            }
            lemma_frame_at_extend(b, ext, pos);
            lemma_scan_append(b, ext, pos2);
            assert(frames_from(c, pos) == seq![FrameView { pos, rec: r0 }] + frames_from(c, pos2));
            assert(frames_from(b, pos) == seq![FrameView { pos, rec: r0 }] + frames_from(b, pos2));
        },
        None => {
            assert(scan_end(b, pos) == pos);
            assert(pos == b.len());
            lemma_frame_at_fits(c, pos);
            assert(frames_from(c, pos) == seq![fnew] + frames_from(c, pos + frame_len(rn)));
            assert(pos + frame_len(rn) == c.len());
            assert(frame_at(c, c.len() as int) is None);
            assert(frames_from(c, c.len() as int) =~= Seq::<FrameView>::empty());
            assert(frames_from(b, pos) =~= Seq::<FrameView>::empty());
            assert(scan_end(c, pos) == scan_end(c, c.len() as int));
        },
    }
}

/// At the end of any buffer, the appended frame of a well-formed record
/// with a non-empty key is accepted and reads back as that record. A
/// non-empty key keeps the header clear of the end-of-data sentinel: its
/// key-length field is non-zero.
pub proof fn lemma_frame_at_append(b: Seq<u8>, r: RecordView)
    requires
        valid_utf8(r.key),
        valid_utf8(r.value),
        r.key.len() > 0,
        r.key.len() < 0x1_0000_0000_0000_0000,
        r.value.len() < 0x1_0000_0000_0000_0000,
        crc_matches(r),
    ensures
        frame_at(b + frame_bytes(r), b.len() as int) == Some(r),
{
    let fb = frame_bytes(r);
    let c = b + fb;
    let pos = b.len() as int;
    assert(fb.len() == frame_len(r));
    assert(forall|i: int| 0 <= i < fb.len() ==> c[pos + i] == fb[i]);
    assert forall|i: int| 0 <= i < 8 implies fb[12 + i] == #[trigger] be64(r.key.len() as u64)[i] by {}
    assert forall|i: int| 0 <= i < 8 implies fb[20 + i] == #[trigger] be64(
        r.value.len() as u64,
    )[i] by {}
    lemma_u64_be_round_trip(r.key.len() as u64);
    lemma_u64_be_round_trip(r.value.len() as u64);
    assert(be64_at(c, pos + 12) == r.key.len() as u64);
    assert(be64_at(c, pos + 20) == r.value.len() as u64);
    assert(!zero_header_at(c, pos)) by {
        if zero_header_at(c, pos) {
            assert forall|i: int| 0 <= i < 8 implies #[trigger] be64(r.key.len() as u64)[i]
                == 0u8 by {
                assert(c[pos + 12 + i] == 0u8);
            }
            lemma_u64_be_zero(r.key.len() as u64);
        }
    }
    lemma_decode_of_frame(r);
    assert(c.subrange(pos, pos + fb.len()) =~= fb);
}

/// Replaying one more frame at the tail of the list is one more insert.
pub proof fn lemma_dir_after_snoc(
    dir: Map<Seq<u8>, KeyEntry>,
    id: u32,
    fs: Seq<FrameView>,
    f: FrameView,
)
    ensures
        dir_after(dir, id, fs + seq![f]) == dir_after(dir, id, fs).insert(
            f.rec.key,
            entry_of(f, id),
        ),
    decreases fs.len(),
{
    if fs.len() == 0 {
        assert((fs + seq![f])[0] == f);
        assert((fs + seq![f]).drop_first() =~= Seq::<FrameView>::empty());
        let d1 = dir.insert(f.rec.key, entry_of(f, id));
        assert(dir_after(dir, id, fs + seq![f]) == dir_after(
            d1,
            id,
            (fs + seq![f]).drop_first(),
        ));
        assert(dir_after(d1, id, Seq::<FrameView>::empty()) == d1);
        assert(dir_after(dir, id, fs) == dir);
    } else {
        assert((fs + seq![f])[0] == fs[0]);
        assert((fs + seq![f]).drop_first() =~= fs.drop_first() + seq![f]);
        let d1 = dir.insert(fs[0].rec.key, entry_of(fs[0], id));
        assert(dir_after(dir, id, fs + seq![f]) == dir_after(
            d1,
            id,
            (fs + seq![f]).drop_first(),
        ));
        lemma_dir_after_snoc(d1, id, fs.drop_first(), f);
        assert(dir_after(dir, id, fs) == dir_after(d1, id, fs.drop_first()));
    }
}

/// Whether some frame in the list carries key `k`.
pub open spec fn fs_has_key(fs: Seq<FrameView>, k: Seq<u8>) -> bool {
    exists|i: int| 0 <= i < fs.len() && fs[i].rec.key == k
}

/// The index of the last frame carrying key `k`, or -1.
pub open spec fn fs_last_idx(fs: Seq<FrameView>, k: Seq<u8>) -> int
    decreases fs.len(),
{
    if fs.len() == 0 {
        -1
    } else if fs.last().rec.key == k {
        fs.len() - 1
    } else {
        fs_last_idx(fs.drop_last(), k)
    }
}

/// Replaying frames none of which carry `k` leaves `k`'s entry alone.
pub proof fn lemma_dir_after_absent(
    dir: Map<Seq<u8>, KeyEntry>,
    id: u32,
    fs: Seq<FrameView>,
    k: Seq<u8>,
)
    requires
        !fs_has_key(fs, k),
    ensures
        dir_after(dir, id, fs).contains_key(k) == dir.contains_key(k),
        dir.contains_key(k) ==> dir_after(dir, id, fs)[k] == dir[k],
    decreases fs.len(),
{
    if fs.len() > 0 {
        assert(fs =~= fs.drop_last() + seq![fs.last()]);
        lemma_dir_after_snoc(dir, id, fs.drop_last(), fs.last());
        assert(!fs_has_key(fs.drop_last(), k)) by {
            if fs_has_key(fs.drop_last(), k) {
                let i = choose|i: int|
                    0 <= i < fs.drop_last().len() && fs.drop_last()[i].rec.key == k;
                assert(fs[i].rec.key == k);
            }
        }
        lemma_dir_after_absent(dir, id, fs.drop_last(), k);
        assert(fs[fs.len() - 1].rec.key != k);
    }
}

/// Replaying frames that do carry `k` leaves `k` pointing at the last
/// such frame.
pub proof fn lemma_dir_after_present(
    dir: Map<Seq<u8>, KeyEntry>,
    id: u32,
    fs: Seq<FrameView>,
    k: Seq<u8>,
)
    requires
        fs_has_key(fs, k),
    ensures
        dir_after(dir, id, fs).contains_key(k),
        0 <= fs_last_idx(fs, k) < fs.len(),
        fs[fs_last_idx(fs, k)].rec.key == k,
        dir_after(dir, id, fs)[k] == entry_of(fs[fs_last_idx(fs, k)], id),
    decreases fs.len(),
{
    assert(fs =~= fs.drop_last() + seq![fs.last()]);
    lemma_dir_after_snoc(dir, id, fs.drop_last(), fs.last());
    if fs.last().rec.key == k {
    } else {
        assert(fs_has_key(fs.drop_last(), k)) by {
            let i = choose|i: int| 0 <= i < fs.len() && fs[i].rec.key == k;
            assert(i != fs.len() - 1);
            assert(fs.drop_last()[i].rec.key == k);
        }
        lemma_dir_after_present(dir, id, fs.drop_last(), k);
        assert(fs.drop_last()[fs_last_idx(fs.drop_last(), k)] == fs[fs_last_idx(fs, k)]);
    }
}

/// The entry that replaying all segments leaves for `k`: the last frame
/// of `k` in the last segment that holds one, if any does.
pub open spec fn latest_entry(segs: Seq<SegView>, k: Seq<u8>) -> Option<KeyEntry>
    decreases segs.len(),
{
    if segs.len() == 0 {
        None
    } else if fs_has_key(frames_of(segs.last().data), k) {
        Some(
            entry_of(
                frames_of(segs.last().data)[fs_last_idx(frames_of(segs.last().data), k)],
                segs.last().id,
            ),
        )
    } else {
        latest_entry(segs.drop_last(), k)
    }
}

/// Replay leaves each key pointing at its latest frame.
pub proof fn lemma_replay_all_char(segs: Seq<SegView>, k: Seq<u8>)
    ensures
        replay_all(segs).contains_key(k) <==> latest_entry(segs, k) is Some,
        latest_entry(segs, k) matches Some(e) ==> replay_all(segs)[k] == e,
    decreases segs.len(),
{
    if segs.len() > 0 {
        let prev = replay_all(segs.drop_last());
        let s = segs.last();
        let fs = frames_of(s.data);
        lemma_replay_all_char(segs.drop_last(), k);
        if fs_has_key(fs, k) {
            lemma_dir_after_present(prev, s.id, fs, k);
        } else {
            lemma_dir_after_absent(prev, s.id, fs, k);
        }
    }
}

/// Every frame in the list is accepted at its own offset, lies inside
/// the buffer, and offsets strictly increase.
pub proof fn lemma_frames_aligned(b: Seq<u8>, pos: int)
    requires
        0 <= pos <= b.len(),
    ensures
        forall|j: int| 0 <= j < frames_from(b, pos).len() ==> {
            let f = #[trigger] frames_from(b, pos)[j];
            pos <= f.pos && frame_at(b, f.pos) == Some(f.rec) && f.pos + frame_len(f.rec)
                <= b.len()
        },
        forall|j1: int, j2: int|
            0 <= j1 < j2 < frames_from(b, pos).len() ==> frames_from(b, pos)[j1].pos
                < frames_from(b, pos)[j2].pos,
    decreases b.len() - pos,
{
    match frame_at(b, pos) {
        Some(r) => {
            lemma_frame_at_fits(b, pos);
            let pos2 = pos + frame_len(r);
            lemma_frames_aligned(b, pos2);
            let fs = frames_from(b, pos);
            let rest = frames_from(b, pos2);
            assert(fs == seq![FrameView { pos, rec: r }] + rest);
            assert(fs[0] == FrameView { pos, rec: r });
            assert(forall|j: int| 1 <= j < fs.len() ==> fs[j] == rest[j - 1]);
        },
        None => {},
    }
}

/// Cutting a log at where replay stops keeps the same frames, and the
/// cut log is clean.
pub proof fn lemma_scan_truncate(b: Seq<u8>, e: int, pos: int)
    requires
        0 <= pos <= b.len(),
        scan_end(b, pos) == e,
        0 <= e <= b.len(),
    ensures
        frames_from(b.subrange(0, e), pos) =~= frames_from(b, pos),
        scan_end(b.subrange(0, e), pos) == e,
    decreases b.len() - pos,
{
    lemma_scan_end_ge(b, pos);
    let t = b.subrange(0, e);
    match frame_at(b, pos) {
        Some(r) => {
            lemma_frame_at_fits(b, pos);
            let pos2 = pos + frame_len(r);
            lemma_scan_end_ge(b, pos2);
            assert(pos2 <= e);
            assert(frame_at(t, pos) == Some(r)) by {
                let ks = be64_at(b, pos + 12) as int;
                let vs = be64_at(b, pos + 20) as int;
                assert(forall|i: int| 0 <= i < e ==> t[i] == b[i]);
                assert(be64_at(t, pos + 12) == be64_at(b, pos + 12));
                assert(be64_at(t, pos + 20) == be64_at(b, pos + 20));
                let w = choose|i: int| pos <= i < pos + 28 && b[i] != 0u8;
                assert(t[w] != 0u8);
                assert(!zero_header_at(t, pos));
                assert(t.subrange(pos, pos + 28 + ks + vs) =~= b.subrange(pos, pos + 28 + ks + vs));
            }
            lemma_scan_truncate(b, e, pos2);
        },
        None => {
            assert(pos == e);
            assert(frame_at(t, pos) is None);
            assert(frames_from(t, pos) =~= Seq::<FrameView>::empty());
        },
    }
}

/// The bytes an accepted frame occupies are exactly the encoding of the
/// record it reads back as.
pub proof fn lemma_frame_bytes_at(b: Seq<u8>, pos: int)
    requires
        frame_at(b, pos) is Some,
    ensures
        b.subrange(pos, pos + frame_len(frame_at(b, pos)->Some_0)) == frame_bytes(
            frame_at(b, pos)->Some_0,
        ),
{
    let r = frame_at(b, pos)->Some_0;
    lemma_frame_at_fits(b, pos);
    let ks = be64_at(b, pos + 12) as int;
    let vs = be64_at(b, pos + 20) as int;
    let sub = b.subrange(pos, pos + 28 + ks + vs);
    assert(spec_decode(sub) == Some(r));
    assert(be32_at(sub, 0) == r.crc);
    assert(be64_at(sub, 4) == r.timestamp);
    assert(be64_at(sub, 12) == ks as u64 && be64_at(sub, 20) == vs as u64);
    lemma_u32_of_be_bytes(sub[0], sub[1], sub[2], sub[3]);
    lemma_u64_of_be_bytes(sub[4], sub[5], sub[6], sub[7], sub[8], sub[9], sub[10], sub[11]);
    lemma_u64_of_be_bytes(sub[12], sub[13], sub[14], sub[15], sub[16], sub[17], sub[18], sub[19]);
    lemma_u64_of_be_bytes(sub[20], sub[21], sub[22], sub[23], sub[24], sub[25], sub[26], sub[27]);
    let fb = frame_bytes(r);
    assert forall|i: int| 0 <= i < 4 implies fb[i] == #[trigger] be32(r.crc)[i] by {}
    assert forall|i: int| 0 <= i < 8 implies fb[4 + i] == #[trigger] be64(r.timestamp)[i] by {}
    assert forall|i: int| 0 <= i < 8 implies fb[12 + i] == #[trigger] be64(
        r.key.len() as u64,
    )[i] by {}
    assert forall|i: int| 0 <= i < 8 implies fb[20 + i] == #[trigger] be64(
        r.value.len() as u64,
    )[i] by {}
    assert(r.key == sub.subrange(28, 28 + ks));
    assert(r.value == sub.subrange(28 + ks, 28 + ks + vs));
    assert(sub =~= fb);
}

/// Every frame of a key names an id no greater than the one replay
/// leaves for that key.
pub proof fn lemma_latest_entry_id(segs: Seq<SegView>, k: Seq<u8>)
    requires
        ids_sorted(segs),
        latest_entry(segs, k) is Some,
    ensures
        forall|m: int|
            0 <= m < segs.len() && #[trigger] fs_has_key(frames_of(segs[m].data), k)
                ==> segs[m].id <= latest_entry(segs, k)->Some_0.file_id,
    decreases segs.len(),
{
    let s = segs.last();
    if fs_has_key(frames_of(s.data), k) {
        assert forall|m: int|
            0 <= m < segs.len() && #[trigger] fs_has_key(frames_of(segs[m].data), k) implies
            segs[m].id <= latest_entry(segs, k)->Some_0.file_id by {
            if m < segs.len() - 1 {
                assert(segs[m].id < segs.last().id);
            }
        }
    } else {
        assert(ids_sorted(segs.drop_last())) by {
            assert(forall|p: int, q: int|
                0 <= p < q < segs.len() - 1 ==> segs.drop_last()[p].id < segs.drop_last()[q].id);
        }
        lemma_latest_entry_id(segs.drop_last(), k);
        assert forall|m: int|
            0 <= m < segs.len() && #[trigger] fs_has_key(frames_of(segs[m].data), k) implies
            segs[m].id <= latest_entry(segs, k)->Some_0.file_id by {
            assert(m < segs.len() - 1);
            assert(segs.drop_last()[m] == segs[m]);
        }
    }
}

/// When the last segment carrying a key is known, replay leaves the key
/// pointing at that key's last frame there.
pub proof fn lemma_latest_entry_found_at(segs: Seq<SegView>, i: int, k: Seq<u8>)
    requires
        0 <= i < segs.len(),
        fs_has_key(frames_of(segs[i].data), k),
        forall|m: int|
            i < m < segs.len() ==> !fs_has_key(frames_of(#[trigger] segs[m].data), k),
    ensures
        latest_entry(segs, k) == Some(
            entry_of(
                frames_of(segs[i].data)[fs_last_idx(frames_of(segs[i].data), k)],
                segs[i].id,
            ),
        ),
    decreases segs.len(),
{
    if i == segs.len() - 1 {
    } else {
        assert(!fs_has_key(frames_of(segs.last().data), k));
        assert(segs.drop_last()[i] == segs[i]);
        lemma_latest_entry_found_at(segs.drop_last(), i, k);
    }
}

/// Replay found its entry for `k` in a segment that carries that id and
/// holds a frame of `k`.
pub proof fn lemma_latest_entry_seg(segs: Seq<SegView>, k: Seq<u8>)
    requires
        latest_entry(segs, k) is Some,
    ensures
        exists|m: int|
            0 <= m < segs.len() && segs[m].id == latest_entry(segs, k)->Some_0.file_id
                && fs_has_key(frames_of(#[trigger] segs[m].data), k),
    decreases segs.len(),
{
    if fs_has_key(frames_of(segs.last().data), k) {
        assert(segs[segs.len() - 1].id == latest_entry(segs, k)->Some_0.file_id && fs_has_key(
            frames_of(segs[segs.len() - 1].data),
            k,
        ));
    } else {
        lemma_latest_entry_seg(segs.drop_last(), k);
        let m = choose|m: int|
            0 <= m < segs.len() - 1 && segs.drop_last()[m].id == latest_entry(
                segs.drop_last(),
                k,
            )->Some_0.file_id && fs_has_key(frames_of(segs.drop_last()[m].data), k);
        assert(segs[m].id == latest_entry(segs, k)->Some_0.file_id && fs_has_key(
            frames_of(segs[m].data),
            k,
        ));
    }
}

/// Replacing the bytes of one segment with bytes that, like the old
/// ones, hold no frame of `k`, leaves `k`'s replay result unchanged.
pub proof fn lemma_latest_update_absent(segs: Seq<SegView>, segs2: Seq<SegView>, i: int, k: Seq<u8>)
    requires
        0 <= i < segs.len(),
        segs2 == segs.update(i, SegView { id: segs[i].id, data: segs2[i].data }),
        !fs_has_key(frames_of(segs[i].data), k),
        !fs_has_key(frames_of(segs2[i].data), k),
    ensures
        latest_entry(segs2, k) == latest_entry(segs, k),
    decreases segs.len(),
{
    if i == segs.len() - 1 {
        assert(segs2.drop_last() =~= segs.drop_last());
    } else {
        assert(segs2.last() == segs.last());
        assert(segs2.drop_last() =~= segs.drop_last().update(
            i,
            SegView { id: segs[i].id, data: segs2[i].data },
        ));
        assert(segs.drop_last()[i] == segs[i]);
        lemma_latest_update_absent(segs.drop_last(), segs2.drop_last(), i, k);
    }
}

/// Removing a segment that holds no frame of `k` leaves `k`'s replay
/// result unchanged.
pub proof fn lemma_latest_remove_absent(segs: Seq<SegView>, i: int, k: Seq<u8>)
    requires
        0 <= i < segs.len(),
        !fs_has_key(frames_of(segs[i].data), k),
    ensures
        latest_entry(segs.remove(i), k) == latest_entry(segs, k),
    decreases segs.len(),
{
    let t = segs.remove(i);
    if i == segs.len() - 1 {
        assert(t =~= segs.drop_last());
    } else {
        assert(t.last() == segs.last());
        assert(t.drop_last() =~= segs.drop_last().remove(i));
        assert(segs.drop_last()[i] == segs[i]);
        lemma_latest_remove_absent(segs.drop_last(), i, k);
    }
}

/// When some segment after `i` carries `k`, what happens to segment `i`
/// does not matter to `k`'s replay result.
pub proof fn lemma_latest_update_later(
    segs: Seq<SegView>,
    segs2: Seq<SegView>,
    i: int,
    m: int,
    k: Seq<u8>,
)
    requires
        0 <= i < m < segs.len(),
        segs2 == segs.update(i, SegView { id: segs[i].id, data: segs2[i].data }),
        fs_has_key(frames_of(segs[m].data), k),
    ensures
        latest_entry(segs2, k) == latest_entry(segs, k),
    decreases segs.len(),
{
    assert(segs2.last() == segs.last());
    if fs_has_key(frames_of(segs.last().data), k) {
        assert(segs2.drop_last() =~= segs.drop_last().update(
            i,
            SegView { id: segs[i].id, data: segs2[i].data },
        ));
    } else {
        assert(m < segs.len() - 1);
        assert(segs2.drop_last() =~= segs.drop_last().update(
            i,
            SegView { id: segs[i].id, data: segs2[i].data },
        ));
        assert(segs.drop_last()[i] == segs[i]);
        assert(segs.drop_last()[m] == segs[m]);
        lemma_latest_update_later(segs.drop_last(), segs2.drop_last(), i, m, k);
    }
}

/// Likewise for removing segment `i` outright.
pub proof fn lemma_latest_remove_later(segs: Seq<SegView>, i: int, m: int, k: Seq<u8>)
    requires
        0 <= i < m < segs.len(),
        fs_has_key(frames_of(segs[m].data), k),
    ensures
        latest_entry(segs.remove(i), k) == latest_entry(segs, k),
    decreases segs.len(),
{
    let t = segs.remove(i);
    assert(t.last() == segs.last());
    if fs_has_key(frames_of(segs.last().data), k) {
    } else {
        assert(m < segs.len() - 1);
        assert(t.drop_last() =~= segs.drop_last().remove(i));
        assert(segs.drop_last()[i] == segs[i]);
        assert(segs.drop_last()[m] == segs[m]);
        lemma_latest_remove_later(segs.drop_last(), i, m, k);
    }
}

/// Looking up by id after one segment's bytes are replaced: the replaced
/// segment's id now names the new bytes, every other id is unaffected.
pub proof fn lemma_data_of_update(segs: Seq<SegView>, segs2: Seq<SegView>, i: int)
    requires
        ids_sorted(segs),
        0 <= i < segs.len(),
        segs2 == segs.update(i, SegView { id: segs[i].id, data: segs2[i].data }),
    ensures
        ids_sorted(segs2),
        forall|id: u32| id != segs[i].id ==> data_of(segs2, id) == data_of(segs, id),
        data_of(segs2, segs[i].id) == segs2[i].data,
        forall|id: u32| has_seg(segs2, id) <==> has_seg(segs, id),
    decreases segs.len(),
{
    assert forall|p: int, q: int| 0 <= p < q < segs2.len() implies segs2[p].id < segs2[q].id by {
        assert(segs2[p].id == segs[p].id && segs2[q].id == segs[q].id);
    }
    if i == segs.len() - 1 {
        assert(segs2.drop_last() =~= segs.drop_last());
        assert(segs2.last() == SegView { id: segs[i].id, data: segs2[i].data });
        assert forall|id: u32| id != segs[i].id implies data_of(segs2, id) == data_of(
            segs,
            id,
        ) by {
            assert(data_of(segs2, id) == data_of(segs2.drop_last(), id));
            assert(data_of(segs, id) == data_of(segs.drop_last(), id));
        }
        assert(data_of(segs2, segs[i].id) == segs2[i].data);
    } else {
        assert(segs2.last() == segs.last());
        assert(segs2.drop_last() =~= segs.drop_last().update(
            i,
            SegView { id: segs[i].id, data: segs2[i].data },
        ));
        assert(segs.drop_last()[i] == segs[i]);
        assert(segs2.drop_last()[i] == segs2[i]);
        assert(ids_sorted(segs.drop_last())) by {
            assert(forall|p: int, q: int|
                0 <= p < q < segs.len() - 1 ==> segs.drop_last()[p].id < segs.drop_last()[q].id);
        }
        lemma_data_of_update(segs.drop_last(), segs2.drop_last(), i);
        assert(segs[i].id != segs.last().id);
        assert forall|id: u32| id != segs[i].id implies data_of(segs2, id) == data_of(
            segs,
            id,
        ) by {
            if id != segs.last().id {
                assert(data_of(segs2, id) == data_of(segs2.drop_last(), id));
                assert(data_of(segs, id) == data_of(segs.drop_last(), id));
            }
        }
        assert(data_of(segs2, segs[i].id) == data_of(segs2.drop_last(), segs[i].id));
        assert(data_of(segs2, segs[i].id) == segs2[i].data);
    }
    assert forall|id: u32| has_seg(segs2, id) implies has_seg(segs, id) by {
        let w = choose|w: int| 0 <= w < segs2.len() && segs2[w].id == id;
        assert(segs[w].id == id);
    }
    assert forall|id: u32| has_seg(segs, id) implies has_seg(segs2, id) by {
        let w = choose|w: int| 0 <= w < segs.len() && segs[w].id == id;
        assert(segs2[w].id == id);
    }
}

/// Looking up by id after one segment is removed: every other id is
/// unaffected.
pub proof fn lemma_data_of_remove(segs: Seq<SegView>, i: int)
    requires
        ids_sorted(segs),
        0 <= i < segs.len(),
    ensures
        ids_sorted(segs.remove(i)),
        forall|id: u32| id != segs[i].id ==> data_of(segs.remove(i), id) == data_of(segs, id),
        forall|id: u32| id != segs[i].id ==> (has_seg(segs.remove(i), id) <==> has_seg(segs, id)),
    decreases segs.len(),
{
    let t = segs.remove(i);
    assert forall|p: int, q: int| 0 <= p < q < t.len() implies t[p].id < t[q].id by {
        let p0 = if p < i { p } else { p + 1 };
        let q0 = if q < i { q } else { q + 1 };
        assert(t[p] == segs[p0] && t[q] == segs[q0]);
    }
    if i == segs.len() - 1 {
        assert(t =~= segs.drop_last());
        assert forall|id: u32| id != segs[i].id implies data_of(t, id) == data_of(segs, id) by {
            assert(data_of(segs, id) == data_of(segs.drop_last(), id));
        }
    } else {
        assert(t.last() == segs.last());
        assert(t.drop_last() =~= segs.drop_last().remove(i));
        assert(segs.drop_last()[i] == segs[i]);
        assert(ids_sorted(segs.drop_last())) by {
            assert(forall|p: int, q: int|
                0 <= p < q < segs.len() - 1 ==> segs.drop_last()[p].id < segs.drop_last()[q].id);
        }
        lemma_data_of_remove(segs.drop_last(), i);
        assert forall|id: u32| id != segs[i].id implies data_of(t, id) == data_of(segs, id) by {
            if id != segs.last().id {
                assert(data_of(t, id) == data_of(t.drop_last(), id));
                assert(data_of(segs, id) == data_of(segs.drop_last(), id));
            }
        }
    }
    assert forall|id: u32| id != segs[i].id && has_seg(t, id) implies has_seg(segs, id) by {
        let w = choose|w: int| 0 <= w < t.len() && t[w].id == id;
        let w0 = if w < i { w } else { w + 1 };
        assert(t[w] == segs[w0]);
    }
    assert forall|id: u32| id != segs[i].id && has_seg(segs, id) implies has_seg(t, id) by {
        let w0 = choose|w: int| 0 <= w < segs.len() && segs[w].id == id;
        assert(w0 != i);
        let w = if w0 < i { w0 } else { w0 - 1 };
        assert(t[w] == segs[w0]);
    }
}

/// Segment ids strictly increase along the list.
pub open spec fn ids_sorted(segs: Seq<SegView>) -> bool {
    forall|i: int, j: int| 0 <= i < j < segs.len() ==> segs[i].id < segs[j].id
}

/// Whether some segment carries the id.
pub open spec fn has_seg(segs: Seq<SegView>, id: u32) -> bool {
    exists|i: int| 0 <= i < segs.len() && segs[i].id == id
}

/// The bytes of the segment with the given id, searched from the tail.
pub open spec fn data_of(segs: Seq<SegView>, id: u32) -> Seq<u8>
    decreases segs.len(),
{
    if segs.len() == 0 {
        Seq::empty()
    } else if segs.last().id == id {
        segs.last().data
    } else {
        data_of(segs.drop_last(), id)
    }
}

/// With sorted ids, looking a segment up by its id finds that segment.
pub proof fn lemma_data_of(segs: Seq<SegView>, i: int)
    requires
        ids_sorted(segs),
        0 <= i < segs.len(),
    ensures
        data_of(segs, segs[i].id) == segs[i].data,
        has_seg(segs, segs[i].id),
    decreases segs.len(),
{
    if i == segs.len() - 1 {
    } else {
        assert(segs[i].id < segs.last().id);
        assert(ids_sorted(segs.drop_last())) by {
            assert(forall|p: int, q: int|
                0 <= p < q < segs.len() - 1 ==> segs.drop_last()[p].id < segs.drop_last()[q].id);
        }
        lemma_data_of(segs.drop_last(), i);
        assert(segs.drop_last()[i] == segs[i]);
    }
}

/// The number the ASCII digits spell, most significant first.
pub open spec fn digits_val(b: Seq<u8>) -> int
    decreases b.len(),
{
    if b.len() == 0 {
        0
    } else {
        digits_val(b.drop_last()) * 10 + (b.last() - 0x30)
    }
}

/// Whether every byte is an ASCII digit.
pub open spec fn all_digits(b: Seq<u8>) -> bool {
    forall|i: int| 0 <= i < b.len() ==> 0x30 <= #[trigger] b[i] <= 0x39
}

/// What a segment file name means: one or more decimal digits, then
/// `.db`, spelling an id that fits `u32`.
pub open spec fn spec_segment_name(b: Seq<u8>) -> Option<u32> {
    if b.len() >= 4 && b.subrange(b.len() - 3, b.len() as int) == seq![46u8, 100u8, 98u8]
        && all_digits(b.take(b.len() - 3)) && digits_val(b.take(b.len() - 3)) <= u32::MAX {
        Some(digits_val(b.take(b.len() - 3)) as u32)
    } else {
        None
    }
}

/// A digit string's value only grows as digits are appended.
proof fn lemma_digits_val_grows(b: Seq<u8>, i: int)
    requires
        all_digits(b),
        0 <= i <= b.len(),
    ensures
        digits_val(b.take(i)) <= digits_val(b),
    decreases b.len() - i,
{
    if i < b.len() {
        lemma_digits_val_grows(b, i + 1);
        assert(b.take(i + 1).drop_last() =~= b.take(i));
        assert(b.take(i + 1).last() == b[i]);
        assert(digits_val(b.take(i)) >= 0) by {
            lemma_digits_val_nonneg(b.take(i));
        }
    } else {
        assert(b.take(i) =~= b);
    }
}

/// A digit string's value is never negative.
proof fn lemma_digits_val_nonneg(b: Seq<u8>)
    requires
        all_digits(b),
    ensures
        digits_val(b) >= 0,
    decreases b.len(),
{
    if b.len() > 0 {
        assert(all_digits(b.drop_last())) by {
            assert(forall|i: int| 0 <= i < b.len() - 1 ==> b.drop_last()[i] == b[i]);
        }
        lemma_digits_val_nonneg(b.drop_last());
    }
}

/// Parses a segment file name of the form `<id>.db`, `id` a decimal
/// number that fits `u32`.
#[verifier::loop_isolation(false)]
pub fn parse_segment_name(name: &str) -> (r: Option<u32>)
    ensures
        r == spec_segment_name(encode_utf8(name@)),
{
    let b = name.as_bytes();
    let n = b.len();
    if n < 4 {
        return None;
    }
    if b[n - 3] != 46 || b[n - 2] != 100 || b[n - 1] != 98 {
        proof {
            assert(b@.subrange(n - 3, n as int) != seq![46u8, 100u8, 98u8]) by {
                if b@.subrange(n - 3, n as int) == seq![46u8, 100u8, 98u8] {
                    assert(b@.subrange(n - 3, n as int)[0] == 46u8);
                    assert(b@.subrange(n - 3, n as int)[1] == 100u8);
                    assert(b@.subrange(n - 3, n as int)[2] == 98u8);
                }
            }
        }
        return None;
    }
    proof {
        assert(b@.subrange(n - 3, n as int) =~= seq![46u8, 100u8, 98u8]);
    }
    let ghost digits = b@.take(n - 3);
    let mut i: usize = 0;
    let mut val: u64 = 0;
    while i < n - 3
        invariant
            0 <= i <= n - 3,
            all_digits(b@.take(i as int)),
            val == digits_val(b@.take(i as int)),
            val <= u32::MAX,
        decreases n - 3 - i,
    {
        let c = b[i];
        if c < 48 || c > 57 {
            proof {
                assert(!all_digits(digits)) by {
                    assert(digits[i as int] == c);
                }
            }
            return None;
        }
        let d = (c - 48) as u64;
        let next: u64 = val * 10 + d;
        proof {
            assert(b@.take(i + 1).drop_last() =~= b@.take(i as int));
            assert(b@.take(i + 1).last() == c);
            assert(next == digits_val(b@.take(i + 1)));
        }
        if next > 0xffff_ffff {
            proof {
                if all_digits(digits) {
                    lemma_digits_val_grows(digits, i + 1);
                    assert(digits.take(i + 1) =~= b@.take(i + 1));
                    assert(digits_val(digits) > u32::MAX);
                }
            }
            return None;
        }
        val = next;
        i += 1;
    }
    proof {
        assert(b@.take(n - 3) =~= digits);
    }
    Some(val as u32)
}

/// Whether `v` is one of the listed segments.
pub open spec fn seg_among(segs: Seq<SegView>, v: SegView) -> bool {
    exists|i: int| 0 <= i < segs.len() && segs[i] == v
}

/// Whether all segment ids are pairwise distinct.
pub open spec fn unique_ids(segs: Seq<SegView>) -> bool {
    forall|i: int, j: int| 0 <= i < j < segs.len() ==> segs[i].id != segs[j].id
}

/// Sorts segments into ascending id order — numerically, so that a
/// two-digit id follows every one-digit id. The result holds exactly
/// the given segments.
#[verifier::loop_isolation(false)]
pub fn sort_segments(segments: Vec<Segment>) -> (r: Vec<Segment>)
    requires
        unique_ids(segments@.map_values(|x: Segment| x@)),
    ensures
        ids_sorted(r@.map_values(|x: Segment| x@)),
        r@.len() == segments@.len(),
        forall|j: int|
            0 <= j < r@.len() ==> seg_among(segments@.map_values(|x: Segment| x@), #[trigger] r@[j]@),
{
    let ghost orig = segments@.map_values(|x: Segment| x@);
    let mut rest = segments;
    let mut out: Vec<Segment> = Vec::new();
    proof {
        assert forall|p: int, q: int|
            0 <= p < q < rest@.len() implies rest@[p]@.id != rest@[q]@.id by {
            assert(orig[p] == rest@[p]@ && orig[q] == rest@[q]@);
        }
        assert forall|j: int| 0 <= j < rest@.len() implies seg_among(orig, #[trigger] rest@[j]@) by {
            assert(orig[j] == rest@[j]@);
        }
    }
    while rest.len() > 0
        invariant
            out@.len() + rest@.len() == orig.len(),
            ids_sorted(out@.map_values(|x: Segment| x@)),
            forall|p: int, q: int|
                0 <= p < out@.len() && 0 <= q < rest@.len() ==> #[trigger] out@[p]@.id
                    < #[trigger] rest@[q]@.id,
            forall|p: int, q: int|
                0 <= p < q < rest@.len() ==> rest@[p]@.id != rest@[q]@.id,
            forall|j: int| 0 <= j < out@.len() ==> seg_among(orig, #[trigger] out@[j]@),
            forall|j: int| 0 <= j < rest@.len() ==> seg_among(orig, #[trigger] rest@[j]@),
        decreases rest@.len(),
    {
        let mut m: usize = 0;
        let mut j: usize = 1;
        while j < rest.len()
            invariant
                0 <= m < j <= rest@.len(),
                forall|p: int| 0 <= p < j && p != m ==> rest@[p]@.id > rest@[m as int]@.id,
            decreases rest@.len() - j,
        {
            if rest[j].id < rest[m].id {
                m = j;
            }
            j += 1;
        }
        let ghost rest0 = rest@;
        let ghost out0 = out@;
        let seg = rest.remove(m);
        out.push(seg);
        proof {
            assert(out@.last()@ == rest0[m as int]@);
            assert(forall|p: int| 0 <= p < out0.len() ==> out@[p] == out0[p]);
            assert forall|p: int, q: int|
                0 <= p < out@.len() && 0 <= q < rest@.len() implies #[trigger] out@[p]@.id
                < #[trigger] rest@[q]@.id by {
                let q0 = if q < m { q } else { q + 1 };
                assert(rest@[q] == rest0[q0]);
                if p < out@.len() - 1 {
                } else {
                    assert(rest0[q0]@.id != rest0[m as int]@.id);
                    assert(rest0[q0]@.id > rest0[m as int]@.id);
                }
            }
            assert forall|p: int, q: int|
                0 <= p < q < rest@.len() implies rest@[p]@.id != rest@[q]@.id by {
                let p0 = if p < m { p } else { p + 1 };
                let q0 = if q < m { q } else { q + 1 };
                assert(rest@[p] == rest0[p0] && rest@[q] == rest0[q0]);
            }
            assert forall|j2: int|
                0 <= j2 < rest@.len() implies seg_among(orig, #[trigger] rest@[j2]@) by {
                let j0 = if j2 < m { j2 } else { j2 + 1 };
                assert(rest@[j2] == rest0[j0]);
                assert(seg_among(orig, rest0[j0]@));
            }
            let ov = out@.map_values(|x: Segment| x@);
            assert forall|p: int, q: int| 0 <= p < q < out@.len() implies #[trigger] ov[p].id
                < #[trigger] ov[q].id by {
                assert(ov[p] == out@[p]@ && ov[q] == out@[q]@);
                if q == out@.len() - 1 {
                    assert(out@[p] == out0[p]);
                    assert(out0[p]@.id < rest0[m as int]@.id);
                } else {
                    let ov0 = out0.map_values(|x: Segment| x@);
                    assert(out@[p] == out0[p] && out@[q] == out0[q]);
                    assert(ov0[p].id < ov0[q].id);
                    assert(ov0[p] == out0[p]@ && ov0[q] == out0[q]@);
                }
            }
        }
    }
    out
}

/// Whether the 28 bytes at `pos` are all zero.
fn is_zero_window(data: &Vec<u8>, pos: usize) -> (r: bool)
    requires
        pos + 28 <= data@.len(),
    ensures
        r == zero_header_at(data@, pos as int),
{
    let n = data.len();
    let mut i: usize = 0;
    while i < 28
        invariant
            0 <= i <= 28,
            n == data@.len(),
            pos + 28 <= n,
            forall|j: int| pos <= j < pos + i ==> data@[j] == 0u8,
        decreases 28 - i,
    {
        if *vstd::std_specs::vec::vec_index(data, pos + i) != 0u8 {
            return false;
        }
        i += 1;
    }
    true
}

/// Reads the frame replay accepts at `pos`, if there is one. Returns the
/// decoded record; the caller recovers the frame's length from the key
/// and value lengths.
pub fn read_frame(data: &Vec<u8>, pos: usize) -> (r: Option<KeyValue>)
    requires
        pos <= data@.len(),
    ensures
        match r {
            Some(kv) => frame_at(data@, pos as int) == Some(kv@) && pos + frame_len(kv@)
                <= data@.len(),
            None => frame_at(data@, pos as int) is None,
        },
{
    let n = data.len();
    if n - pos < 28 {
        return None;
    }
    if is_zero_window(data, pos) {
        return None;
    }
    let ks = read_be64(data.as_slice(), pos + 12);
    let vs = read_be64(data.as_slice(), pos + 20);
    let rem = (n - pos - 28) as u64;
    if ks == 0 || ks > rem || vs > rem - ks {
        return None;
    }
    let total = 28 + ks as usize + vs as usize;
    let sub = vstd::slice::slice_subrange(data.as_slice(), pos, pos + total);
    match KeyValue::from_bytes(sub) {
        Err(_) => None,
        Ok(kv) => {
            if kv.verify() {
                proof {
                    assert(data@.subrange(pos as int, pos + total) == sub@);
                    assert(frame_at(data@, pos as int) == Some(kv@));
                }
                Some(kv)
            } else {
                None
            }
        },
    }
}

/// Replays one segment over the directory, inserting an entry for every
/// accepted frame in order, and returns the offset where replay stopped.
#[verifier::loop_isolation(false)]
pub fn load_segment(dir: &mut KeyDir, seg: &Segment) -> (end: usize)
    requires
        old(dir).wf(),
    ensures
        final(dir).wf(),
        final(dir)@ == dir_after(old(dir)@, seg.id, frames_of(seg.data@)),
        end == scan_end(seg.data@, 0),
        end <= seg.data@.len(),
{
    let ghost dir0 = dir@;
    let n = seg.data.len();
    let mut pos: usize = 0;
    loop
        invariant
            dir.wf(),
            n == seg.data@.len(),
            0 <= pos <= n,
            dir_after(dir0, seg.id, frames_of(seg.data@)) == dir_after(
                dir@,
                seg.id,
                frames_from(seg.data@, pos as int),
            ),
            scan_end(seg.data@, 0) == scan_end(seg.data@, pos as int),
        decreases n - pos,
    {
        match read_frame(&seg.data, pos) {
            None => {
                assert(frames_from(seg.data@, pos as int) =~= Seq::<FrameView>::empty());
                return pos;
            },
            Some(kv) => {
                let klen = kv.key.as_str().as_bytes().len();
                let vlen = kv.value.as_str().as_bytes().len();
                let total = 28 + klen + vlen;
                let ghost f = FrameView { pos: pos as int, rec: kv@ };
                proof {
                    assert(total == frame_len(kv@));
                    assert(frames_from(seg.data@, pos as int) == seq![f] + frames_from(
                        seg.data@,
                        pos + total,
                    ));
                    assert((seq![f] + frames_from(seg.data@, pos + total))[0] == f);
                    assert((seq![f] + frames_from(seg.data@, pos + total)).drop_first()
                        =~= frames_from(seg.data@, pos + total));
                }
                let key_bytes = kv.key.as_str().as_bytes_vec();
                let entry = KeyEntry::init(seg.id, kv.timestamp, pos, total);
                proof {
                    assert(entry == entry_of(f, seg.id@));
                }
                dir.insert(key_bytes, entry);
                pos = pos + total;
            },
        }
    }
}

} // verus!
