//! The command layer: one function per command, each applying one store
//! operation with its full contract. Reading the segment files in and
//! writing them back out is the caller's part; these functions work on
//! the store value and the segment bytes alone.

use vstd::prelude::*;
use vstd::utf8::encode_utf8;
use crate::args::{CreateArgs, DeleteArgs, GetArgs, InitArgs, MergeArgs, SetArgs};
use crate::segment::{Segment, ids_sorted, replay_all};
use crate::store::{Store, DEFAULT_THRESHOLD};

verus! {

/// The directory the store lives in when none is named.
pub fn base_dir_or_default(dir: Option<String>) -> (r: String)
    ensures
        match dir {
            Some(d) => r@ == d@,
            None => r@ == "db"@,
        },
{
    match dir {
        Some(d) => d,
        None => "db".to_owned(),
    }
}

/// A fresh, empty store, and the directory to persist it in.
pub fn create(args: CreateArgs) -> (r: (Store, String))
    ensures
        r.0.wf(),
        r.0@ == Map::<Seq<u8>, Seq<u8>>::empty(),
        r.0.spec_threshold() == DEFAULT_THRESHOLD,
        match args.base_dir {
            Some(d) => r.1@ == d@,
            None => r.1@ == "db"@,
        },
{
    let dir = base_dir_or_default(args.base_dir);
    (Store::new(DEFAULT_THRESHOLD), dir)
}

/// Opens the store from the segments read back from its directory,
/// listed in ascending id order.
pub fn init(args: InitArgs, segments: Vec<Segment>) -> (r: (Store, String))
    requires
        ids_sorted(segments@.map_values(|x: Segment| x@)),
    ensures
        r.0.wf(),
        r.0.spec_threshold() == DEFAULT_THRESHOLD,
        forall|k: Seq<u8>| !r.0.tombstoned(k),
        segments@.len() == 0 ==> r.0@ == Map::<Seq<u8>, Seq<u8>>::empty(),
        segments@.len() > 0 ==> r.0.dir() == replay_all(segments@.map_values(|x: Segment| x@)),
        match args.base_dir {
            Some(d) => r.1@ == d@,
            None => r.1@ == "db"@,
        },
{
    let dir = base_dir_or_default(args.base_dir);
    (Store::open(segments, DEFAULT_THRESHOLD), dir)
}

/// Looks the key up in an open store.
pub fn get(store: &Store, args: &GetArgs) -> (r: Option<String>)
    requires
        store.wf(),
    ensures
        match r {
            Some(v) => store@.contains_key(encode_utf8(args.key@)) && encode_utf8(v@) == store@[
                encode_utf8(args.key@)
            ],
            None => !store@.contains_key(encode_utf8(args.key@)),
        },
{
    store.get(args.key.as_str())
}

/// Stores the value under the key in an open store.
pub fn set(store: &mut Store, args: &SetArgs)
    requires
        old(store).wf(),
        args.key@.len() > 0,
        old(store).segs().last().id < u32::MAX,
    ensures
        final(store).wf(),
        final(store)@ == old(store)@.insert(encode_utf8(args.key@), encode_utf8(args.value@)),
        final(store).spec_threshold() == old(store).spec_threshold(),
        final(store).segs().last().id <= old(store).segs().last().id + 1,
{
    store.set(args.key.as_str(), args.value.as_str());
}

/// Removes the key from an open store.
pub fn delete(store: &mut Store, args: &DeleteArgs)
    requires
        old(store).wf(),
    ensures
        final(store).wf(),
        final(store)@ == old(store)@.remove(encode_utf8(args.key@)),
{
    store.delete(args.key.as_str());
}

/// Compacts the sealed segments of an open store.
pub fn merge(store: &mut Store, _args: &MergeArgs)
    requires
        old(store).wf(),
    ensures
        final(store).wf(),
        final(store)@ == old(store)@,
        forall|k: Seq<u8>| !final(store).tombstoned(k),
{
    store.merge();
}

} // verus!
