//! Laws that hold across runs of calls, stated over the same models the
//! store's contracts use: the observable mapping as a `Map`, record runs
//! as sequences. Each lemma is the general form of a property a single
//! call's contract supplies one step of.

use vstd::prelude::*;

verus! {

/// What a run of successful `set`s does to the observable mapping, one
/// insert per call, in call order.
pub open spec fn apply_sets(m: Map<Seq<u8>, Seq<u8>>, ops: Seq<(Seq<u8>, Seq<u8>)>) -> Map<
    Seq<u8>,
    Seq<u8>,
>
    decreases ops.len(),
{
    if ops.len() == 0 {
        m
    } else {
        apply_sets(m.insert(ops[0].0, ops[0].1), ops.drop_first())
    }
}

proof fn lemma_sets_miss(m: Map<Seq<u8>, Seq<u8>>, ops: Seq<(Seq<u8>, Seq<u8>)>, k: Seq<u8>)
    requires
        forall|j: int| 0 <= j < ops.len() ==> (#[trigger] ops[j]).0 != k,
    ensures
        apply_sets(m, ops).contains_key(k) == m.contains_key(k),
        m.contains_key(k) ==> apply_sets(m, ops)[k] == m[k],
    decreases ops.len(),
{
    if ops.len() > 0 {
        assert(forall|j: int|
            0 <= j < ops.len() - 1 ==> (#[trigger] ops.drop_first()[j]).0 == ops[j + 1].0);
        lemma_sets_miss(m.insert(ops[0].0, ops[0].1), ops.drop_first(), k);
    }
}

/// The last write wins: after any run of `set`s without intervening
/// failure, each written key maps to the value of the last `set` that
/// targeted it. The run is given as the key and value bytes of each
/// call; `set`'s own contract says each call performs one such insert.
pub proof fn lemma_last_set_wins(
    m: Map<Seq<u8>, Seq<u8>>,
    ops: Seq<(Seq<u8>, Seq<u8>)>,
    k: Seq<u8>,
    i: int,
)
    requires
        0 <= i < ops.len(),
        ops[i].0 == k,
        forall|j: int| i < j < ops.len() ==> (#[trigger] ops[j]).0 != k,
    ensures
        apply_sets(m, ops).contains_key(k),
        apply_sets(m, ops)[k] == ops[i].1,
    decreases ops.len(),
{
    assert(forall|j: int|
        0 <= j < ops.len() - 1 ==> (#[trigger] ops.drop_first()[j]).0 == ops[j + 1].0);
    if i == 0 {
        lemma_sets_miss(m.insert(k, ops[0].1), ops.drop_first(), k);
    } else {
        lemma_last_set_wins(m.insert(ops[0].0, ops[0].1), ops.drop_first(), k, i - 1);
        assert(ops.drop_first()[i - 1] == ops[i]);
    }
}

/// Deletion reads back as absent, and a later `set` of the same key
/// reads back as exactly the new value: `delete` removes the key from
/// the observable mapping and `set` inserts the pair, so the two calls
/// compose as remove then insert.
pub proof fn lemma_delete_then_set(m: Map<Seq<u8>, Seq<u8>>, k: Seq<u8>, v: Seq<u8>)
    ensures
        !m.remove(k).contains_key(k),
        m.remove(k).insert(k, v).contains_key(k),
        m.remove(k).insert(k, v)[k] == v,
{
}

/// The segment count and append offset a run of `set`s leaves behind,
/// starting from a fresh store, folded record by record: exactly what
/// `set`'s contract says of each call — the record either extends the
/// active segment or, when it would push it past the threshold, opens a
/// fresh one.
pub open spec fn run_state(lens: Seq<int>, threshold: int) -> (int, int)
    decreases lens.len(),
{
    if lens.len() == 0 {
        (1, 0)
    } else {
        let prev = run_state(lens.drop_last(), threshold);
        if prev.1 + lens.last() > threshold {
            (prev.0 + 1, lens.last())
        } else {
            (prev.0, prev.1 + lens.last())
        }
    }
}

/// The total byte length of a run's records.
pub open spec fn run_total(lens: Seq<int>) -> int
    decreases lens.len(),
{
    if lens.len() == 0 {
        0
    } else {
        run_total(lens.drop_last()) + lens.last()
    }
}

proof fn lemma_run_single_segment(lens: Seq<int>, threshold: int)
    requires
        threshold >= 0,
        forall|i: int| 0 <= i < lens.len() ==> lens[i] >= 0,
    ensures
        run_state(lens, threshold).0 >= 1,
        run_state(lens, threshold).0 == 1 ==> run_state(lens, threshold).1 == run_total(lens)
            && run_total(lens) <= threshold,
    decreases lens.len(),
{
    if lens.len() > 0 {
        assert(forall|i: int| 0 <= i < lens.len() - 1 ==> lens.drop_last()[i] == lens[i]);
        lemma_run_single_segment(lens.drop_last(), threshold);
    }
}

/// Rollover: a run of `set`s whose records total more than the threshold
/// leaves at least two segments. While a run stays in one segment its
/// offset is the total written, and `set` keeps that at or under the
/// threshold, so a larger total forces a rollover somewhere in the run.
pub proof fn lemma_run_rolls_over(lens: Seq<int>, threshold: int)
    requires
        threshold >= 0,
        forall|i: int| 0 <= i < lens.len() ==> lens[i] >= 0,
        run_total(lens) > threshold,
    ensures
        run_state(lens, threshold).0 >= 2,
{
    lemma_run_single_segment(lens, threshold);
}

} // verus!
