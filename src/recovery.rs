//! Undo-only recovery: which logged writes a scan of the log undoes.
use crate::block_id::BlockModel;
use crate::codec::i32_bytes;
use crate::log_record::{decode, LogRecord, RecordModel};
use crate::page::{overwrite, string_bytes};
use vstd::prelude::*;

verus! {

/// Whether `r` ends transaction `t` (a commit or a rollback of it).
pub open spec fn finishes(r: RecordModel, t: i32) -> bool {
    match r {
        RecordModel::Commit(x) => x == t,
        RecordModel::Rollback(x) => x == t,
        _ => false,
    }
}

/// Whether `r` is a logged write.
pub open spec fn is_update(r: RecordModel) -> bool {
    r is SetInt || r is SetString
}

/// Whether a checkpoint stands among the first `i` records.
pub open spec fn checkpoint_before(recs: Seq<RecordModel>, i: int) -> bool {
    exists|k: int| 0 <= k < i && (#[trigger] recs[k]) is Checkpoint
}

/// Whether the record at `i` of a newest-first log is undone by recovery:
/// a write that the scan reaches before any checkpoint, of a transaction
/// that no newer record finishes.
pub open spec fn undone(recs: Seq<RecordModel>, i: int) -> bool {
    &&& 0 <= i < recs.len()
    &&& is_update(recs[i])
    &&& !checkpoint_before(recs, i)
    &&& !exists|k: int| 0 <= k < i && finishes(#[trigger] recs[k], recs[i].tx_number())
}

/// Recovery never undoes a write of a transaction that a newer record
/// finishes (commits or rolls back).
pub proof fn lemma_finished_kept(recs: Seq<RecordModel>, i: int, k: int)
    requires
        0 <= k < i < recs.len(),
        finishes(recs[k], recs[i].tx_number()),
    ensures
        !undone(recs, i),
{
}

/// The scan stops at the nearest checkpoint: nothing older is undone.
pub proof fn lemma_stops_at_checkpoint(recs: Seq<RecordModel>, c: int, i: int)
    requires
        0 <= c < i < recs.len(),
        recs[c] is Checkpoint,
    ensures
        !undone(recs, i),
{
    assert(checkpoint_before(recs, i));
}

/// A write of a transaction that crashed before it finished, logged after
/// the last checkpoint, is undone.
pub proof fn lemma_unfinished_undone(recs: Seq<RecordModel>, i: int)
    requires
        0 <= i < recs.len(),
        is_update(recs[i]),
        forall|k: int| 0 <= k < i ==> !(#[trigger] recs[k] is Checkpoint),
        forall|k: int| 0 <= k < i ==> !finishes(#[trigger] recs[k], recs[i].tx_number()),
    ensures
        undone(recs, i),
{
}

/// The block a logged write changed.
pub open spec fn undo_block(r: RecordModel) -> BlockModel {
    match r {
        RecordModel::SetInt { blk, .. } => blk,
        RecordModel::SetString { blk, .. } => blk,
        _ => arbitrary(),
    }
}

/// The offset a logged write changed.
pub open spec fn undo_offset(r: RecordModel) -> int {
    match r {
        RecordModel::SetInt { offset, .. } => offset as int,
        RecordModel::SetString { offset, .. } => offset as int,
        _ => 0,
    }
}

/// The bytes that undoing a logged write puts back at its offset.
pub open spec fn undo_bytes(r: RecordModel) -> Seq<u8> {
    match r {
        RecordModel::SetInt { val, .. } => i32_bytes(val),
        RecordModel::SetString { val, .. } => string_bytes(val),
        _ => Seq::empty(),
    }
}

/// Whether undoing `r` fits a block of `block_size` bytes: the bytes put
/// back lie inside the block, and a string's length fits its prefix.
pub open spec fn undo_fits(r: RecordModel, block_size: int) -> bool {
    &&& 0 <= undo_offset(r)
    &&& undo_offset(r) + undo_bytes(r).len() <= block_size
    &&& (r is SetString ==> undo_bytes(r).len() - 4 <= i32::MAX)
}

/// Block `b`'s contents `c` after the undone writes among the first `n`
/// records of a newest-first log are undone, newest first.
pub open spec fn undo_effect(m: Seq<RecordModel>, n: int, b: BlockModel, c: Seq<u8>) -> Seq<u8>
    decreases n,
{
    if n <= 0 {
        c
    } else {
        let prev = undo_effect(m, n - 1, b, c);
        if undone(m, n - 1) && undo_block(m[n - 1]) == b {
            overwrite(prev, undo_offset(m[n - 1]), undo_bytes(m[n - 1]))
        } else {
            prev
        }
    }
}

/// Records that are not undone leave the effect as it was.
pub proof fn lemma_effect_skip(m: Seq<RecordModel>, a: int, e: int, b: BlockModel, c: Seq<u8>)
    requires
        0 <= a <= e,
        forall|i: int| a <= i < e ==> !undone(m, i),
    ensures
        undo_effect(m, e, b, c) == undo_effect(m, a, b, c),
    decreases e - a,
{
    if e > a {
        lemma_effect_skip(m, a, e - 1, b, c);
    }
}

/// Records that do not undo a write to `b` leave `b`'s effect as it was.
proof fn lemma_effect_other_blocks(m: Seq<RecordModel>, a: int, e: int, b: BlockModel, c: Seq<u8>)
    requires
        0 <= a <= e,
        forall|i: int| a <= i < e ==> !(undone(m, i) && #[trigger] undo_block(m[i]) == b),
    ensures
        undo_effect(m, e, b, c) == undo_effect(m, a, b, c),
    decreases e - a,
{
    if e > a {
        lemma_effect_other_blocks(m, a, e - 1, b, c);
        assert(!(undone(m, e - 1) && undo_block(m[e - 1]) == b));
    }
}

/// Crash recovery keeps committed work: when every logged write to `b`
/// belongs to a transaction that a newer record commits or rolls back,
/// recovery leaves `b` as it is.
pub proof fn lemma_finished_writes_survive(m: Seq<RecordModel>, b: BlockModel, c: Seq<u8>)
    requires
        forall|i: int|
            0 <= i < m.len() && is_update(m[i]) && #[trigger] undo_block(m[i]) == b ==> exists|k: int|
                0 <= k < i && finishes(#[trigger] m[k], m[i].tx_number()),
    ensures
        undo_effect(m, m.len() as int, b, c) == c,
{
    assert forall|i: int| 0 <= i < m.len() implies !(undone(m, i) && #[trigger] undo_block(m[i]) == b) by {
        if undone(m, i) && undo_block(m[i]) == b {
            let k = choose|k: int| 0 <= k < i && finishes(#[trigger] m[k], m[i].tx_number());
        }
    }
    lemma_effect_other_blocks(m, 0, m.len() as int, b, c);
}

/// Crash recovery undoes unfinished work: when the only write to `b` that
/// recovery undoes is the one at `i`, recovery writes back exactly the
/// value that write saved.
pub proof fn lemma_unfinished_write_restored(m: Seq<RecordModel>, i: int, b: BlockModel, c: Seq<u8>)
    requires
        undone(m, i),
        undo_block(m[i]) == b,
        forall|j: int| 0 <= j < m.len() && j != i ==> !(undone(m, j) && #[trigger] undo_block(m[j]) == b),
    ensures
        undo_effect(m, m.len() as int, b, c) == overwrite(c, undo_offset(m[i]), undo_bytes(m[i])),
{
    lemma_effect_other_blocks(m, 0, i, b, c);
    lemma_effect_other_blocks(m, i + 1, m.len() as int, b, c);
}

/// Whether the record at `i` of a newest-first log is undone when
/// transaction `t` rolls back: a write of `t` with no start record of `t`
/// newer than it.
pub open spec fn rolled_back(m: Seq<RecordModel>, t: i32, i: int) -> bool {
    &&& 0 <= i < m.len()
    &&& is_update(m[i])
    &&& m[i].tx_number() == t
    &&& !exists|k: int| 0 <= k < i && #[trigger] m[k] == RecordModel::Start(t)
}

/// Block `b`'s contents `c` after the writes of `t` among the first `n`
/// records of a newest-first log are undone, newest first.
pub open spec fn rollback_effect(m: Seq<RecordModel>, t: i32, n: int, b: BlockModel, c: Seq<u8>) -> Seq<u8>
    decreases n,
{
    if n <= 0 {
        c
    } else {
        let prev = rollback_effect(m, t, n - 1, b, c);
        if rolled_back(m, t, n - 1) && undo_block(m[n - 1]) == b {
            overwrite(prev, undo_offset(m[n - 1]), undo_bytes(m[n - 1]))
        } else {
            prev
        }
    }
}

/// The effect of the first `n` records depends on those records alone.
pub proof fn lemma_rollback_prefix(a: Seq<RecordModel>, b2: Seq<RecordModel>, t: i32, n: int, b: BlockModel, c: Seq<u8>)
    requires
        0 <= n <= a.len(),
        n <= b2.len(),
        forall|i: int| 0 <= i < n ==> a[i] == b2[i],
    ensures
        rollback_effect(a, t, n, b, c) == rollback_effect(b2, t, n, b, c),
    decreases n,
{
    if n > 0 {
        lemma_rollback_prefix(a, b2, t, n - 1, b, c);
        assert(rolled_back(a, t, n - 1) == rolled_back(b2, t, n - 1)) by {
            if exists|k: int| 0 <= k < n - 1 && #[trigger] a[k] == RecordModel::Start(t) {
                let k = choose|k: int| 0 <= k < n - 1 && #[trigger] a[k] == RecordModel::Start(t);
                assert(b2[k] == RecordModel::Start(t));
            }
            if exists|k: int| 0 <= k < n - 1 && #[trigger] b2[k] == RecordModel::Start(t) {
                let k = choose|k: int| 0 <= k < n - 1 && #[trigger] b2[k] == RecordModel::Start(t);
                assert(a[k] == RecordModel::Start(t));
            }
        }
    }
}

/// Whether `m` is what a rollback of `t` decodes from the log `raw`
/// (oldest first), newest first: every record up to and including the
/// newest start record of `t`, or all of them when there is none.
pub open spec fn scanned_to_start(raw: Seq<Seq<u8>>, t: i32, m: Seq<RecordModel>) -> bool {
    &&& m.len() <= raw.len()
    &&& forall|i: int| 0 <= i < m.len() ==> decode(raw[raw.len() - 1 - i]) == Some(#[trigger] m[i])
    &&& forall|i: int| 0 <= i < m.len() - 1 ==> #[trigger] m[i] != RecordModel::Start(t)
    &&& (m.len() == raw.len() || m.last() == RecordModel::Start(t))
}

/// Whether `m` is what a scan of the log `raw` (oldest first) decodes,
/// newest first: every record up to and including the newest checkpoint,
/// or all of them when there is none.
pub open spec fn scanned(raw: Seq<Seq<u8>>, m: Seq<RecordModel>) -> bool {
    &&& m.len() <= raw.len()
    &&& forall|i: int| 0 <= i < m.len() ==> decode(raw[raw.len() - 1 - i]) == Some(#[trigger] m[i])
    &&& forall|i: int| 0 <= i < m.len() - 1 ==> !(#[trigger] m[i] is Checkpoint)
    &&& (m.len() == raw.len() || m.last() is Checkpoint)
}

/// The models of a sequence of records.
pub open spec fn models(recs: Seq<LogRecord>) -> Seq<RecordModel> {
    recs.map_values(|r: LogRecord| r@)
}

/// The positions, in increasing order, of the records that recovery undoes
/// in a newest-first log.
pub fn recovery_plan(recs: &Vec<LogRecord>) -> (r: Vec<usize>)
    ensures
        forall|a: int, b: int| 0 <= a < b < r@.len() ==> r@[a] < r@[b],
        forall|k: int| 0 <= k < r@.len() ==> undone(models(recs@), #[trigger] r@[k] as int),
        forall|i: int| undone(models(recs@), i) ==> exists|k: int| 0 <= k < r@.len() && #[trigger] r@[k] == i,
{
    let ghost m = models(recs@);
    let mut out: Vec<usize> = Vec::new();
    let mut finished: Vec<i32> = Vec::new();
    let mut i: usize = 0;
    while i < recs.len()
        invariant
            m == models(recs@),
            i <= recs@.len(),
            !checkpoint_before(m, i as int),
            forall|t: i32| finished@.contains(t) <==> exists|k: int| 0 <= k < i && finishes(#[trigger] m[k], t),
            forall|a: int, b: int| 0 <= a < b < out@.len() ==> out@[a] < out@[b],
            forall|k: int| 0 <= k < out@.len() ==> out@[k] < i && undone(m, #[trigger] out@[k] as int),
            forall|j: int| 0 <= j < i && undone(m, j) ==> exists|k: int| 0 <= k < out@.len() && #[trigger] out@[k] == j,
        decreases recs@.len() - i,
    {
        let rec = &recs[i];
        assert(m[i as int] == rec@);
        let ghost out0 = out@;
        match rec {
            LogRecord::Checkpoint => {
                proof {
                    assert forall|j: int| undone(m, j) implies exists|k: int| 0 <= k < out@.len() && #[trigger] out@[k] == j by {
                        if j > i {
                            assert(checkpoint_before(m, j));
                        }
                    }
                }
                return out;
            },
            LogRecord::Commit { tx_num } | LogRecord::Rollback { tx_num } => {
                let ghost f0 = finished@;
                finished.push(*tx_num);
                proof {
                    assert forall|t: i32| finished@.contains(t) <==> exists|k: int| 0 <= k < i + 1 && finishes(#[trigger] m[k], t) by {
                        if f0.contains(t) {
                            let j = choose|j: int| 0 <= j < f0.len() && f0[j] == t;
                            assert(finished@[j] == t);
                        }
                        if t == *tx_num {
                            assert(finished@[f0.len() as int] == t);
                            assert(finishes(m[i as int], t));
                        }
                        if finished@.contains(t) {
                            let j = choose|j: int| 0 <= j < finished@.len() && finished@[j] == t;
                            if j < f0.len() {
                                assert(f0[j] == t);
                            }
                        }
                        if exists|k: int| 0 <= k < i + 1 && finishes(#[trigger] m[k], t) {
                            let k = choose|k: int| 0 <= k < i + 1 && finishes(#[trigger] m[k], t);
                            if k == i {
                                assert(t == *tx_num);
                            }
                        }
                    }
                }
            },
            LogRecord::SetInt { tx_num, .. } | LogRecord::SetString { tx_num, .. } => {
                if !contains(&finished, *tx_num) {
                    out.push(i);
                }
            },
            LogRecord::Start { .. } => {},
        }
        proof {
            assert forall|j: int| 0 <= j < i + 1 && undone(m, j) implies exists|k: int| 0 <= k < out@.len() && #[trigger] out@[k] == j by {
                if j < i {
                    let k = choose|k: int| 0 <= k < out0.len() && #[trigger] out0[k] == j;
                    assert(out@[k] == j);
                } else {
                    assert(out@[out@.len() - 1] == j);
                }
            }
        }
        i = i + 1;
    }
    out
}

/// Whether `v` holds `x`.
fn contains(v: &Vec<i32>, x: i32) -> (r: bool)
    ensures
        r == v@.contains(x),
{
    let mut i: usize = 0;
    while i < v.len()
        invariant
            i <= v@.len(),
            forall|j: int| 0 <= j < i ==> v@[j] != x,
        decreases v@.len() - i,
    {
        if v[i] == x {
            return true;
        }
        i = i + 1;
    }
    false
}

} // verus!
