//! Transactions: locking, pinning, write-ahead logging of every write,
//! commit, rollback, and recovery at startup.
use crate::block_id::{BlockId, BlockModel};
use crate::buffer_list::BufferList;
use crate::buffer_mgr::{assigned, BufferMgr};
use crate::codec::{i32_bytes, i32_of};
use crate::error::{DbError, DbResult};
use crate::lock_table::LockTable;
use crate::log_record::{create_log_record, decode, encode, LogRecord, RecordModel};
use crate::page::overwrite;
use crate::recovery::{
    undo_fits,
    is_update, models, recovery_plan, scanned, undo_block, undo_bytes, undo_effect, undo_offset, undone,
    lemma_effect_skip, lemma_rollback_prefix, rollback_effect, rolled_back, scanned_to_start,
};
use vstd::prelude::*;
use vstd::utf8::*;

verus! {

/// Hands out transaction numbers in increasing order.
pub struct TxNumbers {
    pub next: i32,
}

impl TxNumbers {
    pub fn new() -> (r: TxNumbers)
        ensures
            r.next == 1,
    {
        TxNumbers { next: 1 }
    }

    /// A number larger than every earlier one; `None` when they are used up.
    pub fn next_tx_num(&mut self) -> (r: Option<i32>)
        ensures
            old(self).next < i32::MAX ==> r == Some(old(self).next) && final(self).next == old(self).next + 1,
            old(self).next == i32::MAX ==> r is None && final(self).next == old(self).next,
    {
        if self.next == i32::MAX {
            return None;
        }
        let n = self.next;
        self.next = n + 1;
        Some(n)
    }
}

/// Appends a record to the log and returns its LSN.
fn log_record(bm: &mut BufferMgr, rec: &LogRecord) -> (r: DbResult<usize>)
    requires
        old(bm).wf(),
    ensures
        final(bm).wf(),
        final(bm).fm == old(bm).fm,
        final(bm).slots() == old(bm).slots(),
        r is Ok <==> old(bm).lm.records().len() < usize::MAX,
        r matches Ok(lsn) ==> final(bm).lm.records() == old(bm).lm.records().push(encode(rec@))
            && lsn == final(bm).lm.records().len(),
        r is Err ==> *final(bm) == *old(bm),
{
    let bytes = rec.to_bytes()?;
    if bm.lm.last_lsn() == usize::MAX {
        return Err(DbError::Io(String::from_str("log is full")));
    }
    Ok(bm.lm.append(bytes.as_slice()))
}

/// Puts back the value that a logged write overwrote, through the pool,
/// on behalf of `txnum`, without logging it.
fn undo(bm: &mut BufferMgr, rec: &LogRecord, txnum: i32) -> (r: DbResult<()>)
    requires
        old(bm).wf(),
        txnum >= 0,
    ensures
        final(bm).wf(),
        final(bm).lm.records() == old(bm).lm.records(),
        forall|b: BlockModel| #[trigger] final(bm).fm.has_block(b) == old(bm).fm.has_block(b),
        final(bm).fm.spec_block_size() == old(bm).fm.spec_block_size(),
        final(bm).slots().len() == old(bm).slots().len(),
        forall|j: int| 0 <= j < final(bm).slots().len() ==> #[trigger] final(bm).slots()[j].pins == old(bm).slots()[j].pins,
        !is_update(rec@) ==> r is Ok && *final(bm) == *old(bm),
        is_update(rec@) && undo_fits(rec@, old(bm).fm.spec_block_size() as int) && old(bm).fm.has_block(undo_block(rec@))
            && old(bm).has_room() ==> r is Ok,
        r matches Err(e) ==> e is BadIndex || e is BufferAbort || e is Io,
        r is Ok ==> forall|b: BlockModel|
            old(bm).fm.has_block(b) ==> #[trigger] final(bm).current(b) == if is_update(rec@) && undo_block(rec@)
                == b {
                overwrite(old(bm).current(b), undo_offset(rec@), undo_bytes(rec@))
            } else {
                old(bm).current(b)
            },
{
    let (blk, offset) = match rec {
        LogRecord::SetInt { blk, offset, .. } => (blk, *offset),
        LogRecord::SetString { blk, offset, .. } => (blk, *offset),
        _ => {
            return Ok(());
        },
    };
    proof {
        vstd::bytes::lemma_auto_spec_u32_to_from_le_bytes();
    }
    let size = bm.fm.block_size();
    if offset < 0 || (offset as usize) > size || size - (offset as usize) < 4 {
        return Err(DbError::BadIndex(String::from_str("offset outside the block")));
    }
    let off = offset as usize;
    if let LogRecord::SetString { val, .. } = rec {
        let n = val.as_str().as_bytes().len();
        if n > size - off - 4 || n > i32::MAX as usize {
            return Err(DbError::BadIndex(String::from_str("string does not fit the block")));
        }
    }
    proof {
        vstd::bytes::lemma_auto_spec_u32_to_from_le_bytes();
        if old(bm).has_room() && old(bm).holds(blk@) {
            let j = choose|j: int| 0 <= j < old(bm).slots().len() && assigned(#[trigger] old(bm).slots()[j]) == Some(blk@);
            assert(old(bm).slots()[j].pins < u32::MAX);
        }
    }
    let i = match bm.pin(blk) {
        Ok(i) => i,
        Err(e) => {
            return Err(e);
        },
    };
    let ghost pinned = *bm;
    let lsn = bm.lm.last_lsn();
    match rec {
        LogRecord::SetInt { val, .. } => bm.set_int(i, off, *val, txnum, lsn),
        LogRecord::SetString { val, .. } => bm.set_string(i, off, val.as_str(), txnum, lsn),
        _ => {},
    }
    bm.unpin(i);
    proof {
        assert forall|j: int| 0 <= j < bm.slots().len() implies #[trigger] bm.slots()[j].pins == old(bm).slots()[j].pins by {
            if j == i {
                assert(pinned.slots()[j].pins >= 1);
            }
        }
    }
    Ok(())
}

/// Whether every record of the log decodes, and undoing each logged write
/// fits an existing block of the pool's store.
pub open spec fn log_undoable(bm: &BufferMgr) -> bool {
    forall|i: int|
        0 <= i < bm.lm.records().len() ==> {
            &&& #[trigger] decode(bm.lm.records()[i]) is Some
            &&& is_update(decode(bm.lm.records()[i])->0) ==> undo_fits(
                decode(bm.lm.records()[i])->0,
                bm.fm.spec_block_size() as int,
            ) && bm.fm.has_block(undo_block(decode(bm.lm.records()[i])->0))
        }
}

/// Whether undoing every logged write among `m` fits an existing block of
/// the pool's store.
pub open spec fn undos_fit(bm: &BufferMgr, m: Seq<RecordModel>) -> bool {
    forall|i: int|
        0 <= i < m.len() && is_update(#[trigger] m[i]) ==> undo_fits(m[i], bm.fm.spec_block_size() as int)
            && bm.fm.has_block(undo_block(m[i]))
}

/// Undoes, newest first, every write of a newest-first sequence of
/// records that recovery undoes: the writes the scan reaches before any
/// checkpoint, of transactions that no newer record finishes.
pub fn undo_all(bm: &mut BufferMgr, recs: &Vec<LogRecord>, txnum: i32) -> (r: DbResult<()>)
    requires
        old(bm).wf(),
        txnum >= 0,
    ensures
        final(bm).wf(),
        final(bm).lm.records() == old(bm).lm.records(),
        forall|b: BlockModel| #[trigger] final(bm).fm.has_block(b) == old(bm).fm.has_block(b),
        final(bm).fm.spec_block_size() == old(bm).fm.spec_block_size(),
        final(bm).slots().len() == old(bm).slots().len(),
        forall|j: int| 0 <= j < final(bm).slots().len() ==> #[trigger] final(bm).slots()[j].pins == old(bm).slots()[j].pins,
        old(bm).has_room() && undos_fit(old(bm), models(recs@)) ==> r is Ok,
        r matches Err(e) ==> e is BadIndex || e is BufferAbort || e is Io,
        r is Ok ==> forall|b: BlockModel|
            old(bm).fm.has_block(b) ==> #[trigger] final(bm).current(b) == undo_effect(
                models(recs@),
                recs@.len() as int,
                b,
                old(bm).current(b),
            ),
{
    let ghost m = models(recs@);
    let plan = recovery_plan(recs);
    let mut k: usize = 0;
    while k < plan.len()
        invariant
            bm.wf(),
            txnum >= 0,
            m == models(recs@),
            k <= plan@.len(),
            forall|a: int, b: int| 0 <= a < b < plan@.len() ==> plan@[a] < plan@[b],
            forall|j: int| 0 <= j < plan@.len() ==> undone(m, #[trigger] plan@[j] as int),
            forall|i: int| undone(m, i) ==> exists|j: int| 0 <= j < plan@.len() && #[trigger] plan@[j] == i,
            bm.lm.records() == old(bm).lm.records(),
            forall|b: BlockModel| #[trigger] bm.fm.has_block(b) == old(bm).fm.has_block(b),
            bm.fm.spec_block_size() == old(bm).fm.spec_block_size(),
            bm.slots().len() == old(bm).slots().len(),
            forall|j: int| 0 <= j < bm.slots().len() ==> #[trigger] bm.slots()[j].pins == old(bm).slots()[j].pins,
            forall|b: BlockModel|
                old(bm).fm.has_block(b) ==> #[trigger] bm.current(b) == undo_effect(
                    m,
                    if k == 0 {
                        0
                    } else {
                        plan@[k - 1] + 1
                    },
                    b,
                    old(bm).current(b),
                ),
        decreases plan@.len() - k,
    {
        let idx = plan[k];
        let ghost start: int = if k == 0 {
            0
        } else {
            plan@[k - 1] + 1
        };
        proof {
            assert forall|i: int| start <= i < idx implies !undone(m, i) by {
                if undone(m, i) {
                    let j = choose|j: int| 0 <= j < plan@.len() && #[trigger] plan@[j] == i;
                    if j < k {
                        if j < k - 1 {
                            assert(plan@[j] < plan@[k - 1]);
                        }
                    } else if j > k {
                        assert(plan@[k as int] < plan@[j]);
                    }
                }
            }
            assert(undone(m, idx as int));
        }
        let ghost before = *bm;
        proof {
            assert(m[idx as int] == recs@[idx as int]@);
            if old(bm).has_room() {
                assert forall|j: int| 0 <= j < bm.slots().len() implies #[trigger] bm.slots()[j].pins < u32::MAX by {
                    assert(old(bm).slots()[j].pins < u32::MAX);
                }
                let j0 = choose|j: int| 0 <= j < old(bm).slots().len() && !(#[trigger] old(bm).slots()[j].pins > 0);
                assert(!(bm.slots()[j0].pins > 0));
            }
        }
        match undo(bm, &recs[idx], txnum) {
            Ok(()) => {},
            Err(e) => {
                return Err(e);
            },
        }
        proof {
            assert(m[idx as int] == recs@[idx as int]@);
            assert forall|b: BlockModel| old(bm).fm.has_block(b) implies #[trigger] bm.current(b) == undo_effect(
                m,
                idx + 1,
                b,
                old(bm).current(b),
            ) by {
                lemma_effect_skip(m, start, idx as int, b, old(bm).current(b));
                assert(before.current(b) == undo_effect(m, start, b, old(bm).current(b)));
            }
        }
        k = k + 1;
    }
    proof {
        let start: int = if k == 0 {
            0
        } else {
            plan@[k - 1] + 1
        };
        assert forall|i: int| start <= i < recs@.len() implies !undone(m, i) by {
            if undone(m, i) {
                let j = choose|j: int| 0 <= j < plan@.len() && #[trigger] plan@[j] == i;
                if j < k - 1 {
                    assert(plan@[j] < plan@[k - 1]);
                }
            }
        }
        assert forall|b: BlockModel| old(bm).fm.has_block(b) implies #[trigger] bm.current(b) == undo_effect(
            m,
            recs@.len() as int,
            b,
            old(bm).current(b),
        ) by {
            if start <= recs@.len() {
                lemma_effect_skip(m, start, recs@.len() as int, b, old(bm).current(b));
            }
        }
    }
    Ok(())
}

/// Decodes the log, newest record first, up to and including the newest
/// checkpoint.
fn scan_log(bm: &BufferMgr) -> (r: DbResult<Vec<LogRecord>>)
    ensures
        r matches Ok(recs) ==> scanned(bm.lm.records(), models(recs@)),
        (forall|i: int| 0 <= i < bm.lm.records().len() ==> #[trigger] decode(bm.lm.records()[i]) is Some) ==> r is Ok,
        r matches Err(e) ==> e is Serialization,
{
    let raw = bm.lm.newest_first();
    let mut out: Vec<LogRecord> = Vec::new();
    let mut i: usize = 0;
    while i < raw.len()
        invariant
            raw@.len() == bm.lm.records().len(),
            forall|j: int|
                0 <= j < raw@.len() ==> #[trigger] raw@[j]@ == bm.lm.records()[raw@.len() - 1 - j],
            i <= raw@.len(),
            out@.len() == i,
            forall|j: int| 0 <= j < i ==> decode(bm.lm.records()[raw@.len() - 1 - j]) == Some(#[trigger] out@[j]@),
            forall|j: int| 0 <= j < i ==> !(#[trigger] out@[j]@ is Checkpoint),
        decreases raw@.len() - i,
    {
        assert(raw@[i as int]@ == bm.lm.records()[raw@.len() - 1 - i]);
        let rec = match create_log_record(raw[i].as_slice()) {
            Ok(x) => x,
            Err(e) => {
                return Err(e);
            },
        };
        let stop = matches!(rec, LogRecord::Checkpoint);
        out.push(rec);
        if stop {
            return Ok(out);
        }
        i = i + 1;
    }
    Ok(out)
}

/// Recovery at startup: scans the log newest first, undoes every write of
/// a transaction that no newer record finishes, stopping at the nearest
/// checkpoint; then writes the undone pages, and logs a checkpoint.
/// `txnum` is the transaction the undo writes are made for.
pub fn recover(bm: &mut BufferMgr, txnum: i32) -> (r: DbResult<()>)
    requires
        old(bm).wf(),
        txnum >= 0,
    ensures
        final(bm).wf(),
        old(bm).has_room() && log_undoable(old(bm)) && old(bm).lm.records().len() < usize::MAX ==> r is Ok,
        r matches Err(e) ==> e is Serialization || e is BadIndex || e is BufferAbort || e is Io,
        r is Ok ==> {
            &&& final(bm).lm.records() == old(bm).lm.records().push(encode(RecordModel::Checkpoint))
            &&& final(bm).lm.durable() == final(bm).lm.records().len()
            &&& exists|m: Seq<RecordModel>|
                scanned(old(bm).lm.records(), m) && forall|b: BlockModel|
                    old(bm).fm.has_block(b) ==> #[trigger] final(bm).current(b) == undo_effect(
                        m,
                        m.len() as int,
                        b,
                        old(bm).current(b),
                    )
        },
{
    proof {
        if log_undoable(old(bm)) {
            assert forall|i: int| 0 <= i < old(bm).lm.records().len() implies #[trigger] decode(old(bm).lm.records()[i]) is Some by {}
        }
    }
    let recs = match scan_log(bm) {
        Ok(x) => x,
        Err(e) => {
            return Err(e);
        },
    };
    proof {
        let m = models(recs@);
        let raw = old(bm).lm.records();
        if log_undoable(old(bm)) {
            assert forall|i: int| 0 <= i < m.len() && is_update(#[trigger] m[i]) implies undo_fits(
                m[i],
                old(bm).fm.spec_block_size() as int,
            ) && old(bm).fm.has_block(undo_block(m[i])) by {
                assert(decode(raw[raw.len() - 1 - i]) == Some(m[i]));
                assert(decode(raw[raw.len() - 1 - i]) is Some);
            }
        }
    }
    match undo_all(bm, &recs, txnum) {
        Ok(()) => {},
        Err(e) => {
            return Err(e);
        },
    }
    let ghost undone_state = *bm;
    bm.flush_all(txnum);
    let ghost flushed = *bm;
    let lsn = match log_record(bm, &LogRecord::Checkpoint) {
        Ok(n) => n,
        Err(_) => {
            return Err(DbError::Io(String::from_str("log is full")));
        },
    };
    let ghost logged = *bm;
    bm.lm.flush(lsn);
    proof {
        let m = models(recs@);
        assert forall|b: BlockModel| old(bm).fm.has_block(b) implies #[trigger] bm.current(b) == undo_effect(
            m,
            m.len() as int,
            b,
            old(bm).current(b),
        ) by {
            assert(undone_state.fm.has_block(b));
            assert(flushed.current(b) == undone_state.current(b));
            assert(logged.current(b) == flushed.current(b));
            assert(bm.current(b) == logged.current(b));
        }
        assert(scanned(old(bm).lm.records(), m));
    }
    Ok(())
}

/// A unit of work: its number, its pins, and whether it is still active.
pub struct Transaction {
    pub txnum: i32,
    pub buffers: BufferList,
    pub active: bool,
}

/// The lock that stands for the end of a file: appending to a file and
/// asking its size take it.
fn end_of_file(filename: &str) -> (r: BlockId)
    ensures
        r@.filename == filename@,
        r@.number == -1,
{
    BlockId::new(filename.to_owned(), -1)
}

impl Transaction {
    /// The state every operation keeps: the pool and the lock table are
    /// well formed and the pins match the pool.
    pub open spec fn ready(&self, bm: &BufferMgr, lt: &LockTable) -> bool {
        &&& bm.wf()
        &&& lt.wf()
        &&& self.buffers.consistent(bm)
        &&& self.txnum >= 0
    }

    /// Starts transaction `txnum`: logs its start record.
    pub fn new(bm: &mut BufferMgr, txnum: i32) -> (r: DbResult<Transaction>)
        requires
            old(bm).wf(),
            txnum >= 0,
        ensures
            final(bm).wf(),
            r matches Ok(t) ==> {
                &&& t.txnum == txnum
                &&& t.active
                &&& t.buffers.entries@.len() == 0
                &&& final(bm).lm.records() == old(bm).lm.records().push(encode(RecordModel::Start(txnum)))
            },
            r is Ok <==> old(bm).lm.records().len() < usize::MAX,
            r matches Err(e) ==> e is Io,
    {
        match log_record(bm, &LogRecord::Start { tx_num: txnum }) {
            Ok(_) => {},
            Err(_) => {
                return Err(DbError::Io(String::from_str("log is full")));
            },
        }
        Ok(Transaction { txnum, buffers: BufferList::new(), active: true })
    }

    /// Fails with a transaction abort unless the transaction is active.
    fn check_active(&self) -> (r: DbResult<()>)
        ensures
            r is Ok <==> self.active,
            r matches Err(e) ==> e is TransactionAbort,
    {
        if self.active {
            Ok(())
        } else {
            Err(DbError::TransactionAbort(String::from_str("transaction is not active")))
        }
    }

    /// Pins `blk` for this transaction.
    pub fn pin(&mut self, bm: &mut BufferMgr, lt: &LockTable, blk: &BlockId) -> (r: DbResult<()>)
        requires
            old(self).ready(old(bm), lt),
        ensures
            final(self).ready(final(bm), lt),
            final(self).txnum == old(self).txnum,
            final(self).active == old(self).active,
            r is Ok ==> final(self).buffers.count(blk@) == old(self).buffers.count(blk@) + 1,
            forall|b: BlockModel| b != blk@ ==> #[trigger] final(self).buffers.count(b) == old(self).buffers.count(b),
            forall|b: BlockModel| old(bm).fm.has_block(b) ==> #[trigger] final(bm).current(b) == old(bm).current(b),
            !old(self).active ==> (r matches Err(e) && e is TransactionAbort),
            old(self).active && 0 < old(self).buffers.count(blk@) < usize::MAX ==> r is Ok && *final(bm) == *old(bm),
            old(self).active && old(self).buffers.count(blk@) == 0 && old(bm).has_room() && old(bm).fm.has_block(blk@)
                ==> r is Ok,
            old(self).active && old(self).buffers.count(blk@) == 0 && !old(bm).holds(blk@) && old(bm).all_pinned()
                ==> (r matches Err(e) && e is BufferAbort),
            old(self).active ==> (r matches Err(e) ==> e is BufferAbort || (e is Io && !old(bm).fm.has_block(blk@))),
            r is Err ==> forall|j: int|
                0 <= j < final(bm).slots().len() ==> #[trigger] final(bm).slots()[j].pins == old(bm).slots()[j].pins,
            final(bm).slots().len() == old(bm).slots().len(),
            forall|j: int|
                0 <= j < final(bm).slots().len() && assigned(#[trigger] final(bm).slots()[j]) != assigned(
                    old(bm).slots()[j],
                ) ==> old(bm).slots()[j].pins == 0,
    {
        self.check_active()?;
        proof {
            if old(bm).has_room() && old(bm).holds(blk@) {
                let j = choose|j: int| 0 <= j < old(bm).slots().len() && assigned(#[trigger] old(bm).slots()[j]) == Some(blk@);
                assert(old(bm).slots()[j].pins < u32::MAX);
            }
        }
        self.buffers.pin(bm, blk)
    }

    /// Takes one of this transaction's pins off `blk`.
    pub fn unpin(&mut self, bm: &mut BufferMgr, lt: &LockTable, blk: &BlockId)
        requires
            old(self).ready(old(bm), lt),
        ensures
            final(self).ready(final(bm), lt),
            final(self).txnum == old(self).txnum,
            final(self).active == old(self).active,
            final(self).buffers.count(blk@) == if old(self).buffers.count(blk@) > 0 {
                old(self).buffers.count(blk@) - 1
            } else {
                0
            },
            forall|b: BlockModel| b != blk@ ==> #[trigger] final(self).buffers.count(b) == old(self).buffers.count(b),
            forall|b: BlockModel| #[trigger] final(bm).current(b) == old(bm).current(b),
    {
        self.buffers.unpin(bm, blk);
        proof {
            crate::buffer_mgr::same_binding_current(old(bm), bm, -1);
        }
    }

    /// The slot of a block this transaction has pinned.
    fn slot_of(&self, bm: &BufferMgr, blk: &BlockId) -> (r: DbResult<usize>)
        requires
            self.buffers.consistent(bm),
        ensures
            r is Ok <==> self.buffers.count(blk@) > 0,
            r matches Ok(i) ==> i == self.buffers.entry(blk@).slot && i < bm.slots().len()
                && assigned(bm.slots()[i as int]) == Some(blk@),
            r matches Err(e) ==> e is TransactionAbort,
    {
        match self.buffers.get_buffer(blk) {
            Some(i) => {
                proof {
                    let k = choose|k: int|
                        0 <= k < self.buffers.entries@.len() && (#[trigger] self.buffers.entries@[k]).blk@ == blk@;
                    assert(self.buffers.entries@[k].count >= 1);
                }
                Ok(i)
            },
            None => Err(DbError::TransactionAbort(String::from_str("block is not pinned"))),
        }
    }

    /// The integer at `offset` of `blk`, under a shared lock. The block
    /// must be pinned by this transaction. Fails with a deadlock error when
    /// another transaction holds the block exclusively.
    pub fn get_int(&mut self, bm: &BufferMgr, lt: &mut LockTable, blk: &BlockId, offset: usize) -> (r: DbResult<i32>)
        requires
            old(self).ready(bm, old(lt)),
        ensures
            *final(self) == *old(self),
            final(self).ready(bm, final(lt)),
            old(self).active ==> ((r matches Err(e) && e is Deadlock) <==> old(lt).held_by_other(
                old(self).txnum,
                blk@,
                true,
            )),
            r matches Ok(v) ==> {
                let p = bm.current(blk@);
                &&& offset + 4 <= p.len()
                &&& v == i32_of(p.subrange(offset as int, p.len() as int))
                &&& final(lt).holds(old(self).txnum, blk@, false)
            },
            old(self).active && old(self).buffers.count(blk@) > 0 && !old(lt).held_by_other(
                old(self).txnum,
                blk@,
                true,
            ) && offset + 4 <= bm.fm.spec_block_size() ==> r is Ok,
    {
        self.check_active()?;
        if !lt.slock(self.txnum, blk) {
            return Err(DbError::Deadlock);
        }
        let i = self.slot_of(bm, blk)?;
        let size = bm.fm.block_size();
        if offset > size || size - offset < 4 {
            return Err(DbError::BadIndex(String::from_str("offset outside the block")));
        }
        proof {
            bm.lemma_current_at(i as int);
        }
        Ok(bm.get_int(i, offset))
    }

    /// Writes `val` at `offset` of `blk` under an exclusive lock: logs the
    /// value it overwrites, then changes the page and marks it dirty with
    /// the record's LSN. The block must be pinned by this transaction.
    /// Fails with a deadlock error when another transaction holds any lock
    /// on the block.
    pub fn set_int(&mut self, bm: &mut BufferMgr, lt: &mut LockTable, blk: &BlockId, offset: usize, val: i32) -> (r:
        DbResult<()>)
        requires
            old(self).ready(old(bm), old(lt)),
        ensures
            *final(self) == *old(self),
            final(self).ready(final(bm), final(lt)),
            old(self).active ==> ((r matches Err(e) && e is Deadlock) <==> old(lt).held_by_other(
                old(self).txnum,
                blk@,
                false,
            )),
            old(self).active && old(self).buffers.count(blk@) > 0 && !old(lt).held_by_other(old(self).txnum, blk@, false)
                && offset + 4 <= old(bm).fm.spec_block_size() && offset <= i32::MAX
                && old(bm).lm.records().len() < usize::MAX ==> r is Ok,
            r matches Err(e) ==> e is Deadlock || e is TransactionAbort || e is BadIndex || e is Io,
            r is Ok ==> {
                let i = old(self).buffers.entry(blk@).slot as int;
                let p = old(bm).current(blk@);
                &&& offset + 4 <= p.len()
                &&& final(bm).current(blk@) == overwrite(p, offset as int, i32_bytes(val))
                &&& forall|b: BlockModel| b != blk@ ==> #[trigger] final(bm).current(b) == old(bm).current(b)
                &&& final(bm).slots()[i].txnum == old(self).txnum
                &&& final(bm).lm.records() == old(bm).lm.records().push(
                    encode(
                        RecordModel::SetInt {
                            tx: old(self).txnum,
                            blk: blk@,
                            offset: offset as i32,
                            val: i32_of(p.subrange(offset as int, p.len() as int)),
                        },
                    ),
                )
                &&& final(bm).slots()[i].lsn == final(bm).lm.records().len()
                &&& final(lt).holds(old(self).txnum, blk@, true)
            },
    {
        self.check_active()?;
        if !lt.xlock(self.txnum, blk) {
            return Err(DbError::Deadlock);
        }
        let i = self.slot_of(bm, blk)?;
        let size = bm.fm.block_size();
        if offset > size || size - offset < 4 || offset > i32::MAX as usize {
            return Err(DbError::BadIndex(String::from_str("offset outside the block")));
        }
        proof {
            bm.lemma_current_at(i as int);
        }
        let old_val = bm.get_int(i, offset);
        let rec = LogRecord::SetInt { tx_num: self.txnum, blk: blk.duplicate(), offset: offset as i32, val: old_val };
        let ghost before = *bm;
        let lsn = match log_record(bm, &rec) {
            Ok(n) => n,
            Err(_) => {
                return Err(DbError::Io(String::from_str("log is full")));
            },
        };
        let ghost mid = *bm;
        proof {
            assert forall|b: BlockModel| #[trigger] mid.current(b) == before.current(b) by {}
        }
        bm.set_int(i, offset, val, self.txnum, lsn);
        proof {
            assert forall|k: int| 0 <= k < self.buffers.entries@.len() && (#[trigger] self.buffers.entries@[k]).count >= 1
                implies {
                    let e = self.buffers.entries@[k];
                    &&& e.slot < bm.slots().len()
                    &&& assigned(bm.slots()[e.slot as int]) == Some(e.blk@)
                    &&& bm.slots()[e.slot as int].pins >= 1
                } by {
                let e = self.buffers.entries@[k];
                if e.slot != i {
                    assert(bm.slots()[e.slot as int] == mid.slots()[e.slot as int]);
                }
            }
        }
        Ok(())
    }
}

impl Transaction {
    /// The string at `offset` of `blk`, under a shared lock; the block must
    /// be pinned by this transaction.
    pub fn get_string(&mut self, bm: &BufferMgr, lt: &mut LockTable, blk: &BlockId, offset: usize) -> (r: DbResult<String>)
        requires
            old(self).ready(bm, old(lt)),
        ensures
            *final(self) == *old(self),
            final(self).ready(bm, final(lt)),
            old(self).active ==> ((r matches Err(e) && e is Deadlock) <==> old(lt).held_by_other(
                old(self).txnum,
                blk@,
                true,
            )),
            r matches Ok(v) ==> v@ == crate::page::string_at(bm.current(blk@), offset as int),
            old(self).active && old(self).buffers.count(blk@) > 0 && !old(lt).held_by_other(old(self).txnum, blk@, true)
                && crate::page::string_at_ok(bm.current(blk@), offset as int) ==> r is Ok,
            r matches Err(e) ==> e is Deadlock || e is TransactionAbort || e is BadIndex,
    {
        self.check_active()?;
        if !lt.slock(self.txnum, blk) {
            return Err(DbError::Deadlock);
        }
        let i = self.slot_of(bm, blk)?;
        proof {
            bm.lemma_current_at(i as int);
        }
        match bm.get_string(i, offset) {
            Some(v) => Ok(v),
            None => Err(DbError::BadIndex(String::from_str("no string at offset"))),
        }
    }

    /// Writes `val` at `offset` of `blk` under an exclusive lock, after
    /// logging the string it overwrites; the block must be pinned by this
    /// transaction.
    pub fn set_string(&mut self, bm: &mut BufferMgr, lt: &mut LockTable, blk: &BlockId, offset: usize, val: &str) -> (r:
        DbResult<()>)
        requires
            old(self).ready(old(bm), old(lt)),
        ensures
            *final(self) == *old(self),
            final(self).ready(final(bm), final(lt)),
            old(self).active ==> ((r matches Err(e) && e is Deadlock) <==> old(lt).held_by_other(
                old(self).txnum,
                blk@,
                false,
            )),
            old(self).active && old(self).buffers.count(blk@) > 0 && !old(lt).held_by_other(old(self).txnum, blk@, false)
                && offset + 4 + encode_utf8(val@).len() <= old(bm).fm.spec_block_size() && offset <= i32::MAX
                && encode_utf8(val@).len() <= i32::MAX && crate::page::string_at_ok(old(bm).current(blk@), offset as int)
                && old(bm).lm.records().len() < usize::MAX ==> r is Ok,
            old(self).active && old(self).buffers.count(blk@) > 0 && !old(lt).held_by_other(old(self).txnum, blk@, false)
                && !crate::page::string_at_ok(old(bm).current(blk@), offset as int) ==> (r matches Err(e) && e is BadIndex),
            r matches Err(e) ==> e is Deadlock || e is TransactionAbort || e is BadIndex || e is Io,
            r is Ok ==> {
                let i = old(self).buffers.entry(blk@).slot as int;
                let p = old(bm).current(blk@);
                &&& final(bm).current(blk@) == overwrite(p, offset as int, crate::page::string_bytes(val@))
                &&& forall|b: BlockModel| b != blk@ ==> #[trigger] final(bm).current(b) == old(bm).current(b)
                &&& final(bm).lm.records() == old(bm).lm.records().push(
                    encode(
                        RecordModel::SetString {
                            tx: old(self).txnum,
                            blk: blk@,
                            offset: offset as i32,
                            val: crate::page::string_at(p, offset as int),
                        },
                    ),
                )
                &&& final(bm).slots()[i].lsn == final(bm).lm.records().len()
                &&& final(lt).holds(old(self).txnum, blk@, true)
            },
    {
        self.check_active()?;
        if !lt.xlock(self.txnum, blk) {
            return Err(DbError::Deadlock);
        }
        let i = self.slot_of(bm, blk)?;
        proof {
            bm.lemma_current_at(i as int);
        }
        // the value to restore must be a stored string, or the undo could not put it back
        let old_val = match bm.get_string(i, offset) {
            Some(v) => v,
            None => {
                return Err(DbError::BadIndex(String::from_str("no string stored at offset")));
            },
        };
        let size = bm.fm.block_size();
        let n = val.as_bytes().len();
        if offset > size || size - offset < 4 || size - offset - 4 < n || offset > i32::MAX as usize
            || n > i32::MAX as usize {
            return Err(DbError::BadIndex(String::from_str("string does not fit the block")));
        }
        let rec = LogRecord::SetString { tx_num: self.txnum, blk: blk.duplicate(), offset: offset as i32, val: old_val };
        let ghost before = *bm;
        let lsn = match log_record(bm, &rec) {
            Ok(n) => n,
            Err(_) => {
                return Err(DbError::Io(String::from_str("log is full")));
            },
        };
        let ghost mid = *bm;
        proof {
            assert forall|b: BlockModel| #[trigger] mid.current(b) == before.current(b) by {}
        }
        bm.set_string(i, offset, val, self.txnum, lsn);
        proof {
            assert forall|k: int| 0 <= k < self.buffers.entries@.len() && (#[trigger] self.buffers.entries@[k]).count >= 1
                implies {
                    let e = self.buffers.entries@[k];
                    &&& e.slot < bm.slots().len()
                    &&& assigned(bm.slots()[e.slot as int]) == Some(e.blk@)
                    &&& bm.slots()[e.slot as int].pins >= 1
                } by {
                let e = self.buffers.entries@[k];
                if e.slot != i {
                    assert(bm.slots()[e.slot as int] == mid.slots()[e.slot as int]);
                }
            }
        }
        Ok(())
    }

    /// The size of every block.
    pub fn block_size(&self, bm: &BufferMgr) -> (r: usize)
        ensures
            r == bm.fm.spec_block_size(),
    {
        bm.fm.block_size()
    }

    /// The number of unpinned slots of the pool.
    pub fn available_buffers(&self, bm: &BufferMgr) -> (r: usize)
        ensures
            r == crate::buffer_mgr::count_unpinned(bm.slots()),
    {
        bm.available()
    }

    /// The number of blocks of the file, under a shared lock on its end.
    pub fn size(&mut self, bm: &BufferMgr, lt: &mut LockTable, filename: &str) -> (r: DbResult<usize>)
        requires
            old(self).ready(bm, old(lt)),
        ensures
            *final(self) == *old(self),
            final(self).ready(bm, final(lt)),
            r matches Ok(n) ==> n == bm.fm.file(filename@).len(),
            old(self).active && !old(lt).held_by_other(old(self).txnum, BlockModel { filename: filename@, number: -1i32 }, true)
                ==> r is Ok,
    {
        self.check_active()?;
        let eof = end_of_file(filename);
        if !lt.slock(self.txnum, &eof) {
            return Err(DbError::Deadlock);
        }
        Ok(bm.fm.size(filename))
    }

    /// Appends a zeroed block to the file, under an exclusive lock on its end.
    pub fn append_block(&mut self, bm: &mut BufferMgr, lt: &mut LockTable, filename: &str) -> (r: DbResult<BlockId>)
        requires
            old(self).ready(old(bm), old(lt)),
        ensures
            *final(self) == *old(self),
            final(self).ready(final(bm), final(lt)),
            r matches Ok(b) ==> b@.filename == filename@ && b@.number == old(bm).fm.file(filename@).len()
                && final(bm).fm.file(filename@).len() == old(bm).fm.file(filename@).len() + 1,
            old(self).active && !old(lt).held_by_other(
                old(self).txnum,
                BlockModel { filename: filename@, number: -1i32 },
                false,
            ) && old(bm).fm.file(filename@).len() < i32::MAX ==> r is Ok,
            r matches Err(e) ==> e is Deadlock || e is TransactionAbort || e is Io,
    {
        self.check_active()?;
        let eof = end_of_file(filename);
        if !lt.xlock(self.txnum, &eof) {
            return Err(DbError::Deadlock);
        }
        let ghost before = *bm;
        let r = bm.fm.append(filename);
        proof {
            assert forall|j: int|
                0 <= j < bm.slots().len() && #[trigger] assigned(bm.slots()[j]) is Some implies bm.fm.has_block(
                    assigned(bm.slots()[j])->0,
                ) by {
                let b = assigned(bm.slots()[j])->0;
                assert(before.fm.has_block(b));
                if r is Ok && b.filename == filename@ {
                    assert(bm.fm.file(b.filename).len() == before.fm.file(b.filename).len() + 1);
                }
            }
            assert forall|j: int| 0 <= j < bm.slots().len() implies (#[trigger] bm.slots()[j]).page@.len()
                == bm.fm.spec_block_size() by {}
        }
        match r {
            Ok(b) => Ok(b),
            Err(_) => Err(DbError::Io(String::from_str("file is full"))),
        }
    }

    /// Ends the transaction by committing: writes its dirty pages, logs a
    /// commit record and makes the log durable through it, then releases
    /// its locks and pins.
    pub fn commit(&mut self, bm: &mut BufferMgr, lt: &mut LockTable) -> (r: DbResult<()>)
        requires
            old(self).ready(old(bm), old(lt)),
        ensures
            final(bm).wf(),
            final(lt).wf(),
            final(self).txnum == old(self).txnum,
            !old(self).active ==> (r matches Err(e) && e is TransactionAbort),
            old(self).active ==> (r is Ok <==> old(bm).lm.records().len() < usize::MAX),
            old(self).active ==> (r matches Err(e) ==> e is Io),
            old(self).active ==> {
                &&& !final(self).active
                &&& forall|b: BlockModel, x: bool| !#[trigger] final(lt).holds(old(self).txnum, b, x)
                &&& forall|b: BlockModel| #[trigger] final(self).buffers.count(b) == 0
            },
            r is Ok ==> {
                &&& !final(self).active
                &&& final(bm).lm.records() == old(bm).lm.records().push(encode(RecordModel::Commit(old(self).txnum)))
                &&& final(bm).lm.durable() == final(bm).lm.records().len()
                &&& forall|j: int| 0 <= j < final(bm).slots().len() ==> #[trigger] final(bm).slots()[j].txnum != old(self).txnum
                &&& forall|b: BlockModel| old(bm).fm.has_block(b) ==> #[trigger] final(bm).current(b) == old(bm).current(b)
                &&& forall|b: BlockModel, x: bool| !#[trigger] final(lt).holds(old(self).txnum, b, x)
                &&& forall|b: BlockModel| #[trigger] final(self).buffers.count(b) == 0
            },
    {
        self.check_active()?;
        bm.flush_all(self.txnum);
        let ghost flushed = *bm;
        let lsn = match log_record(bm, &LogRecord::Commit { tx_num: self.txnum }) {
            Ok(n) => n,
            Err(_) => {
                self.finish(bm, lt);
                return Err(DbError::Io(String::from_str("log is full")));
            },
        };
        let ghost logged = *bm;
        bm.lm.flush(lsn);
        let ghost durable = *bm;
        self.finish(bm, lt);
        proof {
            assert forall|b: BlockModel| old(bm).fm.has_block(b) implies #[trigger] bm.current(b) == old(bm).current(b) by {
                assert(flushed.current(b) == old(bm).current(b));
                assert(logged.current(b) == flushed.current(b));
                assert(durable.current(b) == logged.current(b));
            }
            assert forall|j: int| 0 <= j < bm.slots().len() implies #[trigger] bm.slots()[j].txnum != old(self).txnum by {
                assert(flushed.slots()[j].txnum != old(self).txnum);
                assert(durable.slots()[j] == flushed.slots()[j]);
            }
        }
        Ok(())
    }

    /// Ends the transaction by rolling back: puts back, newest first, every
    /// value it overwrote, back to its start record; writes those pages,
    /// logs a rollback record and makes the log durable, then releases its
    /// locks and pins.
    pub fn rollback(&mut self, bm: &mut BufferMgr, lt: &mut LockTable) -> (r: DbResult<()>)
        requires
            old(self).ready(old(bm), old(lt)),
        ensures
            final(bm).wf(),
            final(lt).wf(),
            final(self).txnum == old(self).txnum,
            !old(self).active ==> (r matches Err(e) && e is TransactionAbort),
            old(self).active && old(bm).has_room() && log_undoable(old(bm)) && old(bm).lm.records().len() < usize::MAX
                ==> r is Ok,
            r matches Err(e) ==> e is TransactionAbort || e is Serialization || e is BadIndex || e is BufferAbort
                || e is Io,
            r is Ok ==> {
                &&& !final(self).active
                &&& final(bm).lm.records() == old(bm).lm.records().push(encode(RecordModel::Rollback(old(self).txnum)))
                &&& final(bm).lm.durable() == final(bm).lm.records().len()
                &&& forall|j: int| 0 <= j < final(bm).slots().len() ==> #[trigger] final(bm).slots()[j].txnum != old(self).txnum
                &&& exists|m: Seq<RecordModel>|
                    scanned_to_start(old(bm).lm.records(), old(self).txnum, m) && forall|b: BlockModel|
                        old(bm).fm.has_block(b) ==> #[trigger] final(bm).current(b) == rollback_effect(
                            m,
                            old(self).txnum,
                            m.len() as int,
                            b,
                            old(bm).current(b),
                        )
                &&& forall|b: BlockModel, x: bool| !#[trigger] final(lt).holds(old(self).txnum, b, x)
                &&& forall|b: BlockModel| #[trigger] final(self).buffers.count(b) == 0
            },
    {
        self.check_active()?;
        let t = self.txnum;
        let ghost start_bm = *bm;
        self.buffers.unpin_all(bm);
        proof {
            crate::buffer_mgr::same_binding_current(&start_bm, bm, -1);
            if start_bm.has_room() {
                assert forall|j: int| 0 <= j < bm.slots().len() implies #[trigger] bm.slots()[j].pins < u32::MAX by {
                    assert(start_bm.slots()[j].pins < u32::MAX);
                }
                let j0 = choose|j: int| 0 <= j < start_bm.slots().len() && !(#[trigger] start_bm.slots()[j].pins > 0);
                assert(bm.slots()[j0] == old(self).buffers.released(&start_bm, j0));
                if old(self).buffers.uses_slot_before(j0, old(self).buffers.entries@.len() as int) {
                    let k = choose|k: int|
                        0 <= k < old(self).buffers.entries@.len() && k < old(self).buffers.entries@.len()
                            && (#[trigger] old(self).buffers.entries@[k]).slot == j0
                            && old(self).buffers.entries@[k].count >= 1;
                    assert(start_bm.slots()[old(self).buffers.entries@[k].slot as int].pins >= 1);
                }
                assert(!(bm.slots()[j0].pins > 0));
            }
        }
        let ghost room = start_bm.has_room();
        let ghost unpinned = *bm;
        assert(room ==> unpinned.has_room());
        let raw = bm.lm.newest_first();
        let ghost mut ms: Seq<RecordModel> = Seq::empty();
        let mut i: usize = 0;
        let mut found = false;
        while i < raw.len() && !found
            invariant
                bm.wf(),
                lt.wf(),
                self.txnum == t,
                t == old(self).txnum,
                t >= 0,
                old(self).active,
                forall|b: BlockModel| #[trigger] self.buffers.count(b) == 0,
                self.buffers.entries@.len() == 0,
                bm.lm.records() == old(bm).lm.records(),
                raw@.len() == bm.lm.records().len(),
                forall|j: int| 0 <= j < raw@.len() ==> #[trigger] raw@[j]@ == bm.lm.records()[raw@.len() - 1 - j],
                i <= raw@.len(),
                ms.len() == i,
                forall|j: int| 0 <= j < i ==> decode(bm.lm.records()[raw@.len() - 1 - j]) == Some(#[trigger] ms[j]),
                forall|j: int| 0 <= j < i - 1 ==> #[trigger] ms[j] != RecordModel::Start(t),
                !found ==> forall|j: int| 0 <= j < i ==> #[trigger] ms[j] != RecordModel::Start(t),
                found ==> i > 0 && ms.last() == RecordModel::Start(t),
                forall|b: BlockModel| #[trigger] bm.fm.has_block(b) == old(bm).fm.has_block(b),
                bm.fm.spec_block_size() == old(bm).fm.spec_block_size(),
                bm.slots().len() == unpinned.slots().len(),
                forall|j: int| 0 <= j < bm.slots().len() ==> #[trigger] bm.slots()[j].pins == unpinned.slots()[j].pins,
                room == old(bm).has_room(),
                room ==> unpinned.has_room(),
                old(bm).fm.spec_block_size() == start_bm.fm.spec_block_size(),
                forall|b: BlockModel|
                    old(bm).fm.has_block(b) ==> #[trigger] bm.current(b) == rollback_effect(ms, t, i as int, b, old(bm).current(b)),
            decreases raw@.len() - i,
        {
            proof {
                if log_undoable(old(bm)) {
                    assert(decode(bm.lm.records()[raw@.len() - 1 - i]) is Some);
                }
            }
            let rec = match create_log_record(raw[i].as_slice()) {
                Ok(x) => x,
                Err(e) => {
                    return Err(e);
                },
            };
            assert(raw@[i as int]@ == bm.lm.records()[raw@.len() - 1 - i]);
            let ghost ms0 = ms;
            proof {
                ms = ms.push(rec@);
                assert forall|b: BlockModel| #[trigger] rollback_effect(ms, t, i as int, b, old(bm).current(b))
                    == rollback_effect(ms0, t, i as int, b, old(bm).current(b)) by {
                    lemma_rollback_prefix(ms0, ms, t, i as int, b, old(bm).current(b));
                }
            }
            let ghost pre = *bm;
            if rec.tx_number() == t {
                if matches!(rec, LogRecord::Start { .. }) {
                    found = true;
                } else {
                    proof {
                        if room {
                            crate::buffer_mgr::lemma_room_same_pins(&unpinned, bm);
                        }
                        if log_undoable(old(bm)) {
                            assert(decode(bm.lm.records()[raw@.len() - 1 - i]) is Some);
                        }
                    }
                    match undo(bm, &rec, t) {
                        Ok(()) => {},
                        Err(e) => {
                            return Err(e);
                        },
                    }
                }
            }
            proof {
                assert(ms[i as int] == rec@);
                assert forall|j: int| 0 <= j < i implies #[trigger] ms[j] != RecordModel::Start(t) by {
                    assert(ms[j] == ms0[j]);
                }
                assert(rolled_back(ms, t, i as int) == (is_update(rec@) && rec@.tx_number() == t));
                assert forall|b: BlockModel| old(bm).fm.has_block(b) implies #[trigger] bm.current(b) == rollback_effect(
                    ms,
                    t,
                    i + 1,
                    b,
                    old(bm).current(b),
                ) by {
                    assert(pre.current(b) == rollback_effect(ms, t, i as int, b, old(bm).current(b)));
                }
            }
            i = i + 1;
        }
        let ghost undone_bm = *bm;
        bm.flush_all(t);
        let ghost flushed = *bm;
        let lsn = match log_record(bm, &LogRecord::Rollback { tx_num: t }) {
            Ok(n) => n,
            Err(_) => {
                return Err(DbError::Io(String::from_str("log is full")));
            },
        };
        let ghost logged = *bm;
        bm.lm.flush(lsn);
        let ghost durable = *bm;
        self.finish(bm, lt);
        proof {
            assert(scanned_to_start(old(bm).lm.records(), t, ms));
            assert forall|b: BlockModel| old(bm).fm.has_block(b) implies #[trigger] bm.current(b) == rollback_effect(
                ms,
                t,
                ms.len() as int,
                b,
                old(bm).current(b),
            ) by {
                assert(flushed.current(b) == undone_bm.current(b));
                assert(logged.current(b) == flushed.current(b));
                assert(durable.current(b) == logged.current(b));
            }
            assert forall|j: int| 0 <= j < bm.slots().len() implies #[trigger] bm.slots()[j].txnum != old(self).txnum by {
                assert(flushed.slots()[j].txnum != old(self).txnum);
                assert(durable.slots()[j] == flushed.slots()[j]);
            }
        }
        Ok(())
    }

    /// Releases the locks and pins of the transaction and ends it.
    fn finish(&mut self, bm: &mut BufferMgr, lt: &mut LockTable)
        requires
            old(bm).wf(),
            old(lt).wf(),
            old(self).buffers.consistent(old(bm)),
        ensures
            final(bm).wf(),
            final(lt).wf(),
            final(bm).lm == old(bm).lm,
            final(bm).fm == old(bm).fm,
            final(bm).slots().len() == old(bm).slots().len(),
            forall|j: int| 0 <= j < final(bm).slots().len() ==> #[trigger] final(bm).slots()[j].txnum == old(bm).slots()[j].txnum,
            forall|b: BlockModel| #[trigger] final(bm).current(b) == old(bm).current(b),
            final(self).txnum == old(self).txnum,
            !final(self).active,
            forall|b: BlockModel, x: bool| !#[trigger] final(lt).holds(old(self).txnum, b, x),
            forall|b: BlockModel| #[trigger] final(self).buffers.count(b) == 0,
    {
        lt.release_all(self.txnum);
        let ghost before = *bm;
        self.buffers.unpin_all(bm);
        self.active = false;
        proof {
            assert forall|b: BlockModel| #[trigger] bm.current(b) == before.current(b) by {
                if before.holds(b) {
                    let j = choose|j: int| 0 <= j < before.slots().len() && assigned(#[trigger] before.slots()[j]) == Some(b);
                    before.lemma_current_at(j);
                    assert(assigned(bm.slots()[j]) == Some(b));
                    bm.lemma_current_at(j);
                } else if bm.holds(b) {
                    let j = choose|j: int| 0 <= j < bm.slots().len() && assigned(#[trigger] bm.slots()[j]) == Some(b);
                    assert(assigned(before.slots()[j]) == Some(b));
                }
            }
        }
    }
}

} // verus!
