use simpledb::block_id::BlockId;
use simpledb::buffer_list::BufferList;
use simpledb::buffer_mgr::BufferMgr;
use simpledb::error::DbError;
use simpledb::file_mgr::FileMgr;
use simpledb::lock_table::LockTable;
use simpledb::log_mgr::LogMgr;
use simpledb::log_record::{create_log_record, LogRecord};
use simpledb::recovery::recovery_plan;
use simpledb::transaction::{recover, undo_all, Transaction, TxNumbers};

fn pool(blocks: usize, slots: usize) -> BufferMgr {
    let mut fm = FileMgr::new(400);
    for _ in 0..blocks {
        fm.append("testfile").unwrap();
    }
    BufferMgr::new(fm, LogMgr::new(), slots)
}

#[test]
fn test_buffer_list() {
    let mut buffer_mgr = pool(3, 3);
    let mut buffer_list = BufferList::new();

    let block1 = BlockId::new("testfile".to_string(), 1);
    buffer_list.pin(&mut buffer_mgr, &block1).unwrap();
    assert!(buffer_list.get_buffer(&block1).is_some());

    let block2 = BlockId::new("testfile".to_string(), 2);
    buffer_list.pin(&mut buffer_mgr, &block2).unwrap();
    assert!(buffer_list.get_buffer(&block2).is_some());

    buffer_list.unpin(&mut buffer_mgr, &block1);
    assert!(buffer_list.get_buffer(&block1).is_none());
    assert!(buffer_list.get_buffer(&block2).is_some());

    buffer_list.unpin_all(&mut buffer_mgr);
    assert!(buffer_list.get_buffer(&block2).is_none());
}

#[test]
fn test_pin_already_pinned_block() {
    let mut buffer_mgr = pool(1, 3);
    let mut buffer_list = BufferList::new();

    let block = BlockId::new("testfile".to_string(), 0);
    buffer_list.pin(&mut buffer_mgr, &block).unwrap();
    let first = buffer_list.get_buffer(&block).unwrap();
    buffer_list.pin(&mut buffer_mgr, &block).unwrap();
    let second = buffer_list.get_buffer(&block).unwrap();
    assert_eq!(first, second);
}

#[test]
fn buffer_list_counts_pins() {
    let mut bm = pool(1, 2);
    let mut list = BufferList::new();
    let blk = BlockId::new("testfile".to_string(), 0);
    for _ in 0..3 {
        list.pin(&mut bm, &blk).unwrap();
    }
    let slot = list.get_buffer(&blk).unwrap();
    assert_eq!(bm.buffer(slot).pins, 1);
    list.unpin(&mut bm, &blk);
    list.unpin(&mut bm, &blk);
    assert_eq!(bm.buffer(slot).pins, 1);
    assert!(list.get_buffer(&blk).is_some());
    list.unpin(&mut bm, &blk);
    assert_eq!(bm.buffer(slot).pins, 0);
    assert!(list.get_buffer(&blk).is_none());

    for _ in 0..5 {
        list.pin(&mut bm, &blk).unwrap();
    }
    list.unpin_all(&mut bm);
    assert_eq!(bm.available(), 2);
}

#[test]
fn pool_of_one_waits_for_unpin() {
    let mut bm = pool(2, 1);
    let a = BlockId::new("testfile".to_string(), 0);
    let b = BlockId::new("testfile".to_string(), 1);
    let i = bm.pin(&a).unwrap();
    assert_eq!(bm.available(), 0);
    assert!(matches!(bm.pin(&b), Err(DbError::BufferAbort(_))));
    bm.unpin(i);
    let j = bm.pin(&b).unwrap();
    assert_eq!(j, 0);
    assert_eq!(bm.buffer(j).pins, 1);
}

#[test]
fn pinning_a_missing_block_is_an_io_error() {
    let mut bm = pool(1, 2);
    assert!(matches!(bm.pin(&BlockId::new("testfile".to_string(), 5)), Err(DbError::Io(_))));
    assert!(matches!(bm.pin(&BlockId::new("nofile".to_string(), 0)), Err(DbError::Io(_))));
}

#[test]
fn replaced_buffer_is_written_back() {
    let mut bm = pool(2, 1);
    let a = BlockId::new("testfile".to_string(), 0);
    let b = BlockId::new("testfile".to_string(), 1);
    let i = bm.pin(&a).unwrap();
    bm.set_int(i, 8, 77, 1, 0);
    bm.unpin(i);
    let j = bm.pin(&b).unwrap();
    assert_eq!(bm.get_int(j, 8), 0);
    bm.unpin(j);
    let k = bm.pin(&a).unwrap();
    assert_eq!(bm.get_int(k, 8), 77);
}

fn engine() -> (BufferMgr, LockTable) {
    (pool(2, 3), LockTable::new())
}

#[test]
fn uncommitted_write_is_undone_by_recovery() {
    let (mut bm, mut lt) = engine();
    let blk = BlockId::new("testfile".to_string(), 0);
    let mut t1 = Transaction::new(&mut bm, 1).unwrap();
    t1.pin(&mut bm, &lt, &blk).unwrap();
    t1.set_int(&mut bm, &mut lt, &blk, 4, 42).unwrap();
    t1.commit(&mut bm, &mut lt).unwrap();

    let mut t2 = Transaction::new(&mut bm, 2).unwrap();
    t2.pin(&mut bm, &lt, &blk).unwrap();
    t2.set_int(&mut bm, &mut lt, &blk, 4, 99).unwrap();
    assert_eq!(t2.get_int(&bm, &mut lt, &blk, 4).unwrap(), 99);
    bm.flush_all(2);

    // restart: the pool is lost, the store and the durable log stay
    let fm = bm.fm;
    let mut lm = bm.lm;
    lm.crash();
    let mut bm = BufferMgr::new(fm, lm, 3);
    recover(&mut bm, 3).unwrap();

    let mut lt = LockTable::new();
    let mut t4 = Transaction::new(&mut bm, 4).unwrap();
    t4.pin(&mut bm, &lt, &blk).unwrap();
    assert_eq!(t4.get_int(&bm, &mut lt, &blk, 4).unwrap(), 42);
}

#[test]
fn committed_write_survives_recovery() {
    let (mut bm, mut lt) = engine();
    let blk = BlockId::new("testfile".to_string(), 1);
    let mut t1 = Transaction::new(&mut bm, 1).unwrap();
    t1.pin(&mut bm, &lt, &blk).unwrap();
    t1.set_int(&mut bm, &mut lt, &blk, 12, 5).unwrap();
    t1.set_string(&mut bm, &mut lt, &blk, 20, "kept").unwrap();
    t1.commit(&mut bm, &mut lt).unwrap();
    recover(&mut bm, 2).unwrap();
    let mut t3 = Transaction::new(&mut bm, 3).unwrap();
    t3.pin(&mut bm, &lt, &blk).unwrap();
    assert_eq!(t3.get_int(&bm, &mut lt, &blk, 12).unwrap(), 5);
    assert_eq!(t3.get_string(&bm, &mut lt, &blk, 20).unwrap(), "kept");
}

#[test]
fn uncommitted_string_is_restored() {
    let (mut bm, mut lt) = engine();
    let blk = BlockId::new("testfile".to_string(), 0);
    let mut t1 = Transaction::new(&mut bm, 1).unwrap();
    t1.pin(&mut bm, &lt, &blk).unwrap();
    t1.set_string(&mut bm, &mut lt, &blk, 40, "before").unwrap();
    t1.commit(&mut bm, &mut lt).unwrap();
    let mut t2 = Transaction::new(&mut bm, 2).unwrap();
    t2.pin(&mut bm, &lt, &blk).unwrap();
    t2.set_string(&mut bm, &mut lt, &blk, 40, "after").unwrap();
    recover(&mut bm, 3).unwrap();
    let slot = t2.buffers.get_buffer(&blk).unwrap();
    assert_eq!(bm.get_string(slot, 40), Some("before".to_string()));
}

#[test]
fn rollback_restores_values() {
    let (mut bm, mut lt) = engine();
    let blk = BlockId::new("testfile".to_string(), 0);
    let mut t1 = Transaction::new(&mut bm, 1).unwrap();
    t1.pin(&mut bm, &lt, &blk).unwrap();
    t1.set_int(&mut bm, &mut lt, &blk, 0, 10).unwrap();
    t1.set_int(&mut bm, &mut lt, &blk, 0, 20).unwrap();
    t1.rollback(&mut bm, &mut lt).unwrap();
    let mut t2 = Transaction::new(&mut bm, 2).unwrap();
    t2.pin(&mut bm, &lt, &blk).unwrap();
    assert_eq!(t2.get_int(&bm, &mut lt, &blk, 0).unwrap(), 0);
    assert!(matches!(t1.get_int(&bm, &mut lt, &blk, 0), Err(DbError::TransactionAbort(_))));
}

#[test]
fn exclusive_locks_exclude_each_other() {
    let mut lt = LockTable::new();
    let blk = BlockId::new("f".to_string(), 0);
    assert!(lt.xlock(1, &blk));
    assert!(!lt.xlock(2, &blk));
    assert!(!lt.slock(2, &blk));
    lt.release_all(1);
    assert!(lt.xlock(2, &blk));
}

#[test]
fn shared_locks_are_shared_and_upgrade_when_alone() {
    let mut lt = LockTable::new();
    let blk = BlockId::new("f".to_string(), 0);
    assert!(lt.slock(1, &blk));
    assert!(lt.slock(2, &blk));
    assert!(!lt.xlock(1, &blk));
    lt.release_all(2);
    assert!(lt.xlock(1, &blk));
}

#[test]
fn conflicting_write_is_a_deadlock_error() {
    let (mut bm, mut lt) = engine();
    let blk = BlockId::new("testfile".to_string(), 0);
    let mut t1 = Transaction::new(&mut bm, 1).unwrap();
    let mut t2 = Transaction::new(&mut bm, 2).unwrap();
    t1.pin(&mut bm, &lt, &blk).unwrap();
    t2.pin(&mut bm, &lt, &blk).unwrap();
    t1.set_int(&mut bm, &mut lt, &blk, 0, 1).unwrap();
    assert!(matches!(t2.set_int(&mut bm, &mut lt, &blk, 0, 2), Err(DbError::Deadlock)));
    assert!(matches!(t2.get_int(&bm, &mut lt, &blk, 0), Err(DbError::Deadlock)));
    t1.commit(&mut bm, &mut lt).unwrap();
    assert_eq!(t2.get_int(&bm, &mut lt, &blk, 0).unwrap(), 1);
}

#[test]
fn bad_offset_is_a_bad_index_error() {
    let (mut bm, mut lt) = engine();
    let blk = BlockId::new("testfile".to_string(), 0);
    let mut t1 = Transaction::new(&mut bm, 1).unwrap();
    t1.pin(&mut bm, &lt, &blk).unwrap();
    assert!(matches!(t1.set_int(&mut bm, &mut lt, &blk, 398, 1), Err(DbError::BadIndex(_))));
}

#[test]
fn append_and_size() {
    let (mut bm, mut lt) = engine();
    let mut t1 = Transaction::new(&mut bm, 1).unwrap();
    assert_eq!(t1.size(&bm, &mut lt, "testfile").unwrap(), 2);
    let b = t1.append_block(&mut bm, &mut lt, "testfile").unwrap();
    assert_eq!(b.number(), 2);
    assert_eq!(t1.size(&bm, &mut lt, "testfile").unwrap(), 3);
    assert_eq!(t1.block_size(&bm), 400);
    assert_eq!(t1.available_buffers(&bm), 3);
}

#[test]
fn recovery_stops_at_checkpoint_and_skips_finished() {
    let blk = BlockId::new("f".to_string(), 0);
    let w = |tx: i32| LogRecord::SetInt { tx_num: tx, blk: blk.clone(), offset: 0, val: 0 };
    // newest first
    let recs = vec![
        w(3),
        LogRecord::Commit { tx_num: 2 },
        w(2),
        w(1),
        LogRecord::Checkpoint,
        w(4),
    ];
    assert_eq!(recovery_plan(&recs), vec![0usize, 3]);
}

#[test]
fn log_is_newest_first_and_recovery_checkpoints() {
    let (mut bm, _lt) = engine();
    Transaction::new(&mut bm, 1).unwrap();
    recover(&mut bm, 2).unwrap();
    let recs = bm.lm.newest_first();
    assert!(matches!(create_log_record(&recs[0]).unwrap(), LogRecord::Checkpoint));
    assert!(matches!(create_log_record(&recs[1]).unwrap(), LogRecord::Start { tx_num: 1 }));
}

#[test]
fn transaction_numbers_increase() {
    let mut n = TxNumbers::new();
    let a = n.next_tx_num().unwrap();
    let b = n.next_tx_num().unwrap();
    assert!(a < b);
    n.next = i32::MAX;
    assert_eq!(n.next_tx_num(), None);
}

#[test]
fn undo_all_puts_back_the_oldest_saved_value() {
    let mut bm = pool(1, 2);
    let blk = BlockId::new("testfile".to_string(), 0);
    let recs = vec![
        LogRecord::SetInt { tx_num: 5, blk: blk.clone(), offset: 8, val: 2 },
        LogRecord::SetInt { tx_num: 5, blk: blk.clone(), offset: 8, val: 1 },
        LogRecord::SetInt { tx_num: 6, blk: blk.clone(), offset: 12, val: 3 },
        LogRecord::Start { tx_num: 5 },
    ];
    undo_all(&mut bm, &recs, 9).unwrap();
    let i = bm.pin(&blk).unwrap();
    assert_eq!(bm.get_int(i, 8), 1);
    assert_eq!(bm.get_int(i, 12), 3);
}

#[test]
fn undo_of_a_missing_block_fails() {
    let mut bm = pool(1, 2);
    let recs = vec![LogRecord::SetInt {
        tx_num: 5,
        blk: BlockId::new("other".to_string(), 0),
        offset: 0,
        val: 2,
    }];
    assert!(matches!(undo_all(&mut bm, &recs, 9), Err(DbError::Io(_))));
}

#[test]
fn repeated_lock_requests_are_idempotent() {
    let mut lt = LockTable::new();
    let blk = BlockId::new("f".to_string(), 0);
    assert!(lt.slock(1, &blk));
    assert!(lt.slock(1, &blk));
    assert_eq!(lt.grants.len(), 1);
    assert!(lt.xlock(1, &blk));
    assert!(lt.xlock(1, &blk));
    assert!(lt.slock(1, &blk));
    assert_eq!(lt.grants.len(), 2);
}

#[test]
fn string_write_over_bytes_holding_no_string_is_refused() {
    let (mut bm, mut lt) = engine();
    let blk = BlockId::new("testfile".to_string(), 0);
    let mut t1 = Transaction::new(&mut bm, 1).unwrap();
    t1.pin(&mut bm, &lt, &blk).unwrap();
    t1.set_int(&mut bm, &mut lt, &blk, 40, 1000).unwrap();
    assert!(matches!(t1.set_string(&mut bm, &mut lt, &blk, 40, "x"), Err(DbError::BadIndex(_))));
    assert_eq!(t1.get_int(&bm, &mut lt, &blk, 40).unwrap(), 1000);
}

#[test]
fn undo_of_a_commit_record_changes_nothing() {
    let mut bm = pool(1, 1);
    let recs = vec![LogRecord::Commit { tx_num: 1 }, LogRecord::Start { tx_num: 1 }];
    undo_all(&mut bm, &recs, 2).unwrap();
    assert_eq!(bm.available(), 1);
}
