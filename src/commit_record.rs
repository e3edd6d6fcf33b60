//! The record that marks a transaction as committed.
use crate::codec::{after, i32_of};
use crate::error::DbResult;
use crate::log_record::{encode, LogRecord, RecordModel, COMMIT_FLAG};
use crate::page::Page;
use vstd::prelude::*;

verus! {

/// A commit record: the transaction finished and nothing of it is undone.
pub struct CommitRecord {
    pub tx_num: i32,
}

impl CommitRecord {
    /// Reads the record from a page that holds its tag at 0 and the transaction at 4.
    pub fn new(page: &Page) -> (r: CommitRecord)
        requires
            page@.len() >= 8,
        ensures
            r.tx_num == i32_of(after(page@, 4)),
    {
        CommitRecord { tx_num: page.get_int(4) }
    }

    pub fn create(tx_num: i32) -> (r: CommitRecord)
        ensures
            r.tx_num == tx_num,
    {
        CommitRecord { tx_num }
    }

    /// The record's wire form: the commit tag, then the transaction number.
    pub fn to_bytes(&self) -> (r: DbResult<Vec<u8>>)
        ensures
            r is Ok,
            r matches Ok(b) ==> b@ == encode(RecordModel::Commit(self.tx_num)),
    {
        LogRecord::Commit { tx_num: self.tx_num }.to_bytes()
    }

    pub fn op(&self) -> (r: i32)
        ensures
            r == COMMIT_FLAG,
    {
        COMMIT_FLAG
    }

    pub fn tx_number(&self) -> (r: i32)
        ensures
            r == self.tx_num,
    {
        self.tx_num
    }
}

} // verus!
