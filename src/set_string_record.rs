//! The record that saves the string a transaction overwrote.
use crate::block_id::BlockId;
use crate::codec::{after, i32_of};
use crate::error::{DbError, DbResult};
use crate::log_record::{encode, LogRecord, RecordModel, SETSTRING_FLAG};
use crate::page::{string_at, string_at_ok, Page};
use vstd::prelude::*;
use vstd::utf8::*;

verus! {

/// The byte length of the file name that a page layout of the record holds at 8.
pub open spec fn name_len(b: Seq<u8>) -> int {
    i32_of(after(b, 8)) as int
}

/// Whether `b` holds the page layout of a string record: the transaction at
/// 4, the file name at 8, then the block number, the offset and the value,
/// each after the span that the file name reserves.
pub open spec fn page_record_ok(b: Seq<u8>) -> bool {
    &&& string_at_ok(b, 8)
    &&& 20 + name_len(b) <= b.len()
    &&& string_at_ok(b, 16 + 4 + name_len(b))
}

/// A string write: `val` is the string that the write overwrote at
/// `offset` of `blk`.
pub struct SetStringRecord {
    pub tx_num: i32,
    pub offset: i32,
    pub val: String,
    pub blk: BlockId,
}

impl SetStringRecord {
    /// Reads the record from its page layout; a serialization error when
    /// the page holds no such layout.
    pub fn new(page: &Page) -> (r: DbResult<SetStringRecord>)
        ensures
            r is Ok <==> page_record_ok(page@),
            r matches Ok(rec) ==> {
                let ml = 4 + name_len(page@);
                &&& rec.tx_num == i32_of(after(page@, 4))
                &&& rec.blk.filename@ == string_at(page@, 8)
                &&& rec.blk.number == i32_of(after(page@, 8 + ml))
                &&& rec.offset == i32_of(after(page@, 12 + ml))
                &&& rec.val@ == string_at(page@, 16 + ml)
            },
            r matches Err(e) ==> e is Serialization,
    {
        let filename = match page.get_string(8) {
            Some(s) => s,
            None => {
                return Err(DbError::Serialization(String::from_str("no file name in record")));
            },
        };
        let len = page.len();
        let flen = filename.as_str().as_bytes().len();
        proof {
            decode_utf8_encode_utf8(page@.subrange(12, 12 + name_len(page@)));
        }
        assert(flen == name_len(page@));
        if len < 20 || flen > len - 20 {
            return Err(DbError::Serialization(String::from_str("record exceeds the page")));
        }
        let ml = Page::max_length(flen);
        let tx_num = page.get_int(4);
        let block_num = page.get_int(8 + ml);
        let offset = page.get_int(12 + ml);
        let val = match page.get_string(16 + ml) {
            Some(s) => s,
            None => {
                return Err(DbError::Serialization(String::from_str("no value in record")));
            },
        };
        Ok(SetStringRecord { tx_num, offset, val, blk: BlockId::new(filename, block_num) })
    }

    pub fn create(tx_num: i32, blk: BlockId, offset: i32, val: String) -> (r: SetStringRecord)
        ensures
            r.tx_num == tx_num,
            r.blk@ == blk@,
            r.offset == offset,
            r.val@ == val@,
    {
        SetStringRecord { tx_num, offset, val, blk }
    }

    /// What the record says.
    pub open spec fn model(&self) -> RecordModel {
        RecordModel::SetString { tx: self.tx_num, blk: self.blk@, offset: self.offset, val: self.val@ }
    }

    /// The record's wire form: the tag, then the fields in declaration order.
    pub fn to_bytes(&self) -> (r: DbResult<Vec<u8>>)
        ensures
            r is Ok,
            r matches Ok(b) ==> b@ == encode(self.model()),
    {
        LogRecord::SetString {
            tx_num: self.tx_num,
            blk: self.blk.duplicate(),
            offset: self.offset,
            val: self.val.clone(),
        }.to_bytes()
    }

    pub fn op(&self) -> (r: i32)
        ensures
            r == SETSTRING_FLAG,
    {
        SETSTRING_FLAG
    }

    pub fn tx_number(&self) -> (r: i32)
        ensures
            r == self.tx_num,
    {
        self.tx_num
    }
}

} // verus!
