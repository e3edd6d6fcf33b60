//! The log's record kinds, their wire encoding and its decoding.
//!
//! A record is one tag byte followed by its fields in bincode's default
//! layout: the transaction number, then for the two update kinds the
//! offset, the value to restore, and the block (file name, then number).
use crate::block_id::{BlockId, BlockModel};
use crate::codec::{after, get_i32, lemma_i32_round, lemma_str_round, get_str, i32_bytes, i32_of, len_of, put_i32, put_str, str_bytes, str_of, str_ok, str_span};
use crate::error::DbError;
use vstd::bytes::*;
use vstd::prelude::*;
use vstd::utf8::*;

verus! {

pub const CHECKPOINT_FLAG: i32 = 0;
pub const START_FLAG: i32 = 1;
pub const COMMIT_FLAG: i32 = 2;
pub const ROLLBACK_FLAG: i32 = 3;
pub const SETINT_FLAG: i32 = 4;
pub const SETSTRING_FLAG: i32 = 5;

/// One entry of the write-ahead log.
#[derive(Debug)]
#[allow(inconsistent_fields)]
pub enum LogRecord {
    Checkpoint,
    Start { tx_num: i32 },
    Commit { tx_num: i32 },
    Rollback { tx_num: i32 },
    /// An integer write; `val` is the value it overwrote.
    SetInt { tx_num: i32, blk: BlockId, offset: i32, val: i32 },
    /// A string write; `val` is the value it overwrote.
    SetString { tx_num: i32, blk: BlockId, offset: i32, val: String },
}

/// What a log record says, over plain values.
#[allow(inconsistent_fields)]
pub enum RecordModel {
    Checkpoint,
    Start(i32),
    Commit(i32),
    Rollback(i32),
    SetInt { tx: i32, blk: BlockModel, offset: i32, val: i32 },
    SetString { tx: i32, blk: BlockModel, offset: i32, val: Seq<char> },
}

impl View for LogRecord {
    type V = RecordModel;

    open spec fn view(&self) -> RecordModel {
        match self {
            LogRecord::Checkpoint => RecordModel::Checkpoint,
            LogRecord::Start { tx_num } => RecordModel::Start(*tx_num),
            LogRecord::Commit { tx_num } => RecordModel::Commit(*tx_num),
            LogRecord::Rollback { tx_num } => RecordModel::Rollback(*tx_num),
            LogRecord::SetInt { tx_num, blk, offset, val } => RecordModel::SetInt {
                tx: *tx_num,
                blk: blk@,
                offset: *offset,
                val: *val,
            },
            LogRecord::SetString { tx_num, blk, offset, val } => RecordModel::SetString {
                tx: *tx_num,
                blk: blk@,
                offset: *offset,
                val: val@,
            },
        }
    }
}

impl RecordModel {
    /// The tag that identifies the kind.
    pub open spec fn op(self) -> i32 {
        match self {
            RecordModel::Checkpoint => CHECKPOINT_FLAG,
            RecordModel::Start(_) => START_FLAG,
            RecordModel::Commit(_) => COMMIT_FLAG,
            RecordModel::Rollback(_) => ROLLBACK_FLAG,
            RecordModel::SetInt { .. } => SETINT_FLAG,
            RecordModel::SetString { .. } => SETSTRING_FLAG,
        }
    }

    /// The transaction the record belongs to; a checkpoint belongs to none (-1).
    pub open spec fn tx_number(self) -> i32 {
        match self {
            RecordModel::Checkpoint => -1i32,
            RecordModel::Start(t) => t,
            RecordModel::Commit(t) => t,
            RecordModel::Rollback(t) => t,
            RecordModel::SetInt { tx, .. } => tx,
            RecordModel::SetString { tx, .. } => tx,
        }
    }

    /// Whether every string of the record has a byte length that fits a `u64`.
    pub open spec fn encodable(self) -> bool {
        match self {
            RecordModel::SetInt { blk, .. } => encode_utf8(blk.filename).len() <= u64::MAX,
            RecordModel::SetString { blk, val, .. } => {
                &&& encode_utf8(blk.filename).len() <= u64::MAX
                &&& encode_utf8(val).len() <= u64::MAX
            },
            _ => true,
        }
    }
}

/// The block part of an encoding: the file name, then the number.
pub open spec fn block_bytes(b: BlockModel) -> Seq<u8> {
    str_bytes(b.filename) + i32_bytes(b.number)
}

/// The bytes that encode `m`.
pub open spec fn encode(m: RecordModel) -> Seq<u8> {
    seq![m.op() as u8] + match m {
        RecordModel::Checkpoint => Seq::empty(),
        RecordModel::SetInt { tx, blk, offset, val } => i32_bytes(tx) + (i32_bytes(offset) + (
        i32_bytes(val) + block_bytes(blk))),
        RecordModel::SetString { tx, blk, offset, val } => i32_bytes(tx) + (i32_bytes(offset) + (
        str_bytes(val) + block_bytes(blk))),
        _ => i32_bytes(m.tx_number()),
    }
}

/// The block encoded at the start of `b`.
pub open spec fn decode_block(b: Seq<u8>) -> Option<BlockModel> {
    if str_ok(b) && after(b, str_span(b)).len() >= 4 {
        Some(BlockModel { filename: str_of(b), number: i32_of(after(b, str_span(b))) })
    } else {
        None
    }
}

/// The record that `b` encodes; `None` when `b` is short, malformed, or
/// starts with an unknown tag. Bytes after a complete record are ignored.
pub open spec fn decode(b: Seq<u8>) -> Option<RecordModel> {
    if b.len() == 0 {
        None
    } else {
        let t = b[0] as i32;
        let p = after(b, 1);
        if t == CHECKPOINT_FLAG {
            Some(RecordModel::Checkpoint)
        } else if t == START_FLAG || t == COMMIT_FLAG || t == ROLLBACK_FLAG {
            if p.len() < 4 {
                None
            } else if t == START_FLAG {
                Some(RecordModel::Start(i32_of(p)))
            } else if t == COMMIT_FLAG {
                Some(RecordModel::Commit(i32_of(p)))
            } else {
                Some(RecordModel::Rollback(i32_of(p)))
            }
        } else if t == SETINT_FLAG {
            if p.len() < 12 {
                None
            } else {
                match decode_block(after(p, 12)) {
                    Some(blk) => Some(
                        RecordModel::SetInt {
                            tx: i32_of(p),
                            blk,
                            offset: i32_of(after(p, 4)),
                            val: i32_of(after(p, 8)),
                        },
                    ),
                    None => None,
                }
            }
        } else if t == SETSTRING_FLAG {
            if p.len() < 8 || !str_ok(after(p, 8)) {
                None
            } else {
                match decode_block(after(p, 8 + str_span(after(p, 8)))) {
                    Some(blk) => Some(
                        RecordModel::SetString {
                            tx: i32_of(p),
                            blk,
                            offset: i32_of(after(p, 4)),
                            val: str_of(after(p, 8)),
                        },
                    ),
                    None => None,
                }
            }
        } else {
            None
        }
    }
}

/// An encoded block reads back as itself.
proof fn lemma_block_round(b: BlockModel)
    requires
        encode_utf8(b.filename).len() <= u64::MAX,
    ensures
        decode_block(block_bytes(b)) == Some(b),
{
    let d = i32_bytes(b.number);
    lemma_str_round(b.filename, d);
    lemma_i32_round(b.number, Seq::empty());
    assert(d + Seq::<u8>::empty() =~= d);
}

/// Decoding the encoding of a record gives that record back, for every kind.
pub proof fn lemma_round_trip(m: RecordModel)
    requires
        m.encodable(),
    ensures
        decode(encode(m)) == Some(m),
{
    let b = encode(m);
    let p = after(b, 1);
    match m {
        RecordModel::Checkpoint => {},
        RecordModel::SetInt { tx, blk, offset, val } => {
            let r3 = block_bytes(blk);
            let r2 = i32_bytes(val) + r3;
            let r1 = i32_bytes(offset) + r2;
            assert(p =~= i32_bytes(tx) + r1);
            lemma_i32_round(tx, r1);
            lemma_i32_round(offset, r2);
            lemma_i32_round(val, r3);
            assert(after(p, 4) =~= r1);
            assert(after(p, 8) =~= r2);
            assert(after(p, 12) =~= r3);
            lemma_block_round(blk);
        },
        RecordModel::SetString { tx, blk, offset, val } => {
            let r3 = block_bytes(blk);
            let r2 = str_bytes(val) + r3;
            let r1 = i32_bytes(offset) + r2;
            assert(p =~= i32_bytes(tx) + r1);
            lemma_i32_round(tx, r1);
            lemma_i32_round(offset, r2);
            lemma_str_round(val, r3);
            assert(after(p, 4) =~= r1);
            assert(after(p, 8) =~= r2);
            assert(after(p, 8 + str_span(r2)) =~= r3);
            lemma_block_round(blk);
        },
        _ => {
            assert(p =~= i32_bytes(m.tx_number()) + Seq::empty());
            lemma_i32_round(m.tx_number(), Seq::empty());
        },
    }
}

/// Appends the encoding of a block address to `out`.
fn put_block(out: &mut Vec<u8>, blk: &BlockId)
    ensures
        final(out)@ == old(out)@ + block_bytes(blk@),
{
    put_str(out, blk.filename.as_str());
    put_i32(out, blk.number);
    assert(final(out)@ =~= old(out)@ + block_bytes(blk@));
}

/// Reads a block address at `pos`.
fn read_block(b: &[u8], pos: usize) -> (r: Result<BlockId, DbError>)
    requires
        pos <= b@.len(),
    ensures
        r is Ok <==> decode_block(after(b@, pos as int)) is Some,
        r matches Ok(blk) ==> decode_block(after(b@, pos as int)) == Some(blk@),
        r matches Err(e) ==> e is Serialization,
{
    let len = b.len();
    match get_str(b, pos) {
        Ok((filename, n)) => {
            assert(pos + n <= len);
            assert(after(after(b@, pos as int), n as int) =~= after(b@, pos + n));
            match get_i32(b, pos + n) {
                Some(number) => Ok(BlockId::new(filename, number)),
                None => Err(DbError::Serialization(String::from_str("truncated block number"))),
            }
        },
        Err(msg) => Err(DbError::Serialization(msg)),
    }
}

impl LogRecord {
    /// The tag that identifies the record's kind.
    pub fn op(&self) -> (r: i32)
        ensures
            r == self@.op(),
    {
        match self {
            LogRecord::Checkpoint => CHECKPOINT_FLAG,
            LogRecord::Start { .. } => START_FLAG,
            LogRecord::Commit { .. } => COMMIT_FLAG,
            LogRecord::Rollback { .. } => ROLLBACK_FLAG,
            LogRecord::SetInt { .. } => SETINT_FLAG,
            LogRecord::SetString { .. } => SETSTRING_FLAG,
        }
    }

    /// The transaction the record belongs to; -1 for a checkpoint.
    pub fn tx_number(&self) -> (r: i32)
        ensures
            r == self@.tx_number(),
    {
        match self {
            LogRecord::Checkpoint => -1,
            LogRecord::Start { tx_num } => *tx_num,
            LogRecord::Commit { tx_num } => *tx_num,
            LogRecord::Rollback { tx_num } => *tx_num,
            LogRecord::SetInt { tx_num, .. } => *tx_num,
            LogRecord::SetString { tx_num, .. } => *tx_num,
        }
    }

    /// The record's wire form: its tag byte, then its fields.
    pub fn to_bytes(&self) -> (r: Result<Vec<u8>, DbError>)
        ensures
            r is Ok,
            r matches Ok(b) ==> b@ == encode(self@),
    {
        let mut out: Vec<u8> = Vec::new();
        out.push(self.op() as u8);
        match self {
            LogRecord::Checkpoint => {},
            LogRecord::SetInt { tx_num, blk, offset, val } => {
                put_i32(&mut out, *tx_num);
                put_i32(&mut out, *offset);
                put_i32(&mut out, *val);
                put_block(&mut out, blk);
            },
            LogRecord::SetString { tx_num, blk, offset, val } => {
                put_i32(&mut out, *tx_num);
                put_i32(&mut out, *offset);
                put_str(&mut out, val.as_str());
                put_block(&mut out, blk);
            },
            _ => put_i32(&mut out, self.tx_number()),
        }
        assert(out@ =~= encode(self@));
        Ok(out)
    }
}

/// Decodes one record from its wire form, dispatching on the tag byte.
/// Fails with a serialization error exactly when the bytes encode no record.
pub fn create_log_record(bytes: &[u8]) -> (r: Result<LogRecord, DbError>)
    ensures
        r is Ok <==> decode(bytes@) is Some,
        r matches Ok(rec) ==> decode(bytes@) == Some(rec@),
        r matches Err(e) ==> e is Serialization,
{
    let len = bytes.len();
    if len == 0 {
        return Err(DbError::Serialization(String::from_str("empty log record")));
    }
    let tag = bytes[0] as i32;
    let ghost p = after(bytes@, 1);
    if tag == CHECKPOINT_FLAG {
        return Ok(LogRecord::Checkpoint);
    }
    if tag != START_FLAG && tag != COMMIT_FLAG && tag != ROLLBACK_FLAG && tag != SETINT_FLAG
        && tag != SETSTRING_FLAG {
        return Err(DbError::Serialization(String::from_str("unknown log record tag")));
    }
    let tx_num = match get_i32(bytes, 1) {
        Some(v) => v,
        None => {
            return Err(DbError::Serialization(String::from_str("truncated log record")));
        },
    };
    if tag == START_FLAG {
        return Ok(LogRecord::Start { tx_num });
    } else if tag == COMMIT_FLAG {
        return Ok(LogRecord::Commit { tx_num });
    } else if tag == ROLLBACK_FLAG {
        return Ok(LogRecord::Rollback { tx_num });
    }
    assert(after(p, 4) =~= after(bytes@, 5));
    let offset = match get_i32(bytes, 5) {
        Some(v) => v,
        None => {
            return Err(DbError::Serialization(String::from_str("truncated log record")));
        },
    };
    assert(after(p, 8) =~= after(bytes@, 9));
    if tag == SETINT_FLAG {
        let val = match get_i32(bytes, 9) {
            Some(v) => v,
            None => {
                return Err(DbError::Serialization(String::from_str("truncated log record")));
            },
        };
        assert(after(p, 12) =~= after(bytes@, 13));
        let blk = read_block(bytes, 13)?;
        Ok(LogRecord::SetInt { tx_num, blk, offset, val })
    } else {
        if len < 9 {
            return Err(DbError::Serialization(String::from_str("truncated log record")));
        }
        let (val, n) = match get_str(bytes, 9) {
            Ok(x) => x,
            Err(msg) => {
                return Err(DbError::Serialization(msg));
            },
        };
        assert(after(p, 8 + n) =~= after(bytes@, 9 + n));
        let blk = read_block(bytes, 9 + n)?;
        Ok(LogRecord::SetString { tx_num, blk, offset, val })
    }
}

} // verus!
