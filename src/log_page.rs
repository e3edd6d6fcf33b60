//! The layout of a log block: the integer at 0 is the boundary, the start
//! of the newest record; records are placed from the high end of the block
//! downwards, each as its length followed by its bytes. Reading from the
//! boundary upwards gives the records newest first.
use crate::codec::{after, i32_bytes, i32_of, lemma_i32_round};
use crate::page::{overwrite, Page};
use vstd::bytes::*;
use vstd::prelude::*;

verus! {

/// The boundary recorded in a log block.
pub open spec fn boundary(b: Seq<u8>) -> int {
    i32_of(b) as int
}

/// The records stored in `b` from position `p` to the end, newest first;
/// `None` when the bytes there do not parse as records.
pub open spec fn records_from(b: Seq<u8>, p: int) -> Option<Seq<Seq<u8>>>
    decreases b.len() - p,
{
    if p < 4 || p > b.len() {
        None
    } else if p == b.len() {
        Some(Seq::empty())
    } else if p + 4 > b.len() {
        None
    } else {
        let n = i32_of(after(b, p)) as int;
        if n < 0 || p + 4 + n > b.len() {
            None
        } else {
            match records_from(b, p + 4 + n) {
                Some(rest) => Some(seq![b.subrange(p + 4, p + 4 + n)] + rest),
                None => None,
            }
        }
    }
}

/// The records of a log block, newest first.
pub open spec fn log_records(b: Seq<u8>) -> Option<Seq<Seq<u8>>> {
    if b.len() < 4 {
        None
    } else {
        records_from(b, boundary(b))
    }
}

/// Whether a record of `n` bytes still fits in the log block `b`.
pub open spec fn fits(b: Seq<u8>, n: int) -> bool {
    &&& b.len() >= 4
    &&& 4 <= boundary(b) <= b.len()
    &&& boundary(b) - 4 - n >= 4
}

/// `b` with a record added in front of the others and the boundary moved to it.
pub open spec fn with_record(b: Seq<u8>, rec: Seq<u8>) -> Seq<u8> {
    let nb = boundary(b) - 4 - rec.len();
    overwrite(overwrite(b, nb, i32_bytes(rec.len() as i32) + rec), 0, i32_bytes(nb as i32))
}

/// What is read from `p` on depends only on the bytes from `p` on.
proof fn lemma_records_local(b1: Seq<u8>, b2: Seq<u8>, p: int)
    requires
        b1.len() == b2.len(),
        p >= 4,
        forall|i: int| p <= i < b1.len() ==> b1[i] == b2[i],
    ensures
        records_from(b1, p) == records_from(b2, p),
    decreases b1.len() - p,
{
    if p < b1.len() && p + 4 <= b1.len() {
        assert(after(b1, p).subrange(0, 4) =~= after(b2, p).subrange(0, 4));
        let n = i32_of(after(b1, p)) as int;
        if n >= 0 && p + 4 + n <= b1.len() {
            lemma_records_local(b1, b2, p + 4 + n);
            assert(b1.subrange(p + 4, p + 4 + n) =~= b2.subrange(p + 4, p + 4 + n));
        }
    }
}

/// Adding a record to a log block puts it first among the records read
/// back, in front of those that were there.
pub proof fn lemma_append_then_read(b: Seq<u8>, rec: Seq<u8>)
    requires
        fits(b, rec.len() as int),
        b.len() <= i32::MAX,
        log_records(b) is Some,
    ensures
        log_records(with_record(b, rec)) == Some(seq![rec] + log_records(b)->0),
{
    let ob = boundary(b);
    let n = rec.len() as int;
    let nb = ob - 4 - n;
    let w = i32_bytes(n as i32) + rec;
    lemma_auto_spec_u32_to_from_le_bytes();
    let b1 = overwrite(b, nb, w);
    let b2 = with_record(b, rec);
    assert(w.len() == 4 + n);
    assert(b1.len() == b.len());
    assert(b2.len() == b.len());
    lemma_i32_round(nb as i32, Seq::empty());
    assert(b2.subrange(0, 4) =~= i32_bytes(nb as i32));
    assert(i32_bytes(nb as i32) + Seq::<u8>::empty() =~= i32_bytes(nb as i32));
    assert(boundary(b2) == nb);
    assert forall|i: int| ob <= i < b.len() implies b2[i] == b[i] by {}
    lemma_records_local(b2, b, ob);
    lemma_i32_round(n as i32, rec);
    assert(after(b2, nb).subrange(0, 4) =~= i32_bytes(n as i32));
    assert(i32_of(after(b2, nb)) == n);
    assert(b2.subrange(nb + 4, nb + 4 + n) =~= rec);
}

/// A log block of `block_size` bytes that holds no record.
pub fn empty_log_page(block_size: usize) -> (r: Page)
    requires
        4 <= block_size <= i32::MAX,
    ensures
        r@.len() == block_size,
        log_records(r@) == Some(Seq::<Seq<u8>>::empty()),
{
    let mut p = Page::new(block_size);
    p.set_int(0, block_size as i32);
    proof {
        lemma_i32_round(block_size as i32, Seq::empty());
        assert(p@.subrange(0, 4) =~= i32_bytes(block_size as i32));
        assert(i32_bytes(block_size as i32) + Seq::<u8>::empty() =~= i32_bytes(block_size as i32));
        assert(p@.subrange(0, 4) =~= (i32_bytes(block_size as i32) + Seq::<u8>::empty()).subrange(0, 4));
        assert(i32_of(p@) == block_size as i32);
        assert(records_from(p@, block_size as int) == Some(Seq::<Seq<u8>>::empty()));
    }
    p
}

/// Adds `rec` to the log block in front of the records already there;
/// returns `false`, leaving the block as it was, when it does not fit.
pub fn append_to_log_page(page: &mut Page, rec: &[u8]) -> (r: bool)
    ensures
        r == fits(old(page)@, rec@.len() as int),
        r ==> final(page)@ == with_record(old(page)@, rec@),
        !r ==> final(page)@ == old(page)@,
{
    let len = page.len();
    if len < 4 {
        return false;
    }
    let ob = page.get_int(0);
    proof {
        assert(page@.subrange(0, page@.len() as int) =~= page@);
    }
    let n = rec.len();
    if ob < 4 || ob as usize > len || (ob as usize) - 4 < 4 || n > (ob as usize) - 8 {
        return false;
    }
    let nb = ob as usize - 4 - n;
    let mut w: Vec<u8> = Vec::new();
    let prefix = u32_to_le_bytes(n as u32);
    crate::codec::append_bytes(&mut w, prefix.as_slice());
    crate::codec::append_bytes(&mut w, rec);
    assert(w@ =~= i32_bytes(n as i32) + rec@);
    page.set_bytes(nb, w.as_slice());
    page.set_int(0, nb as i32);
    true
}

/// The records of the log block, newest first; `None` when the block does
/// not parse as a log block.
pub fn read_log_page(page: &Page) -> (r: Option<Vec<Vec<u8>>>)
    ensures
        match log_records(page@) {
            Some(s) => r is Some && r->0@.map_values(|v: Vec<u8>| v@) == s,
            None => r is None,
        },
{
    let len = page.len();
    if len < 4 {
        return None;
    }
    let start = page.get_int(0);
    proof {
        assert(page@.subrange(0, page@.len() as int) =~= page@);
        assert(boundary(page@) == start as int);
    }
    if start < 4 || start as usize > len {
        return None;
    }
    let mut p: usize = start as usize;
    let mut out: Vec<Vec<u8>> = Vec::new();
    while p < len
        invariant
            len == page@.len(),
            len >= 4,
            boundary(page@) == start as int,
            4 <= p <= len,
            records_from(page@, start as int) is Some <==> records_from(page@, p as int) is Some,
            records_from(page@, p as int) matches Some(rest) ==> records_from(page@, start as int)->0
                == out@.map_values(|v: Vec<u8>| v@) + rest,
        decreases len - p,
    {
        if len - p < 4 {
            assert(records_from(page@, p as int) is None);
            return None;
        }
        let n = page.get_int(p);
        if n < 0 || (len - p - 4) < n as usize {
            assert(records_from(page@, p as int) is None);
            return None;
        }
        let mut v: Vec<u8> = Vec::new();
        crate::codec::append_bytes(&mut v, &page.contents()[p + 4..p + 4 + n as usize]);
        let ghost out0 = out@;
        out.push(v);
        proof {
            assert(out@.map_values(|v: Vec<u8>| v@) =~= out0.map_values(|v: Vec<u8>| v@).push(
                page@.subrange(p + 4, p + 4 + n),
            ));
            let q = p + 4 + n;
            if let Some(rest) = records_from(page@, q as int) {
                assert(seq![page@.subrange(p + 4, p + 4 + n)] + rest =~= seq![page@.subrange(p + 4, p + 4 + n)]
                    + rest);
                assert(out0.map_values(|v: Vec<u8>| v@) + (seq![page@.subrange(p + 4, p + 4 + n)] + rest)
                    =~= out@.map_values(|v: Vec<u8>| v@) + rest);
            }
        }
        p = p + 4 + n as usize;
    }
    proof {
        assert(out@.map_values(|v: Vec<u8>| v@) + Seq::<Seq<u8>>::empty() =~= out@.map_values(|v: Vec<u8>| v@));
    }
    Some(out)
}

} // verus!
