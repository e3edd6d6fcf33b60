//! A fixed-size page of bytes with integer and string views.
use crate::codec::{i32_bytes, i32_of};
use vstd::bytes::*;
use vstd::prelude::*;
use vstd::utf8::*;

verus! {

/// A block's bytes held in memory.
pub struct Page {
    bytes: Vec<u8>,
}

impl View for Page {
    type V = Seq<u8>;

    closed spec fn view(&self) -> Seq<u8> {
        self.bytes@
    }
}

/// `b` with the bytes from `off` on replaced by `w`.
pub open spec fn overwrite(b: Seq<u8>, off: int, w: Seq<u8>) -> Seq<u8> {
    b.subrange(0, off) + w + b.subrange(off + w.len(), b.len() as int)
}

/// Whether a string is stored at `off` of `b`: a length prefix that fits
/// the page, followed by that many bytes of valid UTF-8.
pub open spec fn string_at_ok(b: Seq<u8>, off: int) -> bool {
    &&& 0 <= off
    &&& off + 4 <= b.len()
    &&& 0 <= i32_of(b.subrange(off, b.len() as int))
    &&& off + 4 + i32_of(b.subrange(off, b.len() as int)) <= b.len()
    &&& valid_utf8(
        b.subrange(off + 4, off + 4 + i32_of(b.subrange(off, b.len() as int))),
    )
}

/// The string stored at `off` of `b`.
pub open spec fn string_at(b: Seq<u8>, off: int) -> Seq<char> {
    decode_utf8(b.subrange(off + 4, off + 4 + i32_of(b.subrange(off, b.len() as int))))
}

/// The bytes that store `s` in a page: its length as an integer, then its UTF-8 bytes.
pub open spec fn string_bytes(s: Seq<char>) -> Seq<u8> {
    i32_bytes(encode_utf8(s).len() as i32) + encode_utf8(s)
}

impl Page {
    /// A page of `block_size` zero bytes.
    pub fn new(block_size: usize) -> (r: Page)
        ensures
            r@ == Seq::new(block_size as nat, |i: int| 0u8),
    {
        let mut bytes: Vec<u8> = Vec::new();
        let mut i: usize = 0;
        while i < block_size
            invariant
                i <= block_size,
                bytes@ == Seq::new(i as nat, |j: int| 0u8),
            decreases block_size - i,
        {
            bytes.push(0u8);
            i = i + 1;
            assert(bytes@ =~= Seq::new(i as nat, |j: int| 0u8));
        }
        Page { bytes }
    }

    /// A page holding exactly `bytes`.
    pub fn from_bytes(bytes: Vec<u8>) -> (r: Page)
        ensures
            r@ == bytes@,
    {
        Page { bytes }
    }

    /// A copy of the page.
    pub fn duplicate(&self) -> (r: Page)
        ensures
            r@ == self@,
    {
        let mut v: Vec<u8> = Vec::new();
        crate::codec::append_bytes(&mut v, self.bytes.as_slice());
        Page { bytes: v }
    }

    /// The page's size in bytes.
    pub fn len(&self) -> (r: usize)
        ensures
            r == self@.len(),
    {
        self.bytes.len()
    }

    /// The page's bytes.
    pub fn contents(&self) -> (r: &[u8])
        ensures
            r@ == self@,
    {
        self.bytes.as_slice()
    }

    /// The span reserved for a string of `n` bytes: the length prefix and the bytes.
    pub fn max_length(n: usize) -> (r: usize)
        requires
            n <= usize::MAX - 4,
        ensures
            r == 4 + n,
    {
        4 + n
    }

    /// The integer stored at `offset`.
    pub fn get_int(&self, offset: usize) -> (r: i32)
        requires
            offset + 4 <= self@.len(),
        ensures
            r == i32_of(self@.subrange(offset as int, self@.len() as int)),
    {
        let len = self.bytes.len();
        let w = u32_from_le_bytes(&self.bytes.as_slice()[offset..offset + 4]);
        assert(self@.subrange(offset as int, self@.len() as int).subrange(0, 4) =~= self@.subrange(
            offset as int,
            offset + 4,
        ));
        #[verifier::truncate]
        (w as i32)
    }

    /// Writes `bytes` at `offset`, leaving the other bytes as they were.
    pub fn set_bytes(&mut self, offset: usize, bytes: &[u8])
        requires
            offset + bytes@.len() <= old(self)@.len(),
        ensures
            final(self)@ == overwrite(old(self)@, offset as int, bytes@),
            final(self)@.len() == old(self)@.len(),
    {
        let len = self.bytes.len();
        let mut i: usize = 0;
        while i < bytes.len()
            invariant
                len == old(self)@.len(),
                offset + bytes@.len() <= old(self)@.len(),
                i <= bytes@.len(),
                self@.len() == old(self)@.len(),
                forall|j: int|
                    0 <= j < self@.len() ==> #[trigger] self@[j] == if offset <= j < offset + i {
                        bytes@[j - offset]
                    } else {
                        old(self)@[j]
                    },
            decreases bytes@.len() - i,
        {
            self.bytes.set(offset + i, bytes[i]);
            i = i + 1;
        }
        assert(self@ =~= overwrite(old(self)@, offset as int, bytes@));
    }

    /// Writes `v` at `offset`.
    pub fn set_int(&mut self, offset: usize, v: i32)
        requires
            offset + 4 <= old(self)@.len(),
        ensures
            final(self)@ == overwrite(old(self)@, offset as int, i32_bytes(v)),
            final(self)@.len() == old(self)@.len(),
    {
        proof {
            lemma_auto_spec_u32_to_from_le_bytes();
        }
        let w = u32_to_le_bytes(#[verifier::truncate] (v as u32));
        self.set_bytes(offset, w.as_slice());
    }

    /// The string stored at `offset`; `None` when the bytes there hold none.
    pub fn get_string(&self, offset: usize) -> (r: Option<String>)
        ensures
            r is Some <==> string_at_ok(self@, offset as int),
            r matches Some(s) ==> s@ == string_at(self@, offset as int),
    {
        if offset > self.bytes.len() || self.bytes.len() - offset < 4 {
            return None;
        }
        let n = self.get_int(offset);
        if n < 0 || (self.bytes.len() - offset - 4) < n as usize {
            return None;
        }
        let start = offset + 4;
        let end = start + n as usize;
        let mut v: Vec<u8> = Vec::new();
        crate::codec::append_bytes(&mut v, &self.bytes.as_slice()[start..end]);
        proof {
            assert(v@ =~= self@.subrange(offset + 4, offset + 4 + n));
        }
        string_from_utf8(v)
    }

    /// Writes `s` at `offset`: its byte length, then its bytes.
    pub fn set_string(&mut self, offset: usize, s: &str)
        requires
            encode_utf8(s@).len() + offset + 4 <= old(self)@.len(),
            encode_utf8(s@).len() <= i32::MAX,
        ensures
            final(self)@ == overwrite(old(self)@, offset as int, string_bytes(s@)),
            final(self)@.len() == old(self)@.len(),
    {
        let b = s.as_bytes();
        let mut w: Vec<u8> = Vec::new();
        let prefix = u32_to_le_bytes(b.len() as u32);
        crate::codec::append_bytes(&mut w, prefix.as_slice());
        crate::codec::append_bytes(&mut w, b);
        self.set_bytes(offset, w.as_slice());
    }
}

/// Relies on String::from_utf8: it succeeds exactly on valid UTF-8, and
/// the string then holds the characters that the bytes encode.
#[verifier::external_body]
fn string_from_utf8(v: Vec<u8>) -> (r: Option<String>)
    ensures
        r is Some <==> valid_utf8(v@),
        r matches Some(s) ==> s@ == decode_utf8(v@),
{
    String::from_utf8(v).ok()
}

} // verus!
