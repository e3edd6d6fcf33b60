//! Field encodings used by the log: bincode's default layout for `i32`
//! (four little-endian bytes) and for strings (an eight-byte little-endian
//! length followed by the UTF-8 bytes).
use vstd::bytes::*;
use vstd::prelude::*;
use vstd::utf8::*;

verus! {

#[verifier::external_type_specification]
#[verifier::external_body]
pub struct ExBincodeErrorKind(bincode::ErrorKind);

/// The four bytes that encode `v`.
pub open spec fn i32_bytes(v: i32) -> Seq<u8> {
    spec_u32_to_le_bytes(v as u32)
}

/// The `i32` held by the first four bytes of `b`.
pub open spec fn i32_of(b: Seq<u8>) -> i32 {
    spec_u32_from_le_bytes(b.subrange(0, 4)) as i32
}

/// The length prefix followed by the UTF-8 bytes of `s`.
pub open spec fn str_bytes(s: Seq<char>) -> Seq<u8> {
    spec_u64_to_le_bytes(encode_utf8(s).len() as u64) + encode_utf8(s)
}

/// The length announced by the first eight bytes of `b`.
pub open spec fn len_of(b: Seq<u8>) -> int {
    spec_u64_from_le_bytes(b.subrange(0, 8)) as int
}

/// Whether `b` starts with a complete, valid string encoding.
pub open spec fn str_ok(b: Seq<u8>) -> bool {
    &&& b.len() >= 8
    &&& len_of(b) <= b.len() - 8
    &&& valid_utf8(b.subrange(8, 8 + len_of(b)))
}

/// The string that `b` starts with, when `str_ok(b)`.
pub open spec fn str_of(b: Seq<u8>) -> Seq<char> {
    decode_utf8(b.subrange(8, 8 + len_of(b)))
}

/// How many bytes the string that `b` starts with takes.
pub open spec fn str_span(b: Seq<u8>) -> int {
    8 + len_of(b)
}

/// `b` without its first `n` bytes.
pub open spec fn after(b: Seq<u8>, n: int) -> Seq<u8> {
    b.subrange(n, b.len() as int)
}

/// An encoded `i32` reads back as itself, and what follows it is left as it was.
pub proof fn lemma_i32_round(v: i32, rest: Seq<u8>)
    ensures
        (i32_bytes(v) + rest).len() == 4 + rest.len(),
        i32_of(i32_bytes(v) + rest) == v,
        after(i32_bytes(v) + rest, 4) == rest,
{
    lemma_auto_spec_u32_to_from_le_bytes();
    let b = i32_bytes(v) + rest;
    assert(b.subrange(0, 4) =~= i32_bytes(v));
    assert(after(b, 4) =~= rest);
    assert(((v as u32) as i32) == v) by (bit_vector);
}

/// An encoded string reads back as itself, takes the bytes of its encoding,
/// and what follows it is left as it was.
pub proof fn lemma_str_round(s: Seq<char>, rest: Seq<u8>)
    requires
        encode_utf8(s).len() <= u64::MAX,
    ensures
        str_ok(str_bytes(s) + rest),
        str_of(str_bytes(s) + rest) == s,
        str_span(str_bytes(s) + rest) == str_bytes(s).len(),
        after(str_bytes(s) + rest, str_span(str_bytes(s) + rest)) == rest,
{
    lemma_auto_spec_u64_to_from_le_bytes();
    let e = encode_utf8(s);
    let n = e.len() as u64;
    let b = str_bytes(s) + rest;
    assert(b.subrange(0, 8) =~= spec_u64_to_le_bytes(n));
    assert(len_of(b) == e.len());
    assert(b.subrange(8, 8 + len_of(b)) =~= e);
    encode_utf8_valid_utf8(s);
    encode_utf8_decode_utf8(s);
    assert(after(b, str_span(b)) =~= rest);
}

/// Relies on bincode::serialize for an `i32`: with the default options it
/// writes the value's four little-endian bytes into a new vector and cannot fail.
#[verifier::external_body]
fn serialize_i32(v: i32) -> (r: Result<Vec<u8>, Box<bincode::ErrorKind>>)
    ensures
        r is Ok,
        r matches Ok(b) ==> b@ == i32_bytes(v),
{
    bincode::serialize(&v)
}

/// Relies on bincode::serialize for a `str`: with the default options it
/// writes the byte length as a little-endian `u64`, then the UTF-8 bytes,
/// into a new vector, and cannot fail.
#[verifier::external_body]
fn serialize_str(s: &str) -> (r: Result<Vec<u8>, Box<bincode::ErrorKind>>)
    ensures
        r is Ok,
        r matches Ok(b) ==> b@ == str_bytes(s@),
{
    bincode::serialize(s)
}

/// Relies on bincode::deserialize for an `i32`: it reads the first four
/// bytes as little-endian, ignores the rest, and fails on fewer than four.
#[verifier::external_body]
fn deserialize_i32(b: &[u8]) -> (r: Result<i32, Box<bincode::ErrorKind>>)
    ensures
        r is Ok <==> b@.len() >= 4,
        r matches Ok(v) ==> v == i32_of(b@),
{
    bincode::deserialize::<i32>(b)
}

/// Relies on bincode::deserialize for a `String`: it reads a little-endian
/// `u64` length, then that many bytes, which must be valid UTF-8; it
/// ignores what follows, and fails when the bytes are short or invalid.
#[verifier::external_body]
fn deserialize_string(b: &[u8]) -> (r: Result<String, Box<bincode::ErrorKind>>)
    ensures
        r is Ok <==> str_ok(b@),
        r matches Ok(s) ==> s@ == str_of(b@),
{
    bincode::deserialize::<String>(b)
}

/// Relies on the `Display` impl of bincode::ErrorKind for a message.
#[verifier::external_body]
fn error_text(e: Box<bincode::ErrorKind>) -> String {
    e.to_string()
}

/// Appends every byte of `src` to `out`.
pub fn append_bytes(out: &mut Vec<u8>, src: &[u8])
    ensures
        final(out)@ == old(out)@ + src@,
{
    let mut i: usize = 0;
    while i < src.len()
        invariant
            i <= src@.len(),
            out@ == old(out)@ + src@.subrange(0, i as int),
        decreases src@.len() - i,
    {
        out.push(src[i]);
        i = i + 1;
        assert(out@ =~= old(out)@ + src@.subrange(0, i as int));
    }
    assert(src@.subrange(0, src@.len() as int) =~= src@);
}

/// Appends the encoding of `v` to `out`.
pub fn put_i32(out: &mut Vec<u8>, v: i32)
    ensures
        final(out)@ == old(out)@ + i32_bytes(v),
{
    match serialize_i32(v) {
        Ok(b) => append_bytes(out, b.as_slice()),
        Err(_) => {},
    }
}

/// Appends the encoding of `s` to `out`.
pub fn put_str(out: &mut Vec<u8>, s: &str)
    ensures
        final(out)@ == old(out)@ + str_bytes(s@),
{
    match serialize_str(s) {
        Ok(b) => append_bytes(out, b.as_slice()),
        Err(_) => {},
    }
}

/// Reads an `i32` at `pos`; `None` when fewer than four bytes remain.
pub fn get_i32(b: &[u8], pos: usize) -> (r: Option<i32>)
    requires
        pos <= b@.len(),
    ensures
        r is Some <==> b@.len() - pos >= 4,
        r matches Some(v) ==> v == i32_of(b@.subrange(pos as int, b@.len() as int)),
{
    match deserialize_i32(&b[pos..b.len()]) {
        Ok(v) => Some(v),
        Err(_) => None,
    }
}

/// Reads a string at `pos`, with the number of bytes it took; the error
/// when the bytes there are no valid string encoding.
pub fn get_str(b: &[u8], pos: usize) -> (r: Result<(String, usize), String>)
    requires
        pos <= b@.len(),
    ensures
        r is Ok <==> str_ok(b@.subrange(pos as int, b@.len() as int)),
        r matches Ok((s, n)) ==> {
            &&& s@ == str_of(b@.subrange(pos as int, b@.len() as int))
            &&& n == str_span(b@.subrange(pos as int, b@.len() as int))
        },
{
    let rest = &b[pos..b.len()];
    match deserialize_string(rest) {
        Ok(s) => {
            let n = s.as_str().as_bytes().len();
            proof {
                let t = rest@.subrange(8, 8 + len_of(rest@));
                decode_utf8_encode_utf8(t);
            }
            Ok((s, 8 + n))
        },
        Err(e) => Err(error_text(e)),
    }
}

} // verus!
