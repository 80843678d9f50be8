//! The byte layout of stored and transmitted values.
//!
//! Every value is laid out by `bincode` in its fixed-width little-endian
//! form: an integer is its bytes, least significant first; a string or a byte
//! string is its length in bytes as a `u64`, then the bytes. The functions at
//! the end of this file call `bincode` for one value each; their contracts
//! are taken on trust and say what `bincode` writes and accepts.

use vstd::prelude::*;
use vstd::bytes::*;
use vstd::utf8::*;

verus! {

/// The bytes of a string: the length of its UTF-8 form, then that form.
pub open spec fn text_bytes(s: Seq<char>) -> Seq<u8> {
    spec_u64_to_le_bytes(encode_utf8(s).len() as u64) + encode_utf8(s)
}

/// The bytes of a byte string: its length, then its bytes.
pub open spec fn blob_bytes(b: Seq<u8>) -> Seq<u8> {
    spec_u64_to_le_bytes(b.len() as u64) + b
}

/// The bytes of a signed 64-bit number: those of its two's complement.
pub open spec fn i64_bytes(v: i64) -> Seq<u8> {
    spec_u64_to_le_bytes(v as u64)
}

/// The `u32` at the start of `bytes`, if four bytes are there.
pub open spec fn read_u32(bytes: Seq<u8>) -> Option<u32> {
    if bytes.len() >= 4 {
        Some(spec_u32_from_le_bytes(bytes.subrange(0, 4)))
    } else {
        None
    }
}

/// The `u64` at the start of `bytes`, if eight bytes are there.
pub open spec fn read_u64(bytes: Seq<u8>) -> Option<u64> {
    if bytes.len() >= 8 {
        Some(spec_u64_from_le_bytes(bytes.subrange(0, 8)))
    } else {
        None
    }
}

/// The `i64` at the start of `bytes`, if eight bytes are there.
pub open spec fn read_i64(bytes: Seq<u8>) -> Option<i64> {
    match read_u64(bytes) {
        Some(v) => Some(v as i64),
        None => None,
    }
}

/// The byte string at the start of `bytes`: a length, and as many bytes
/// after it. There is none where fewer bytes follow the length.
pub open spec fn read_blob(bytes: Seq<u8>) -> Option<Seq<u8>> {
    match read_u64(bytes) {
        Some(n) => if 8 + n <= bytes.len() {
            Some(bytes.subrange(8, 8 + n))
        } else {
            None
        },
        None => None,
    }
}

/// The string at the start of `bytes`: a byte string that is valid UTF-8.
pub open spec fn read_text(bytes: Seq<u8>) -> Option<Seq<char>> {
    match read_blob(bytes) {
        Some(b) => if valid_utf8(b) {
            Some(decode_utf8(b))
        } else {
            None
        },
        None => None,
    }
}

/// A `u32` that is written and read again is itself, whatever follows it.
pub proof fn lemma_read_u32_of_bytes(v: u32, rest: Seq<u8>)
    ensures
        spec_u32_to_le_bytes(v).len() == 4,
        read_u32(spec_u32_to_le_bytes(v) + rest) == Some(v),
{
    lemma_auto_spec_u32_to_from_le_bytes();
    assert((spec_u32_to_le_bytes(v) + rest).subrange(0, 4) =~= spec_u32_to_le_bytes(v));
}

/// A `u64` that is written and read again is itself, whatever follows it.
pub proof fn lemma_read_u64_of_bytes(v: u64, rest: Seq<u8>)
    ensures
        spec_u64_to_le_bytes(v).len() == 8,
        read_u64(spec_u64_to_le_bytes(v) + rest) == Some(v),
{
    lemma_auto_spec_u64_to_from_le_bytes();
    assert((spec_u64_to_le_bytes(v) + rest).subrange(0, 8) =~= spec_u64_to_le_bytes(v));
}

/// An `i64` that is written and read again is itself, whatever follows it.
pub proof fn lemma_read_i64_of_bytes(v: i64, rest: Seq<u8>)
    ensures
        i64_bytes(v).len() == 8,
        read_i64(i64_bytes(v) + rest) == Some(v),
{
    lemma_read_u64_of_bytes(v as u64, rest);
    assert((v as u64) as i64 == v) by (bit_vector);
}

/// A byte string that is written and read again is itself, whatever follows
/// it.
pub proof fn lemma_read_blob_of_bytes(b: Seq<u8>, rest: Seq<u8>)
    requires
        b.len() <= u64::MAX,
    ensures
        blob_bytes(b).len() == 8 + b.len(),
        read_blob(blob_bytes(b) + rest) == Some(b),
{
    let head = spec_u64_to_le_bytes(b.len() as u64);
    lemma_read_u64_of_bytes(b.len() as u64, b + rest);
    assert(blob_bytes(b) + rest =~= head + (b + rest));
    assert((blob_bytes(b) + rest).subrange(8, 8 + b.len() as int) =~= b);
}

/// A string that is written and read again is itself, whatever follows it.
pub proof fn lemma_read_text_of_bytes(s: Seq<char>, rest: Seq<u8>)
    requires
        encode_utf8(s).len() <= u64::MAX,
    ensures
        text_bytes(s).len() == 8 + encode_utf8(s).len(),
        read_text(text_bytes(s) + rest) == Some(s),
{
    lemma_read_blob_of_bytes(encode_utf8(s), rest);
    encode_utf8_valid_utf8(s);
    encode_utf8_decode_utf8(s);
}

/// The four bytes that `bincode::serialize` writes for a `u32`: the number,
/// least significant byte first.
#[verifier::external_body]
pub(crate) fn put_u32(v: u32) -> (out: Vec<u8>)
    ensures
        out@ == spec_u32_to_le_bytes(v),
{
    bincode::serialize(&v).unwrap()
}

/// The eight bytes that `bincode::serialize` writes for a `u64`: the number,
/// least significant byte first.
#[verifier::external_body]
pub(crate) fn put_u64(v: u64) -> (out: Vec<u8>)
    ensures
        out@ == spec_u64_to_le_bytes(v),
{
    bincode::serialize(&v).unwrap()
}

/// The eight bytes that `bincode::serialize` writes for an `i64`: its two's
/// complement, least significant byte first.
#[verifier::external_body]
pub(crate) fn put_i64(v: i64) -> (out: Vec<u8>)
    ensures
        out@ == i64_bytes(v),
{
    bincode::serialize(&v).unwrap()
}

/// What `bincode::serialize` writes for a string: the length of its UTF-8
/// form as a `u64`, then that form.
#[verifier::external_body]
pub(crate) fn put_text(s: &str) -> (out: Vec<u8>)
    ensures
        out@ == text_bytes(s@),
{
    bincode::serialize(s).unwrap()
}

/// What `bincode::serialize` writes for a slice of bytes: its length as a
/// `u64`, then the bytes.
#[verifier::external_body]
pub(crate) fn put_blob(b: &[u8]) -> (out: Vec<u8>)
    ensures
        out@ == blob_bytes(b@),
{
    bincode::serialize(b).unwrap()
}

/// `bincode::deserialize` for a `u32`: it reads the first four bytes, ignores
/// what follows them and fails where fewer are there.
#[verifier::external_body]
pub(crate) fn get_u32(bytes: &[u8]) -> (out: Option<u32>)
    ensures
        out == read_u32(bytes@),
{
    bincode::deserialize::<u32>(bytes).ok()
}

/// `bincode::deserialize` for a `u64`: it reads the first eight bytes,
/// ignores what follows them and fails where fewer are there.
#[verifier::external_body]
pub(crate) fn get_u64(bytes: &[u8]) -> (out: Option<u64>)
    ensures
        out == read_u64(bytes@),
{
    bincode::deserialize::<u64>(bytes).ok()
}

/// `bincode::deserialize` for an `i64`: it reads the first eight bytes as a
/// two's complement number and fails where fewer are there.
#[verifier::external_body]
pub(crate) fn get_i64(bytes: &[u8]) -> (out: Option<i64>)
    ensures
        out == read_i64(bytes@),
{
    bincode::deserialize::<i64>(bytes).ok()
}

/// `bincode::deserialize` for a `Vec<u8>`: it reads a length and as many
/// bytes, and fails where the input ends before that.
#[verifier::external_body]
pub(crate) fn get_blob(bytes: &[u8]) -> (out: Option<Vec<u8>>)
    ensures
        match out {
            Some(b) => read_blob(bytes@) == Some(b@),
            None => read_blob(bytes@) is None,
        },
{
    bincode::deserialize::<Vec<u8>>(bytes).ok()
}

/// `bincode::deserialize` for a `String`: it reads a length and as many
/// bytes, and fails where the input ends before that or the bytes are not
/// UTF-8.
#[verifier::external_body]
pub(crate) fn get_text(bytes: &[u8]) -> (out: Option<String>)
    ensures
        match out {
            Some(s) => read_text(bytes@) == Some(s@),
            None => read_text(bytes@) is None,
        },
{
    bincode::deserialize::<String>(bytes).ok()
}

} // verus!
