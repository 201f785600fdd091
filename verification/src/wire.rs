//! The wire form of plain values: what `bincode` writes for whole numbers,
//! optional numbers and texts, and what it reads back.
//!
//! The functions of this module that call `bincode` are not verified: their
//! contracts state the layout that `bincode::serialize` and
//! `bincode::deserialize` use (fixed-width little-endian integers, one tag
//! byte before an optional value, a 64-bit length before the bytes of a
//! text). Everything else is proved from those contracts.

use vstd::prelude::*;
use vstd::bytes::{
    lemma_auto_spec_u32_to_from_le_bytes, lemma_auto_spec_u64_to_from_le_bytes,
    spec_u32_from_le_bytes, spec_u32_to_le_bytes, spec_u64_from_le_bytes, spec_u64_to_le_bytes,
};
use vstd::slice::slice_subrange;
use vstd::utf8::{
    decode_utf8, decode_utf8_encode_utf8, encode_utf8, encode_utf8_decode_utf8,
    encode_utf8_valid_utf8, valid_utf8,
};

verus! {

/// The eight bytes of an unsigned 64-bit number, lowest first.
pub open spec fn u64_wire(v: u64) -> Seq<u8> {
    spec_u64_to_le_bytes(v)
}

/// The number that the first eight bytes of `b` hold, if `b` has eight.
pub open spec fn u64_read(b: Seq<u8>) -> Option<u64> {
    if b.len() >= 8 {
        Some(spec_u64_from_le_bytes(b.take(8)))
    } else {
        None
    }
}

/// The eight bytes of a signed 64-bit number in two's complement, lowest
/// first.
pub open spec fn i64_wire(v: i64) -> Seq<u8> {
    spec_u64_to_le_bytes(v as u64)
}

/// The signed number that the first eight bytes of `b` hold.
pub open spec fn i64_read(b: Seq<u8>) -> Option<i64> {
    if b.len() >= 8 {
        Some(spec_u64_from_le_bytes(b.take(8)) as i64)
    } else {
        None
    }
}

/// The four bytes of an unsigned 32-bit number, lowest first.
pub open spec fn u32_wire(v: u32) -> Seq<u8> {
    spec_u32_to_le_bytes(v)
}

/// The number that the first four bytes of `b` hold, if `b` has four.
pub open spec fn u32_read(b: Seq<u8>) -> Option<u32> {
    if b.len() >= 4 {
        Some(spec_u32_from_le_bytes(b.take(4)))
    } else {
        None
    }
}

/// The four bytes of a signed 32-bit number in two's complement, lowest
/// first.
pub open spec fn i32_wire(v: i32) -> Seq<u8> {
    spec_u32_to_le_bytes(v as u32)
}

/// The signed number that the first four bytes of `b` hold.
pub open spec fn i32_read(b: Seq<u8>) -> Option<i32> {
    if b.len() >= 4 {
        Some(spec_u32_from_le_bytes(b.take(4)) as i32)
    } else {
        None
    }
}

/// An optional number: the tag 0 alone, or the tag 1 and the number.
pub open spec fn option_wire(v: Option<i64>) -> Seq<u8> {
    match v {
        None => seq![0u8],
        Some(x) => seq![1u8] + i64_wire(x),
    }
}

/// The optional number at the front of `b`. A tag other than 0 and 1 is
/// refused.
pub open spec fn option_read(b: Seq<u8>) -> Option<Option<i64>> {
    if b.len() >= 1 && b[0] == 0 {
        Some(None)
    } else if b.len() >= 9 && b[0] == 1 {
        Some(Some(spec_u64_from_le_bytes(b.subrange(1, 9)) as i64))
    } else {
        None
    }
}

/// How many bytes the wire form of an optional number takes.
pub open spec fn option_len(v: Option<i64>) -> int {
    match v {
        None => 1,
        Some(_) => 9,
    }
}

/// A text: the number of its UTF-8 bytes as an unsigned 64-bit number, then
/// those bytes.
pub open spec fn text_wire(s: Seq<char>) -> Seq<u8> {
    u64_wire(encode_utf8(s).len() as u64) + encode_utf8(s)
}

/// How many bytes the wire form of a text takes.
pub open spec fn text_len(s: Seq<char>) -> int {
    8 + encode_utf8(s).len() as int
}

/// The text at the front of `b`: `b` must hold a length, that many bytes
/// after it, and those bytes must be UTF-8.
pub open spec fn text_read(b: Seq<u8>) -> Option<Seq<char>> {
    if b.len() >= 8 {
        let n = spec_u64_from_le_bytes(b.take(8)) as int;
        if n <= b.len() - 8 && valid_utf8(b.subrange(8, 8 + n)) {
            Some(decode_utf8(b.subrange(8, 8 + n)))
        } else {
            None
        }
    } else {
        None
    }
}

/// `bincode::serialize` of a `u64`: its eight bytes, lowest first.
#[verifier::external_body]
pub(crate) fn put_u64(v: u64) -> (out: Vec<u8>)
    ensures
        out@ == u64_wire(v),
{
    bincode::serialize(&v).unwrap_or_default()
}

/// `bincode::serialize` of an `i64`: the eight bytes of its two's
/// complement, lowest first.
#[verifier::external_body]
pub(crate) fn put_i64(v: i64) -> (out: Vec<u8>)
    ensures
        out@ == i64_wire(v),
{
    bincode::serialize(&v).unwrap_or_default()
}

/// `bincode::serialize` of a `u32`: its four bytes, lowest first.
#[verifier::external_body]
pub(crate) fn put_u32(v: u32) -> (out: Vec<u8>)
    ensures
        out@ == u32_wire(v),
{
    bincode::serialize(&v).unwrap_or_default()
}

/// `bincode::serialize` of an `i32`: the four bytes of its two's
/// complement, lowest first.
#[verifier::external_body]
pub(crate) fn put_i32(v: i32) -> (out: Vec<u8>)
    ensures
        out@ == i32_wire(v),
{
    bincode::serialize(&v).unwrap_or_default()
}

/// `bincode::serialize` of an `Option<i64>`: the byte 0 for `None`, the
/// byte 1 and the number for `Some`.
#[verifier::external_body]
pub(crate) fn put_option(v: Option<i64>) -> (out: Vec<u8>)
    ensures
        out@ == option_wire(v),
{
    bincode::serialize(&v).unwrap_or_default()
}

/// `bincode::serialize` of a `str`: the length of the text in bytes as a
/// `u64`, then the bytes.
#[verifier::external_body]
pub(crate) fn put_text(s: &str) -> (out: Vec<u8>)
    ensures
        out@ == text_wire(s@),
{
    bincode::serialize(s).unwrap_or_default()
}

/// `bincode::deserialize` of a `u64`: it reads eight bytes, fails when
/// there are fewer, and ignores what follows them.
#[verifier::external_body]
pub(crate) fn get_u64(bytes: &[u8]) -> (r: Option<u64>)
    ensures
        r == u64_read(bytes@),
{
    bincode::deserialize::<u64>(bytes).ok()
}

/// `bincode::deserialize` of an `i64`: it reads eight bytes, fails when
/// there are fewer, and ignores what follows them.
#[verifier::external_body]
pub(crate) fn get_i64(bytes: &[u8]) -> (r: Option<i64>)
    ensures
        r == i64_read(bytes@),
{
    bincode::deserialize::<i64>(bytes).ok()
}

/// `bincode::deserialize` of a `u32`: it reads four bytes, fails when
/// there are fewer, and ignores what follows them.
#[verifier::external_body]
pub(crate) fn get_u32(bytes: &[u8]) -> (r: Option<u32>)
    ensures
        r == u32_read(bytes@),
{
    bincode::deserialize::<u32>(bytes).ok()
}

/// `bincode::deserialize` of an `i32`: it reads four bytes, fails when
/// there are fewer, and ignores what follows them.
#[verifier::external_body]
pub(crate) fn get_i32(bytes: &[u8]) -> (r: Option<i32>)
    ensures
        r == i32_read(bytes@),
{
    bincode::deserialize::<i32>(bytes).ok()
}

/// `bincode::deserialize` of an `Option<i64>`: it reads the tag and, after
/// the tag 1, eight bytes; it fails on any other tag but 0 and when bytes
/// are missing.
#[verifier::external_body]
pub(crate) fn get_option(bytes: &[u8]) -> (r: Option<Option<i64>>)
    ensures
        r == option_read(bytes@),
{
    bincode::deserialize::<Option<i64>>(bytes).ok()
}

/// `bincode::deserialize` of a `String`: it reads the length, takes that
/// many bytes and makes a string of them by `String::from_utf8`; it fails
/// when bytes are missing or are not UTF-8.
#[verifier::external_body]
pub(crate) fn get_text(bytes: &[u8]) -> (r: Option<String>)
    ensures
        r is Some <==> text_read(bytes@) is Some,
        r matches Some(s) ==> s@ == text_read(bytes@)->0,
{
    bincode::deserialize::<String>(bytes).ok()
}

/// The bytes of `bytes` from `pos` on.
pub(crate) fn rest_of(bytes: &Vec<u8>, pos: usize) -> (rest: &[u8])
    requires
        pos <= bytes.len(),
    ensures
        rest@ == bytes@.skip(pos as int),
{
    slice_subrange(bytes.as_slice(), pos, bytes.len())
}

/// Whether the bytes `w` stand in `b` at position `pos`.
#[verifier::opaque]
pub open spec fn holds(b: Seq<u8>, pos: int, w: Seq<u8>) -> bool {
    0 <= pos && pos + w.len() <= b.len() && b.subrange(pos, pos + w.len()) == w
}

/// Bytes stand at the front of whatever they are followed by.
pub proof fn lemma_holds_front(w: Seq<u8>, rest: Seq<u8>)
    ensures
        holds(w + rest, 0, w),
{
    reveal(holds);
    assert((w + rest).subrange(0, w.len() as int) =~= w);
}

/// Two runs of bytes stand one after the other exactly when their
/// concatenation stands there.
pub proof fn lemma_holds_split(b: Seq<u8>, pos: int, x: Seq<u8>, y: Seq<u8>)
    ensures
        holds(b, pos, x + y) == (holds(b, pos, x) && holds(b, pos + x.len(), y)),
{
    reveal(holds);
    if 0 <= pos && pos + x.len() + y.len() <= b.len() {
        let whole = b.subrange(pos, pos + x.len() + y.len());
        let left = b.subrange(pos, pos + x.len());
        let right = b.subrange(pos + x.len(), pos + x.len() + y.len());
        assert(whole =~= left + right);
        if whole == x + y {
            assert(left =~= (x + y).subrange(0, x.len() as int));
            assert((x + y).subrange(0, x.len() as int) =~= x);
            assert(right =~= (x + y).subrange(x.len() as int, (x.len() + y.len()) as int));
            assert((x + y).subrange(x.len() as int, (x.len() + y.len()) as int) =~= y);
        }
    }
}

/// Skipping twice is skipping once.
pub proof fn lemma_skip_skip(b: Seq<u8>, i: int, j: int)
    requires
        0 <= i,
        0 <= j,
        i + j <= b.len(),
    ensures
        b.skip(i).skip(j) == b.skip(i + j),
{
    assert(b.skip(i).skip(j) =~= b.skip(i + j));
}

/// A number of 64 bits that stands in the bytes is read from there.
pub proof fn lemma_u64_at(b: Seq<u8>, pos: int, v: u64)
    ensures
        u64_wire(v).len() == 8,
        holds(b, pos, u64_wire(v)) ==> u64_read(b.skip(pos)) == Some(v),
{
    reveal(holds);
    lemma_auto_spec_u64_to_from_le_bytes();
    if holds(b, pos, u64_wire(v)) {
        assert(b.skip(pos).take(8) =~= b.subrange(pos, pos + 8));
    }
}

/// A signed number of 64 bits that stands in the bytes is read from there.
pub proof fn lemma_i64_at(b: Seq<u8>, pos: int, v: i64)
    ensures
        i64_wire(v).len() == 8,
        holds(b, pos, i64_wire(v)) ==> i64_read(b.skip(pos)) == Some(v),
{
    reveal(holds);
    lemma_auto_spec_u64_to_from_le_bytes();
    assert((v as u64) as i64 == v) by (bit_vector);
    if holds(b, pos, i64_wire(v)) {
        assert(b.skip(pos).take(8) =~= b.subrange(pos, pos + 8));
    }
}

/// A number of 32 bits that stands in the bytes is read from there.
pub proof fn lemma_u32_at(b: Seq<u8>, pos: int, v: u32)
    ensures
        u32_wire(v).len() == 4,
        holds(b, pos, u32_wire(v)) ==> u32_read(b.skip(pos)) == Some(v),
{
    reveal(holds);
    lemma_auto_spec_u32_to_from_le_bytes();
    if holds(b, pos, u32_wire(v)) {
        assert(b.skip(pos).take(4) =~= b.subrange(pos, pos + 4));
    }
}

/// A signed number of 32 bits that stands in the bytes is read from there.
pub proof fn lemma_i32_at(b: Seq<u8>, pos: int, v: i32)
    ensures
        i32_wire(v).len() == 4,
        holds(b, pos, i32_wire(v)) ==> i32_read(b.skip(pos)) == Some(v),
{
    reveal(holds);
    lemma_auto_spec_u32_to_from_le_bytes();
    assert((v as u32) as i32 == v) by (bit_vector);
    if holds(b, pos, i32_wire(v)) {
        assert(b.skip(pos).take(4) =~= b.subrange(pos, pos + 4));
    }
}

/// An optional number that stands in the bytes is read from there.
pub proof fn lemma_option_at(b: Seq<u8>, pos: int, v: Option<i64>)
    ensures
        option_wire(v).len() == option_len(v),
        holds(b, pos, option_wire(v)) ==> option_read(b.skip(pos)) == Some(v),
{
    reveal(holds);
    lemma_auto_spec_u64_to_from_le_bytes();
    if holds(b, pos, option_wire(v)) {
        let w = option_wire(v);
        assert(b.skip(pos)[0] == b.subrange(pos, pos + w.len())[0]);
        match v {
            None => {},
            Some(x) => {
                assert(b.skip(pos).subrange(1, 9) =~= w.subrange(1, 9));
                assert(w.subrange(1, 9) =~= i64_wire(x));
                assert((x as u64) as i64 == x) by (bit_vector);
            },
        }
    }
}

/// A text that stands in the bytes is read from there, as long as the
/// number of its bytes fits in 64 bits.
pub proof fn lemma_text_at(b: Seq<u8>, pos: int, s: Seq<char>)
    requires
        encode_utf8(s).len() <= u64::MAX,
    ensures
        text_wire(s).len() == text_len(s),
        holds(b, pos, text_wire(s)) ==> text_read(b.skip(pos)) == Some(s),
{
    reveal(holds);
    lemma_auto_spec_u64_to_from_le_bytes();
    let body = encode_utf8(s);
    let head = u64_wire(body.len() as u64);
    if holds(b, pos, text_wire(s)) {
        let w = text_wire(s);
        let from = b.skip(pos);
        assert(from.take(8) =~= w.subrange(0, 8));
        assert(w.subrange(0, 8) =~= head);
        assert(from.subrange(8, 8 + body.len() as int) =~= w.subrange(8, 8 + body.len() as int));
        assert(w.subrange(8, 8 + body.len() as int) =~= body);
        encode_utf8_valid_utf8(s);
        encode_utf8_decode_utf8(s);
    }
}

/// A text that was read takes as many bytes as its wire form.
pub proof fn lemma_text_read_len(b: Seq<u8>)
    requires
        text_read(b) is Some,
    ensures
        text_len(text_read(b)->0) == 8 + spec_u64_from_le_bytes(b.take(8)),
        text_len(text_read(b)->0) <= b.len(),
{
    let n = spec_u64_from_le_bytes(b.take(8)) as int;
    decode_utf8_encode_utf8(b.subrange(8, 8 + n));
}

} // verus!
