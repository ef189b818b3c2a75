//! The darkfi_serial encodings this crate stores and sends: little-endian
//! integers, one-byte booleans, raw fixed arrays, and strings framed by a
//! minimal Bitcoin-style `VarInt` byte count followed by their UTF-8 bytes.
//!
//! The `ser_*` and `de_*` functions are the only places that call
//! `darkfi_serial`; everything else in the crate is verified against the
//! specifications below.

use vstd::prelude::*;
use vstd::utf8::*;

verus! {

/// Byte `i` (0 = least significant) of `v`.
pub open spec fn le_byte(v: u64, i: int) -> u8 {
    ((v >> (i * 8) as u64) & 0xff) as u8
}

/// The `n` low bytes of `v`, least significant first.
pub open spec fn le_bytes(v: u64, n: nat) -> Seq<u8> {
    Seq::new(n, |i: int| le_byte(v, i))
}

/// The little-endian value of two bytes.
pub open spec fn le2(b: Seq<u8>) -> int {
    b[0] as int + 256 * b[1] as int
}

/// The little-endian value of four bytes.
pub open spec fn le4(b: Seq<u8>) -> int {
    le2(b) + 65536 * le2(b.subrange(2, 4))
}

/// The little-endian value of eight bytes.
pub open spec fn le8(b: Seq<u8>) -> int {
    le4(b) + 0x1_0000_0000 * le4(b.subrange(4, 8))
}

/// The minimal `VarInt` encoding of `n`: one byte up to `0xfc`, else a
/// `0xfd`/`0xfe`/`0xff` marker followed by 2, 4 or 8 little-endian bytes.
pub open spec fn varint_bytes(n: u64) -> Seq<u8> {
    if n <= 0xfc {
        seq![n as u8]
    } else if n <= 0xffff {
        seq![0xfdu8] + le_bytes(n, 2)
    } else if n <= 0xffff_ffff {
        seq![0xfeu8] + le_bytes(n, 4)
    } else {
        seq![0xffu8] + le_bytes(n, 8)
    }
}

/// Reads a `VarInt` at the front of `b`: its value and the bytes it takes.
/// Non-minimal encodings are rejected.
pub open spec fn parse_varint(b: Seq<u8>) -> Option<(u64, nat)> {
    if b.len() == 0 {
        None
    } else if b[0] == 0xff {
        if b.len() < 9 || le8(b.subrange(1, 9)) < 0x1_0000_0000 {
            None
        } else {
            Some((le8(b.subrange(1, 9)) as u64, 9))
        }
    } else if b[0] == 0xfe {
        if b.len() < 5 || le4(b.subrange(1, 5)) < 0x10000 {
            None
        } else {
            Some((le4(b.subrange(1, 5)) as u64, 5))
        }
    } else if b[0] == 0xfd {
        if b.len() < 3 || le2(b.subrange(1, 3)) < 0xfd {
            None
        } else {
            Some((le2(b.subrange(1, 3)) as u64, 3))
        }
    } else {
        Some((b[0] as u64, 1))
    }
}

/// The wire form of a string: its UTF-8 byte count, then the bytes.
pub open spec fn str_wire(s: Seq<char>) -> Seq<u8> {
    varint_bytes(encode_utf8(s).len() as u64) + encode_utf8(s)
}

/// Reads a string at the front of `b`: the characters and the bytes taken.
pub open spec fn parse_str(b: Seq<u8>) -> Option<(Seq<char>, nat)> {
    match parse_varint(b) {
        None => None,
        Some((n, k)) => {
            if k + n > b.len() {
                None
            } else if !valid_utf8(b.subrange(k as int, k + n)) {
                None
            } else {
                Some((decode_utf8(b.subrange(k as int, k + n)), (k + n) as nat))
            }
        },
    }
}

/// The wire form of a boolean: one byte, 1 for true.
pub open spec fn bool_wire(v: bool) -> Seq<u8> {
    seq![if v { 1u8 } else { 0u8 }]
}

/// Reads a boolean at the front of `b`: any nonzero byte is true.
pub open spec fn parse_bool(b: Seq<u8>) -> Option<(bool, nat)> {
    if b.len() == 0 {
        None
    } else {
        Some((b[0] != 0, 1))
    }
}

/// The wire form of a `u64`: eight little-endian bytes.
pub open spec fn u64_wire(v: u64) -> Seq<u8> {
    le_bytes(v, 8)
}

/// Reads a `u64` at the front of `b`.
pub open spec fn parse_u64(b: Seq<u8>) -> Option<(u64, nat)> {
    if b.len() < 8 {
        None
    } else {
        Some((le8(b.subrange(0, 8)) as u64, 8))
    }
}

/// Reads a 32-byte array at the front of `b`.
pub open spec fn parse_bytes32(b: Seq<u8>) -> Option<(Seq<u8>, nat)> {
    if b.len() < 32 {
        None
    } else {
        Some((b.subrange(0, 32), 32))
    }
}

/// Encodes a string with darkfi_serial's `Encodable` impl for `&str`. Its
/// varint length prefix is written like the integers: the stated
/// little-endian form holds on little-endian targets.
#[verifier::external_body]
pub(crate) fn ser_str(s: &str) -> (r: Vec<u8>)
    ensures
        r@ == str_wire(s@),
{
    darkfi_serial::serialize(&s)
}

/// Encodes a boolean with darkfi_serial's `Encodable` impl for `bool`.
#[verifier::external_body]
pub(crate) fn ser_bool(v: bool) -> (r: Vec<u8>)
    ensures
        r@ == bool_wire(v),
{
    darkfi_serial::serialize(&v)
}

/// Encodes a `u64` with darkfi_serial's `Encodable` impl for `u64`, which
/// writes `to_le()` in the machine's byte order: the stated little-endian
/// form holds on little-endian targets.
#[verifier::external_body]
pub(crate) fn ser_u64(v: u64) -> (r: Vec<u8>)
    ensures
        r@ == u64_wire(v),
{
    darkfi_serial::serialize(&v)
}

/// Encodes a 32-byte array with darkfi_serial's `Encodable` impl for
/// `[u8; 32]` (each byte as itself, no length prefix).
#[verifier::external_body]
pub(crate) fn ser_bytes32(v: &[u8; 32]) -> (r: Vec<u8>)
    ensures
        r@ == v@,
{
    darkfi_serial::serialize(v)
}

/// Decodes a string at the front of `data` with darkfi_serial's
/// `deserialize_partial::<String>`, returning it with the bytes taken:
/// a varint length (read little-endian, as on little-endian targets), then
/// that many bytes of UTF-8. It fails exactly when
/// the bytes do not form a string; the room it reserves is at most
/// `data.len()` bytes, and that allocation is taken to succeed, as vstd's
/// own specifications of std's collections take theirs.
#[verifier::external_body]
pub(crate) fn de_str(data: &[u8]) -> (r: Option<(String, usize)>)
    ensures
        match r {
            Some((s, k)) => parse_str(data@) == Some((s@, k as nat)),
            None => parse_str(data@) is None,
        },
{
    darkfi_serial::deserialize_partial::<String>(data).ok()
}

/// Decodes a boolean at the front of `data` with darkfi_serial's
/// `deserialize_partial::<bool>`.
#[verifier::external_body]
pub(crate) fn de_bool(data: &[u8]) -> (r: Option<(bool, usize)>)
    ensures
        match r {
            Some((v, k)) => parse_bool(data@) == Some((v, k as nat)),
            None => parse_bool(data@) is None,
        },
{
    darkfi_serial::deserialize_partial::<bool>(data).ok()
}

/// Decodes a `u64` at the front of `data` with darkfi_serial's
/// `deserialize_partial::<u64>`, which reads the machine's byte order and
/// applies `from_le`: the stated little-endian reading holds on
/// little-endian targets.
#[verifier::external_body]
pub(crate) fn de_u64(data: &[u8]) -> (r: Option<(u64, usize)>)
    ensures
        match r {
            Some((v, k)) => parse_u64(data@) == Some((v, k as nat)),
            None => parse_u64(data@) is None,
        },
{
    darkfi_serial::deserialize_partial::<u64>(data).ok()
}

/// Decodes a 32-byte array at the front of `data` with darkfi_serial's
/// `deserialize_partial::<[u8; 32]>`.
#[verifier::external_body]
pub(crate) fn de_bytes32(data: &[u8]) -> (r: Option<([u8; 32], usize)>)
    ensures
        match r {
            Some((v, k)) => parse_bytes32(data@) == Some((v@, k as nat)),
            None => parse_bytes32(data@) is None,
        },
{
    darkfi_serial::deserialize_partial::<[u8; 32]>(data).ok()
}

/// Eight little-endian bytes give back the value they were taken from.
pub proof fn lemma_le8_roundtrip(v: u64)
    ensures
        le8(le_bytes(v, 8)) == v,
{
    let b = le_bytes(v, 8);
    assert(b.subrange(4, 8)[0] == b[4]);
    assert(b.subrange(4, 8)[1] == b[5]);
    assert(b.subrange(4, 8).subrange(2, 4)[0] == b[6]);
    assert(b.subrange(4, 8).subrange(2, 4)[1] == b[7]);
    assert(b.subrange(2, 4)[0] == b[2]);
    assert(b.subrange(2, 4)[1] == b[3]);
    let b0 = le_byte(v, 0);
    let b1 = le_byte(v, 1);
    let b2 = le_byte(v, 2);
    let b3 = le_byte(v, 3);
    let b4 = le_byte(v, 4);
    let b5 = le_byte(v, 5);
    let b6 = le_byte(v, 6);
    let b7 = le_byte(v, 7);
    assert(b0 as int + 256 * b1 as int + 65536 * (b2 as int + 256 * b3 as int) + 0x1_0000_0000 * (
    b4 as int + 256 * b5 as int + 65536 * (b6 as int + 256 * b7 as int)) == v) by (bit_vector)
        requires
            b0 == ((v >> 0u64) & 0xff) as u8,
            b1 == ((v >> 8u64) & 0xff) as u8,
            b2 == ((v >> 16u64) & 0xff) as u8,
            b3 == ((v >> 24u64) & 0xff) as u8,
            b4 == ((v >> 32u64) & 0xff) as u8,
            b5 == ((v >> 40u64) & 0xff) as u8,
            b6 == ((v >> 48u64) & 0xff) as u8,
            b7 == ((v >> 56u64) & 0xff) as u8,
    ;
}

/// Two low bytes give back a value below 2^16.
pub proof fn lemma_le2_roundtrip(v: u64)
    requires
        v <= 0xffff,
    ensures
        le2(le_bytes(v, 2)) == v,
{
    let b0 = le_byte(v, 0);
    let b1 = le_byte(v, 1);
    assert(b0 as int + 256 * b1 as int == v) by (bit_vector)
        requires
            v <= 0xffff,
            b0 == ((v >> 0u64) & 0xff) as u8,
            b1 == ((v >> 8u64) & 0xff) as u8,
    ;
}

/// Four low bytes give back a value below 2^32.
pub proof fn lemma_le4_roundtrip(v: u64)
    requires
        v <= 0xffff_ffff,
    ensures
        le4(le_bytes(v, 4)) == v,
{
    let b = le_bytes(v, 4);
    assert(b.subrange(2, 4)[0] == b[2]);
    assert(b.subrange(2, 4)[1] == b[3]);
    let b0 = le_byte(v, 0);
    let b1 = le_byte(v, 1);
    let b2 = le_byte(v, 2);
    let b3 = le_byte(v, 3);
    assert(b0 as int + 256 * b1 as int + 65536 * (b2 as int + 256 * b3 as int) == v) by (bit_vector)
        requires
            v <= 0xffff_ffff,
            b0 == ((v >> 0u64) & 0xff) as u8,
            b1 == ((v >> 8u64) & 0xff) as u8,
            b2 == ((v >> 16u64) & 0xff) as u8,
            b3 == ((v >> 24u64) & 0xff) as u8,
    ;
}

/// A `VarInt` reads back as the value it encodes, whatever follows it.
pub proof fn lemma_varint_roundtrip(n: u64, rest: Seq<u8>)
    ensures
        parse_varint(varint_bytes(n) + rest) == Some((n, varint_bytes(n).len())),
{
    let b = varint_bytes(n) + rest;
    if n <= 0xfc {
    } else if n <= 0xffff {
        lemma_le2_roundtrip(n);
        assert(b.subrange(1, 3) =~= le_bytes(n, 2));
    } else if n <= 0xffff_ffff {
        lemma_le4_roundtrip(n);
        assert(b.subrange(1, 5) =~= le_bytes(n, 4));
    } else {
        lemma_le8_roundtrip(n);
        assert(b.subrange(1, 9) =~= le_bytes(n, 8));
    }
}

/// A string reads back as itself, whatever follows it.
pub proof fn lemma_str_roundtrip(s: Seq<char>, rest: Seq<u8>)
    requires
        encode_utf8(s).len() <= u64::MAX,
    ensures
        parse_str(str_wire(s) + rest) == Some((s, str_wire(s).len())),
{
    let e = encode_utf8(s);
    let v = varint_bytes(e.len() as u64);
    let b = str_wire(s) + rest;
    assert(b =~= v + (e + rest));
    lemma_varint_roundtrip(e.len() as u64, e + rest);
    assert(b.subrange(v.len() as int, (v.len() + e.len()) as int) =~= e);
    encode_utf8_valid_utf8(s);
    encode_utf8_decode_utf8(s);
}

/// A `u64` reads back as itself, whatever follows it.
pub proof fn lemma_u64_roundtrip(v: u64, rest: Seq<u8>)
    ensures
        parse_u64(u64_wire(v) + rest) == Some((v, 8nat)),
{
    lemma_le8_roundtrip(v);
    assert((u64_wire(v) + rest).subrange(0, 8) =~= le_bytes(v, 8));
}

/// A boolean reads back as itself, whatever follows it.
pub proof fn lemma_bool_roundtrip(v: bool, rest: Seq<u8>)
    ensures
        parse_bool(bool_wire(v) + rest) == Some((v, 1nat)),
{
}

/// A 32-byte array reads back as itself, whatever follows it.
pub proof fn lemma_bytes32_roundtrip(v: Seq<u8>, rest: Seq<u8>)
    requires
        v.len() == 32,
    ensures
        parse_bytes32(v + rest) == Some((v, 32nat)),
{
    assert((v + rest).subrange(0, 32) =~= v);
}

} // verus!
