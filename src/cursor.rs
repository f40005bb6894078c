//! Reading little-endian integers and variable-length integers from a byte
//! slice that is consumed from the front.

use vstd::prelude::*;

verus! {

/// The value of two little-endian bytes.
pub open spec fn le16(b: Seq<u8>) -> int {
    b[0] + 256 * b[1]
}

/// The value of four little-endian bytes.
pub open spec fn le32(b: Seq<u8>) -> int {
    b[0] + 256 * b[1] + 65536 * b[2] + 16777216 * b[3]
}

/// One step of the base-128 integer: the accumulator keeps its low 25 bits,
/// is shifted up by seven, and takes the low seven bits of the byte.
pub open spec fn uint7_push(acc: u32, b: u8) -> u32 {
    ((acc % 0x0200_0000) * 128 + b % 128) as u32
}

/// A base-128 integer, most significant group first; a byte with its high
/// bit set is followed by another. Returns the value and the unread bytes.
pub open spec fn uint7_from(src: Seq<u8>, acc: u32) -> Option<(u32, Seq<u8>)>
    decreases src.len(),
{
    if src.len() == 0 {
        None
    } else {
        let v = uint7_push(acc, src[0]);
        if src[0] < 128 {
            Some((v, src.skip(1)))
        } else {
            uint7_from(src.skip(1), v)
        }
    }
}

pub open spec fn uint7(src: Seq<u8>) -> Option<(u32, Seq<u8>)> {
    uint7_from(src, 0)
}

/// Reads one byte.
pub fn read_u8<'a>(src: &mut &'a [u8]) -> (r: Option<u8>)
    ensures
        old(src)@.len() == 0 ==> r is None,
        old(src)@.len() > 0 ==> r == Some(old(src)@[0]) && final(src)@ == old(src)@.skip(1),
{
    let s: &'a [u8] = *src;
    if s.len() == 0 {
        None
    } else {
        let b = s[0];
        let (_, rest) = s.split_at(1);
        *src = rest;
        Some(b)
    }
}

/// Reads a little-endian 16-bit integer.
pub fn read_u16_le<'a>(src: &mut &'a [u8]) -> (r: Option<u16>)
    ensures
        old(src)@.len() < 2 ==> r is None,
        old(src)@.len() >= 2 ==> (r matches Some(v) && v == le16(old(src)@)
            && final(src)@ == old(src)@.skip(2)),
{
    let s: &'a [u8] = *src;
    if s.len() < 2 {
        None
    } else {
        let v = s[0] as u16 + 256 * (s[1] as u16);
        let (_, rest) = s.split_at(2);
        *src = rest;
        Some(v)
    }
}

/// Reads a little-endian 32-bit integer.
pub fn read_u32_le<'a>(src: &mut &'a [u8]) -> (r: Option<u32>)
    ensures
        old(src)@.len() < 4 ==> r is None,
        old(src)@.len() >= 4 ==> (r matches Some(v) && v == le32(old(src)@)
            && final(src)@ == old(src)@.skip(4)),
{
    let s: &'a [u8] = *src;
    if s.len() < 4 {
        None
    } else {
        let v = s[0] as u32 + 256 * (s[1] as u32) + 65536 * (s[2] as u32) + 16777216 * (
        s[3] as u32);
        let (_, rest) = s.split_at(4);
        *src = rest;
        Some(v)
    }
}

/// Takes the next `n` bytes.
pub fn read_exact<'a>(src: &mut &'a [u8], n: usize) -> (r: Option<&'a [u8]>)
    ensures
        old(src)@.len() < n ==> r is None && final(src)@ == old(src)@,
        old(src)@.len() >= n ==> (r matches Some(b) && b@ == old(src)@.take(n as int)
            && final(src)@ == old(src)@.skip(n as int)),
{
    let s: &'a [u8] = *src;
    if s.len() < n {
        None
    } else {
        let (head, rest) = s.split_at(n);
        *src = rest;
        Some(head)
    }
}

/// Reads a base-128 integer.
pub fn read_uint7<'a>(src: &mut &'a [u8]) -> (r: Option<u32>)
    ensures
        match uint7(old(src)@) {
            Some((v, rest)) => r == Some(v) && final(src)@ == rest,
            None => r is None,
        },
{
    let mut n: u32 = 0;
    loop
        invariant
            uint7_from(src@, n) == uint7(old(src)@),
        decreases src@.len(),
    {
        let s: &'a [u8] = *src;
        if s.len() == 0 {
            return None;
        }
        let b = s[0];
        let (_, rest) = s.split_at(1);
        *src = rest;
        n = (n % 0x0200_0000) * 128 + (b % 128) as u32;
        if b < 128 {
            return Some(n);
        }
    }
}

/// What follows a base-128 integer is shorter than the input.
pub proof fn lemma_uint7_shorter(src: Seq<u8>, acc: u32)
    ensures
        uint7_from(src, acc) matches Some((v, rest)) ==> rest.len() < src.len(),
    decreases src.len(),
{
    if src.len() > 0 && src[0] >= 128 {
        lemma_uint7_shorter(src.skip(1), uint7_push(acc, src[0]));
    }
}

/// The base-128 groups of `v` above its last one, each with its high bit set.
pub open spec fn uint7_high_bytes(v: nat) -> Seq<u8>
    decreases v,
{
    if v < 128 {
        seq![(v + 128) as u8]
    } else {
        uint7_high_bytes(v / 128) + seq![(v % 128 + 128) as u8]
    }
}

/// The base-128 encoding of `v`, most significant group first.
pub open spec fn uint7_bytes(v: nat) -> Seq<u8> {
    if v < 128 {
        seq![v as u8]
    } else {
        uint7_high_bytes(v / 128) + seq![(v % 128) as u8]
    }
}

proof fn lemma_uint7_high(w: nat, tail: Seq<u8>)
    requires
        w < 0x0200_0000,
    ensures
        uint7_from(uint7_high_bytes(w) + tail, 0) == uint7_from(tail, w as u32),
    decreases w,
{
    if w < 128 {
        assert((seq![(w + 128) as u8] + tail).skip(1) =~= tail);
    } else {
        let last = seq![(w % 128 + 128) as u8];
        lemma_uint7_high(w / 128, last + tail);
        assert(uint7_high_bytes(w / 128) + (last + tail) =~= uint7_high_bytes(w) + tail);
        assert((last + tail).skip(1) =~= tail);
        assert(uint7_push((w / 128) as u32, (w % 128 + 128) as u8) == w);
    }
}

/// Reading the base-128 encoding of a 32-bit value gives the value back.
pub proof fn lemma_uint7_round_trip(v: u32, rest: Seq<u8>)
    ensures
        uint7(uint7_bytes(v as nat) + rest) == Some((v, rest)),
{
    let n = v as nat;
    if n < 128 {
        assert((seq![v as u8] + rest).skip(1) =~= rest);
    } else {
        let last = seq![(n % 128) as u8];
        lemma_uint7_high(n / 128, last + rest);
        assert(uint7_high_bytes(n / 128) + (last + rest) =~= uint7_bytes(n) + rest);
        assert((last + rest).skip(1) =~= rest);
        assert(uint7_push((n / 128) as u32, (n % 128) as u8) == v);
    }
}

} // verus!
