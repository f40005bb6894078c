//! Decoding the 4-bit packed bases of a BAM record sequence.

use vstd::prelude::*;

use crate::cursor::{le32, read_u32_le, read_exact};

verus! {

/// A BAM sequence base (IUPAC code, or `=` for a reference match).
#[derive(Clone, Copy, Debug, PartialEq, Eq, Structural)]
pub enum Base {
    Eq,
    A,
    C,
    M,
    G,
    R,
    S,
    V,
    T,
    W,
    Y,
    H,
    K,
    D,
    B,
    N,
}

/// An error when a raw BAM record sequence fails to parse.
#[derive(Clone, Copy, Debug, PartialEq, Eq, Structural)]
pub enum DecodeError {
    /// Unexpected EOF.
    UnexpectedEof,
    /// The length is invalid.
    InvalidLength,
}

/// The base of a 4-bit code.
pub open spec fn base_of(code: u8) -> Base {
    match code {
        0 => Base::Eq,
        1 => Base::A,
        2 => Base::C,
        3 => Base::M,
        4 => Base::G,
        5 => Base::R,
        6 => Base::S,
        7 => Base::V,
        8 => Base::T,
        9 => Base::W,
        10 => Base::Y,
        11 => Base::H,
        12 => Base::K,
        13 => Base::D,
        14 => Base::B,
        _ => Base::N,
    }
}

/// The base of the low four bits of `n`.
pub fn decode_base(n: u8) -> (b: Base)
    ensures
        b == base_of(n % 16),
{
    let code = n & 0x0f;
    assert(code == n % 16 && code < 16) by (bit_vector)
        requires
            code == n & 0x0f,
    ;
    match code {
        0 => Base::Eq,
        1 => Base::A,
        2 => Base::C,
        3 => Base::M,
        4 => Base::G,
        5 => Base::R,
        6 => Base::S,
        7 => Base::V,
        8 => Base::T,
        9 => Base::W,
        10 => Base::Y,
        11 => Base::H,
        12 => Base::K,
        13 => Base::D,
        14 => Base::B,
        _ => Base::N,
    }
}

/// Reads the little-endian 32-bit length of a sequence.
pub fn get_length(src: &mut &[u8]) -> (r: Result<usize, DecodeError>)
    ensures
        old(src)@.len() < 4 ==> r == Err::<usize, DecodeError>(DecodeError::UnexpectedEof),
        old(src)@.len() >= 4 ==> r == Ok::<usize, DecodeError>(le32(old(src)@) as usize)
            && final(src)@ == old(src)@.skip(4),
{
    match read_u32_le(src) {
        Some(n) => Ok(n as usize),
        None => Err(DecodeError::UnexpectedEof),
    }
}

/// Base `i` of a packed sequence: the high nibble of byte `i / 2` for even
/// `i`, the low nibble for odd `i`.
pub open spec fn packed_base(src: Seq<u8>, i: int) -> Base {
    let b = src[i / 2];
    if i % 2 == 0 {
        base_of(b / 16)
    } else {
        base_of(b % 16)
    }
}

/// Reads `l_seq` packed bases, two per byte, into `sequence`.
pub fn get_sequence(src: &mut &[u8], sequence: &mut Vec<Base>, l_seq: usize) -> (r: Result<
    (),
    DecodeError,
>)
    ensures
        old(src)@.len() < l_seq / 2 + l_seq % 2 ==> r == Err::<(), DecodeError>(
            DecodeError::UnexpectedEof,
        ) && final(src)@ == old(src)@ && final(sequence)@ == old(sequence)@,
        old(src)@.len() >= l_seq / 2 + l_seq % 2 ==> {
            &&& r is Ok
            &&& final(src)@ == old(src)@.skip(l_seq / 2 + l_seq % 2)
            &&& final(sequence)@ == Seq::new(l_seq as nat, |i: int| packed_base(old(src)@, i))
        },
{
    let seq_len = l_seq / 2 + l_seq % 2;
    let ghost s0 = src@;
    let bytes = match read_exact(src, seq_len) {
        Some(b) => b,
        None => return Err(DecodeError::UnexpectedEof),
    };
    sequence.clear();
    let mut i: usize = 0;
    while i < l_seq
        invariant
            i <= l_seq,
            seq_len == l_seq / 2 + l_seq % 2,
            bytes@ == s0.take(seq_len as int),
            s0.len() >= seq_len,
            sequence@ == Seq::new(i as nat, |k: int| packed_base(s0, k)),
        decreases l_seq - i,
    {
        let b = bytes[i / 2];
        let n = if i % 2 == 0 {
            b >> 4
        } else {
            b
        };
        let base = decode_base(n);
        proof {
            assert(b >> 4 == b / 16) by (bit_vector);
            assert((b / 16) % 16 == b / 16);
        }
        sequence.push(base);
        assert(sequence@ =~= Seq::new((i + 1) as nat, |k: int| packed_base(s0, k)));
        i += 1;
    }
    Ok(())
}

} // verus!
