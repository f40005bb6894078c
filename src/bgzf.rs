//! BGZF block framing: the gzip member header with its `BC` extra field
//! holding the block size, and the CRC-32 and length trailer.

use vstd::prelude::*;

verus! {

/// An error when a block cannot be framed.
#[derive(Clone, Copy, Debug, PartialEq, Eq, Structural)]
pub enum EncodeError {
    /// The block size is 0 or above 65536.
    InvalidBlockSize,
    /// The uncompressed length does not fit 32 bits.
    InvalidUncompressedLength,
}

/// The two little-endian bytes of `v`.
pub open spec fn le16_bytes(v: nat) -> Seq<u8> {
    seq![(v % 256) as u8, (v / 256 % 256) as u8]
}

/// The four little-endian bytes of `v`.
pub open spec fn le32_bytes(v: nat) -> Seq<u8> {
    seq![(v % 256) as u8, (v / 256 % 256) as u8, (v / 65536 % 256) as u8, (v / 16777216 % 256) as u8]
}

/// The 18-byte BGZF header of a block of `block_size` bytes in all: gzip
/// magic, deflate, FEXTRA, no mtime, no extra flags, unknown OS, a 6-byte
/// extra field `BC` of length 2 holding `block_size - 1`.
pub open spec fn header_bytes(block_size: nat) -> Seq<u8> {
    seq![0x1fu8, 0x8bu8, 0x08u8, 0x04u8, 0u8, 0u8, 0u8, 0u8, 0u8, 0xffu8]
        + le16_bytes(6)
        + seq![0x42u8, 0x43u8]
        + le16_bytes(2)
        + le16_bytes((block_size - 1) as nat)
}

fn put_u16_le(dst: &mut Vec<u8>, v: u16)
    ensures
        final(dst)@ == old(dst)@ + le16_bytes(v as nat),
{
    dst.push((v % 256) as u8);
    dst.push((v / 256) as u8);
    assert(dst@ =~= old(dst)@ + le16_bytes(v as nat));
}

fn put_u32_le(dst: &mut Vec<u8>, v: u32)
    ensures
        final(dst)@ == old(dst)@ + le32_bytes(v as nat),
{
    dst.push((v % 256) as u8);
    dst.push((v / 256 % 256) as u8);
    dst.push((v / 65536 % 256) as u8);
    dst.push((v / 16777216) as u8);
    assert(dst@ =~= old(dst)@ + le32_bytes(v as nat));
}

/// Appends the header of a block of `block_size` bytes (header, deflated
/// data and trailer together).
pub fn put_header(dst: &mut Vec<u8>, block_size: usize) -> (r: Result<(), EncodeError>)
    ensures
        1 <= block_size <= 65536 ==> r is Ok && final(dst)@ == old(dst)@ + header_bytes(
            block_size as nat,
        ),
        !(1 <= block_size <= 65536) ==> r == Err::<(), EncodeError>(EncodeError::InvalidBlockSize)
            && final(dst)@ == old(dst)@,
{
    if block_size == 0 || block_size - 1 > 0xffff {
        return Err(EncodeError::InvalidBlockSize);
    }
    let bsize = (block_size - 1) as u16;
    dst.push(0x1f);
    dst.push(0x8b);
    dst.push(0x08);
    dst.push(0x04);
    put_u32_le(dst, 0);
    dst.push(0x00);
    dst.push(0xff);
    put_u16_le(dst, 6);
    dst.push(0x42);
    dst.push(0x43);
    put_u16_le(dst, 2);
    put_u16_le(dst, bsize);
    assert(dst@ =~= old(dst)@ + header_bytes(block_size as nat));
    Ok(())
}

/// Appends the trailer: the CRC-32 of the uncompressed data and its length.
pub fn put_trailer(dst: &mut Vec<u8>, crc32: u32, uncompressed_len: usize) -> (r: Result<
    (),
    EncodeError,
>)
    ensures
        uncompressed_len <= u32::MAX ==> r is Ok && final(dst)@ == old(dst)@ + le32_bytes(
            crc32 as nat,
        ) + le32_bytes(uncompressed_len as nat),
        uncompressed_len > u32::MAX ==> r == Err::<(), EncodeError>(
            EncodeError::InvalidUncompressedLength,
        ),
{
    put_u32_le(dst, crc32);
    if uncompressed_len > 0xffff_ffff {
        return Err(EncodeError::InvalidUncompressedLength);
    }
    put_u32_le(dst, uncompressed_len as u32);
    Ok(())
}

} // verus!
