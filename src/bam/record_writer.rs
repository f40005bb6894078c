//! Writing the fixed fields of a BAM record.

use vstd::prelude::*;

use crate::bgzf::le32_bytes;

verus! {

/// The reference sequence ID written for an unmapped record.
pub const UNMAPPED: i32 = -1;

/// The mapping quality written when it is missing.
pub const MISSING_MAPPING_QUALITY: u8 = 255;

/// An error when a record field cannot be written.
#[derive(Clone, Copy, Debug, PartialEq, Eq, Structural)]
pub enum EncodeError {
    /// The read name, with its NUL, is longer than 255 bytes.
    InvalidReadNameLength,
}

/// The four little-endian bytes of `n` in two's complement.
pub open spec fn i32_bytes(n: i32) -> Seq<u8> {
    le32_bytes((n as int % 0x1_0000_0000) as nat)
}

fn write_i32(dst: &mut Vec<u8>, n: i32)
    ensures
        final(dst)@ == old(dst)@ + i32_bytes(n),
{
    let u: u32 = if n < 0 {
        (n as i64 + 0x1_0000_0000) as u32
    } else {
        n as u32
    };
    assert(u as int == n as int % 0x1_0000_0000);
    write_u32(dst, u);
}

fn write_u32(dst: &mut Vec<u8>, v: u32)
    ensures
        final(dst)@ == old(dst)@ + le32_bytes(v as nat),
{
    dst.push((v % 256) as u8);
    dst.push((v / 256 % 256) as u8);
    dst.push((v / 65536 % 256) as u8);
    dst.push((v / 16777216) as u8);
    assert(dst@ =~= old(dst)@ + le32_bytes(v as nat));
}

/// Writes `l_read_name`: the length of the read name plus its NUL.
pub fn write_l_read_name(dst: &mut Vec<u8>, read_name: &[u8]) -> (r: Result<(), EncodeError>)
    ensures
        read_name@.len() < 255 ==> r is Ok && final(dst)@ == old(dst)@.push(
            (read_name@.len() + 1) as u8,
        ),
        read_name@.len() >= 255 ==> r == Err::<(), EncodeError>(
            EncodeError::InvalidReadNameLength,
        ) && final(dst)@ == old(dst)@,
{
    if read_name.len() >= 255 {
        return Err(EncodeError::InvalidReadNameLength);
    }
    dst.push((read_name.len() + 1) as u8);
    Ok(())
}

/// Writes the read name and its NUL.
pub fn write_read_name(dst: &mut Vec<u8>, read_name: &[u8])
    ensures
        final(dst)@ == old(dst)@ + read_name@ + seq![0u8],
{
    let mut i: usize = 0;
    while i < read_name.len()
        invariant
            i <= read_name@.len(),
            dst@ == old(dst)@ + read_name@.take(i as int),
        decreases read_name@.len() - i,
    {
        dst.push(read_name[i]);
        i += 1;
        assert(dst@ =~= old(dst)@ + read_name@.take(i as int));
    }
    dst.push(0);
    assert(dst@ =~= old(dst)@ + read_name@ + seq![0u8]);
}

/// Writes a reference sequence ID, or -1 when there is none.
pub fn write_reference_sequence_id(dst: &mut Vec<u8>, reference_sequence_id: Option<i32>)
    ensures
        final(dst)@ == old(dst)@ + i32_bytes(
            match reference_sequence_id {
                Some(id) => id,
                None => UNMAPPED,
            },
        ),
{
    let ref_id = match reference_sequence_id {
        Some(id) => id,
        None => UNMAPPED,
    };
    write_i32(dst, ref_id)
}

/// Writes a 0-based position.
pub fn write_position(dst: &mut Vec<u8>, pos: i32)
    ensures
        final(dst)@ == old(dst)@ + i32_bytes(pos),
{
    write_i32(dst, pos)
}

/// Writes a mapping quality, or 255 when it is missing.
pub fn write_mapping_quality(dst: &mut Vec<u8>, mapping_quality: Option<u8>)
    ensures
        final(dst)@ == old(dst)@.push(
            match mapping_quality {
                Some(q) => q,
                None => MISSING_MAPPING_QUALITY,
            },
        ),
{
    let mapq = match mapping_quality {
        Some(q) => q,
        None => MISSING_MAPPING_QUALITY,
    };
    dst.push(mapq)
}

/// The little-endian bytes of each raw CIGAR operation.
pub open spec fn cigar_bytes(ops: Seq<u32>) -> Seq<u8>
    decreases ops.len(),
{
    if ops.len() == 0 {
        Seq::empty()
    } else {
        cigar_bytes(ops.drop_last()) + le32_bytes(ops.last() as nat)
    }
}

/// Writes raw CIGAR operations (`len << 4 | kind`).
pub fn write_cigar(dst: &mut Vec<u8>, cigar: &[u32])
    ensures
        final(dst)@ == old(dst)@ + cigar_bytes(cigar@),
{
    let mut i: usize = 0;
    while i < cigar.len()
        invariant
            i <= cigar@.len(),
            dst@ == old(dst)@ + cigar_bytes(cigar@.take(i as int)),
        decreases cigar@.len() - i,
    {
        write_u32(dst, cigar[i]);
        proof {
            assert(cigar@.take(i + 1).drop_last() =~= cigar@.take(i as int));
        }
        i += 1;
        assert(dst@ =~= old(dst)@ + cigar_bytes(cigar@.take(i as int)));
    }
    assert(cigar@.take(cigar@.len() as int) =~= cigar@);
}

} // verus!
