use noodles_codec::rans_nx16::model::{
    rans_advance_step_nx16, rans_get_cumulative_freq_nx16, rans_renorm_nx16,
};
use noodles_codec::rans_nx16::{pack, rle, DecodeError};

#[test]
fn test_unpack_two_bit_codes() -> Result<(), DecodeError> {
    // Codes 0, 1, 2, 1 packed low bits first.
    let src = [0b01_10_01_00];
    assert_eq!(pack::decode(&src, b"xyz", 4)?, b"xyzy");
    Ok(())
}

#[test]
fn test_unpack_one_bit_and_four_bit_codes() -> Result<(), DecodeError> {
    assert_eq!(pack::decode(&[0b1010_0110], b"ab", 8)?, b"abbaabab");
    assert_eq!(pack::decode(&[0x21, 0x04], b"abcde", 3)?, b"bce");
    Ok(())
}

#[test]
fn test_unpack_single_symbol() -> Result<(), DecodeError> {
    assert_eq!(pack::decode(&[], b"q", 3)?, b"qqq");
    Ok(())
}

#[test]
fn test_unpack_errors() {
    // Code 3 has no symbol in a three-symbol table.
    assert_eq!(pack::decode(&[0b11], b"abc", 1), Err(DecodeError::InvalidData));
    // Five codes of two bits need two bytes.
    assert_eq!(pack::decode(&[0x00], b"abc", 5), Err(DecodeError::InvalidData));
    assert_eq!(pack::decode(&[0x00], b"", 1), Err(DecodeError::InvalidData));
    assert_eq!(
        pack::decode(&[0x00], &[0u8; 17], 1),
        Err(DecodeError::InvalidData)
    );
}

fn flags_for(symbols: &[u8]) -> Vec<bool> {
    let mut l = vec![false; 256];
    for &s in symbols {
        l[usize::from(s)] = true;
    }
    l
}

#[test]
fn test_unrle_expands_flagged_runs() -> Result<(), DecodeError> {
    let l = flags_for(b"o");
    let mut meta = &[0x02, 0x00][..];
    assert_eq!(rle::decode(b"nod", &l, &mut meta, 5)?, b"noood");
    Ok(())
}

#[test]
fn test_unrle_copies_unflagged_symbols() -> Result<(), DecodeError> {
    let l = flags_for(b"");
    let mut meta = &[][..];
    assert_eq!(rle::decode(b"noodles", &l, &mut meta, 7)?, b"noodles");
    Ok(())
}

#[test]
fn test_unrle_length_errors() {
    let l = flags_for(b"o");
    let mut meta = &[0x05][..];
    assert_eq!(rle::decode(b"no", &l, &mut meta, 4), Err(DecodeError::InvalidData));
    let mut meta = &[0x00][..];
    assert_eq!(rle::decode(b"no", &l, &mut meta, 4), Err(DecodeError::InvalidData));
    let mut meta = &[][..];
    assert_eq!(rle::decode(b"no", &l, &mut meta, 4), Err(DecodeError::UnexpectedEof));
}

#[test]
fn test_lane_arithmetic() {
    assert_eq!(rans_get_cumulative_freq_nx16(0x0001_2345, 12), 0x345);
    // 512 * (0x00202600 >> 12) + 0x600 - 1536
    assert_eq!(rans_advance_step_nx16(0x0020_2600, 1536, 512, 12), 512 * 0x202);
}

#[test]
fn test_renorm() {
    let mut src = &[0x34, 0x12, 0xff][..];
    assert_eq!(rans_renorm_nx16(&mut src, 0x10), Ok(0x0010_1234));
    assert_eq!(src, &[0xff]);

    let mut src = &[0x34][..];
    assert_eq!(rans_renorm_nx16(&mut src, 0x8000), Ok(0x8000));
    assert_eq!(rans_renorm_nx16(&mut src, 0x7fff), Err(DecodeError::UnexpectedEof));
}

fn push_uint7(dst: &mut Vec<u8>, mut n: u32) {
    let mut groups = vec![(n & 0x7f) as u8];
    n >>= 7;
    while n > 0 {
        groups.push((n & 0x7f) as u8 | 0x80);
        n >>= 7;
    }
    groups.reverse();
    dst.extend(groups);
}

fn rle_encode(data: &[u8], l: &[bool]) -> (Vec<u8>, Vec<u8>) {
    let mut symbols = Vec::new();
    let mut meta = Vec::new();
    let mut i = 0;
    while i < data.len() {
        let s = data[i];
        let mut j = i + 1;
        if l[usize::from(s)] {
            while j < data.len() && data[j] == s {
                j += 1;
            }
            push_uint7(&mut meta, (j - i - 1) as u32);
        }
        symbols.push(s);
        i = j;
    }
    (symbols, meta)
}

#[test]
fn test_unrle_round_trip() -> Result<(), DecodeError> {
    let mut data = b"noooooooodles".to_vec();
    data.extend(std::iter::repeat(b'-').take(300));
    data.extend_from_slice(b"zz");
    let l = flags_for(b"o-");
    let (symbols, meta) = rle_encode(&data, &l);
    assert_eq!(symbols, b"nodles-zz");
    let mut meta_reader = &meta[..];
    assert_eq!(rle::decode(&symbols, &l, &mut meta_reader, data.len())?, data);
    Ok(())
}
