use noodles_codec::rans_nx16::{decode, decode_pack_meta, DecodeError};

#[test]
fn test_decode_order_0() -> Result<(), DecodeError> {
    let data = [
        0x00, // flags = {empty}
        0x07, // uncompressed len = 7
        0x64, 0x65, 0x00, 0x6c, 0x6e, 0x6f, 0x00, 0x73, 0x00, 0x01, 0x01, 0x01, 0x01, 0x03,
        0x01, 0x00, 0x26, 0x20, 0x00, 0x00, 0xb8, 0x0a, 0x00, 0x00, 0xd8, 0x0a, 0x00, 0x00,
        0x00, 0x04, 0x00,
    ];
    let mut reader = &data[..];

    assert_eq!(decode(&mut reader, 0)?, b"noodles");

    Ok(())
}

#[test]
fn test_decode_order_1() -> Result<(), DecodeError> {
    let data = [
        0x01, // flags = ORDER
        0x07, // uncompressed len = 7
        0xc0, 0x00, 0x64, 0x65, 0x00, 0x6c, 0x6e, 0x6f, 0x00, 0x73, 0x00, 0x00, 0x00, 0x01,
        0x00, 0x01, 0x01, 0x02, 0x00, 0x00, 0x00, 0x02, 0x01, 0x00, 0x02, 0x00, 0x05, 0x01,
        0x00, 0x01, 0x01, 0x00, 0x03, 0x00, 0x04, 0x01, 0x00, 0x00, 0x00, 0x00, 0x01, 0x00,
        0x02, 0x01, 0x00, 0x00, 0x01, 0x00, 0x05, 0x00, 0x04, 0x02, 0x00, 0x00, 0x08, 0x01,
        0x00, 0x00, 0x08, 0x01, 0x00, 0x00, 0x00, 0x02, 0x00,
    ];

    let mut reader = &data[..];
    assert_eq!(decode(&mut reader, 0)?, b"noodles");

    Ok(())
}

#[test]
fn test_decode_stripe() -> Result<(), DecodeError> {
    let data = [
        0x08, // flags = STRIPE
        0x07, // uncompressed len = 7
        0x04, 0x17, 0x17, 0x17, 0x15, 0x00, 0x02, 0x6c, 0x6e, 0x00, 0x01, 0x01, 0x00, 0x08,
        0x01, 0x00, 0x00, 0x00, 0x01, 0x00, 0x00, 0x80, 0x00, 0x00, 0x00, 0x80, 0x00, 0x00,
        0x00, 0x02, 0x65, 0x6f, 0x00, 0x01, 0x01, 0x00, 0x08, 0x01, 0x00, 0x00, 0x00, 0x01,
        0x00, 0x00, 0x80, 0x00, 0x00, 0x00, 0x80, 0x00, 0x00, 0x00, 0x02, 0x6f, 0x73, 0x00,
        0x01, 0x01, 0x00, 0x00, 0x01, 0x00, 0x00, 0x08, 0x01, 0x00, 0x00, 0x80, 0x00, 0x00,
        0x00, 0x80, 0x00, 0x00, 0x00, 0x01, 0x64, 0x00, 0x01, 0x00, 0x80, 0x00, 0x00, 0x00,
        0x80, 0x00, 0x00, 0x00, 0x80, 0x00, 0x00, 0x00, 0x80, 0x00, 0x00, 0x00, 0x02, 0x00,
        0x00, 0x00, 0x00, 0x00, 0x00, 0x00, 0x22, 0x00, 0x81, 0x11, 0x01, 0x7f, 0x00,
    ];

    let mut reader = &data[..];
    assert_eq!(decode(&mut reader, 0)?, b"noodles");

    Ok(())
}

#[test]
fn test_decode_uncompressed() -> Result<(), DecodeError> {
    let data = [
        0x20, // flags = CAT
        0x07, // uncompressed len = 7
        0x6e, 0x6f, 0x6f, 0x64, 0x6c, 0x65, 0x73,
    ];

    let mut reader = &data[..];
    assert_eq!(decode(&mut reader, 0)?, b"noodles");

    Ok(())
}

#[test]
fn test_decode_rle() -> Result<(), DecodeError> {
    let data = [
        0x40, // flags = RLE
        0x0d, // uncompressed len = 13
        0x06, 0x06, 0x17, 0x01, 0x07, 0x6f, 0x00, 0x02, 0x01, 0x01, 0x00, 0x00, 0x01, 0x00,
        0x00, 0x0c, 0x02, 0x00, 0x00, 0x08, 0x02, 0x00, 0x00, 0x80, 0x00, 0x00, 0x64, 0x65,
        0x00, 0x6c, 0x6e, 0x6f, 0x00, 0x73, 0x00, 0x03, 0x01, 0x01, 0x01, 0x01, 0x01, 0x00,
        0x3a, 0x20, 0x00, 0x00, 0x7c, 0x20, 0x00, 0x00, 0x52, 0x01, 0x00, 0x00, 0x08, 0x04,
        0x00,
    ];

    let mut reader = &data[..];
    assert_eq!(decode(&mut reader, 0)?, b"noooooooodles");

    Ok(())
}

#[test]
fn test_decode_bit_packing_with_6_symbols() -> Result<(), DecodeError> {
    let data = [
        0x80, // flags = PACK
        0x07, // uncompressed len = 7
        0x06, 0x64, 0x65, 0x6c, 0x6e, 0x6f, 0x73, 0x04, 0x04, 0x05, 0x00, 0x12, 0x43, 0x00,
        0x01, 0x01, 0x01, 0x01, 0x00, 0x0c, 0x02, 0x00, 0x00, 0x00, 0x02, 0x00, 0x00, 0x08,
        0x02, 0x00, 0x00, 0x04, 0x02, 0x00,
    ];

    let mut reader = &data[..];
    assert_eq!(decode(&mut reader, 0)?, b"noodles");

    Ok(())
}

const ORDER_0: [u8; 33] = [
    0x00, 0x07, 0x64, 0x65, 0x00, 0x6c, 0x6e, 0x6f, 0x00, 0x73, 0x00, 0x01, 0x01, 0x01, 0x01,
    0x03, 0x01, 0x00, 0x26, 0x20, 0x00, 0x00, 0xb8, 0x0a, 0x00, 0x00, 0xd8, 0x0a, 0x00, 0x00,
    0x00, 0x04, 0x00,
];

const PACKED: [u8; 36] = [
    0x80, 0x07, 0x06, 0x64, 0x65, 0x6c, 0x6e, 0x6f, 0x73, 0x04, 0x04, 0x05, 0x00, 0x12, 0x43,
    0x00, 0x01, 0x01, 0x01, 0x01, 0x00, 0x0c, 0x02, 0x00, 0x00, 0x00, 0x02, 0x00, 0x00, 0x08,
    0x02, 0x00, 0x00, 0x04, 0x02, 0x00,
];

#[test]
fn test_decode_empty_input() {
    let mut reader = &[][..];
    assert_eq!(decode(&mut reader, 0), Err(DecodeError::UnexpectedEof));
}

#[test]
fn test_decode_truncated_streams() {
    for data in [&ORDER_0[..], &PACKED[..]] {
        for end in 0..data.len() {
            let mut reader = &data[..end];
            assert_eq!(
                decode(&mut reader, 0),
                Err(DecodeError::UnexpectedEof),
                "prefix of {end} bytes"
            );
        }
    }
}

#[test]
fn test_decode_leaves_trailing_bytes() -> Result<(), DecodeError> {
    let mut data = ORDER_0.to_vec();
    data.extend_from_slice(&[0xaa, 0xbb]);
    let mut reader = &data[..];
    assert_eq!(decode(&mut reader, 0)?, b"noodles");
    assert_eq!(reader, &[0xaa, 0xbb]);
    Ok(())
}

#[test]
fn test_decode_uncompressed_without_size() -> Result<(), DecodeError> {
    let data = [0x30, b'a', b'b', b'c', b'd'];
    let mut reader = &data[..];
    assert_eq!(decode(&mut reader, 3)?, b"abc");
    assert_eq!(reader, b"d");
    Ok(())
}

#[test]
fn test_decode_zero_length_order_0() -> Result<(), DecodeError> {
    let data = [
        0x00, 0x00, // order-0, length 0
        0x61, 0x00, // alphabet {a}
        0x01, // frequency
        0x00, 0x80, 0x00, 0x00, 0x00, 0x80, 0x00, 0x00, 0x00, 0x80, 0x00, 0x00, 0x00, 0x80,
        0x00, 0x00,
    ];
    let mut reader = &data[..];
    assert_eq!(decode(&mut reader, 0)?, b"");
    assert!(reader.is_empty());
    Ok(())
}

#[test]
fn test_decode_single_symbol_order_0() -> Result<(), DecodeError> {
    // One symbol with the whole table: every state decodes to it.
    let data = [
        0x00, 0x05, 0x61, 0x00, 0x01, 0x00, 0x80, 0x00, 0x00, 0x00, 0x80, 0x00, 0x00, 0x00,
        0x80, 0x00, 0x00, 0x00, 0x80, 0x00, 0x00,
    ];
    let mut reader = &data[..];
    assert_eq!(decode(&mut reader, 0)?, b"aaaaa");
    Ok(())
}

#[test]
fn test_decode_malformed_frequency_table() {
    // A total of 3 cannot be scaled to 4096 by doubling.
    let data = [0x00, 0x01, 0x61, 0x00, 0x03];
    let mut reader = &data[..];
    assert_eq!(decode(&mut reader, 0), Err(DecodeError::InvalidData));
}

#[test]
fn test_decode_alphabet_run_past_255() {
    let data = [0x00, 0x01, 0xfe, 0xff, 0x05];
    let mut reader = &data[..];
    assert_eq!(decode(&mut reader, 0), Err(DecodeError::InvalidData));
}

#[test]
fn test_decode_stripe_with_mismatched_stripe_count() {
    // One stripe over 4 lanes with 5 bytes: its length 6 exceeds the block.
    let data = [0x08, 0x05, 0x01, 0x07, 0x30, b'a', b'b', b'c', b'd', b'e', b'f'];
    let mut reader = &data[..];
    assert_eq!(decode(&mut reader, 0), Err(DecodeError::InvalidData));
}

#[test]
fn test_decode_stripe_of_raw_blocks() -> Result<(), DecodeError> {
    // Four raw stripes of lengths 2, 1, 1, 1 interleave to "abcdef"... minus one.
    let data = [
        0x08, 0x05, 0x04, 0x03, 0x02, 0x02, 0x02, // header, count, coded lengths
        0x20, 0x02, b'a', b'e', // stripe 0
        0x20, 0x01, b'b', // stripe 1
        0x20, 0x01, b'c', // stripe 2
        0x20, 0x01, b'd', // stripe 3
    ];
    let mut reader = &data[..];
    assert_eq!(decode(&mut reader, 0)?, b"abcde");
    Ok(())
}

#[test]
fn test_decode_pack_meta() -> Result<(), DecodeError> {
    let mut src = &[0x02, b'a', b'b', 0x05, 0xff][..];
    assert_eq!(decode_pack_meta(&mut src)?, (vec![b'a', b'b'], 2, 5));
    assert_eq!(src, &[0xff]);

    let mut src = &[0x00, 0x05][..];
    assert_eq!(decode_pack_meta(&mut src), Err(DecodeError::InvalidData));

    let mut src = &[0x03, b'a'][..];
    assert_eq!(decode_pack_meta(&mut src), Err(DecodeError::UnexpectedEof));

    Ok(())
}

fn lanes(n: usize) -> Vec<u8> {
    // Each lane state 0x8000 decodes slot 0 and keeps its value under a
    // table that gives one symbol the whole total.
    [0x00, 0x80, 0x00, 0x00].repeat(n)
}

#[test]
fn test_decode_order_0_with_32_lanes() -> Result<(), DecodeError> {
    let mut data = vec![0x04, 40, 0x61, 0x00, 0x01];
    data.extend(lanes(32));
    let mut reader = &data[..];
    assert_eq!(decode(&mut reader, 0)?, vec![b'a'; 40]);
    assert!(reader.is_empty());

    // Four lanes leave the last 28 states unread.
    data[0] = 0x00;
    let mut reader = &data[..];
    assert_eq!(decode(&mut reader, 0)?, vec![b'a'; 40]);
    assert_eq!(reader.len(), 28 * 4);
    Ok(())
}

#[test]
fn test_decode_order_1_with_32_lanes() -> Result<(), DecodeError> {
    let mut data = vec![
        0x05, 70, // ORDER | N32, length 70
        0xc0, // precision 12, tables not compressed
        0x00, 0x61, 0x00, // contexts {0, a}
        0x00, 0x00, 0x01, // after 0: only a
        0x00, 0x00, 0x01, // after a: only a
    ];
    data.extend(lanes(32));
    let mut reader = &data[..];
    assert_eq!(decode(&mut reader, 0)?, vec![b'a'; 70]);
    assert!(reader.is_empty());
    Ok(())
}

#[test]
fn test_decode_raw_block_with_two_byte_length() -> Result<(), DecodeError> {
    let payload: Vec<u8> = (0..200u32).map(|i| (i * 7 % 256) as u8).collect();
    let mut data = vec![0x20, 0x81, 0x48]; // CAT, length 200
    data.extend_from_slice(&payload);
    data.push(0x99);
    let mut reader = &data[..];
    assert_eq!(decode(&mut reader, 5)?, payload);
    assert_eq!(reader, &[0x99]);
    Ok(())
}

#[test]
fn test_decode_stripe_count_zero() {
    let mut reader = &[0x08, 0x01, 0x00][..];
    assert_eq!(decode(&mut reader, 0), Err(DecodeError::InvalidData));
}

#[test]
fn test_decode_stripes_that_overlap() {
    // Eight stripes over four lanes for 9 bytes: stripe 0 takes positions 0
    // and 4, stripe 4 position 4 again, and position 8 stays empty.
    let mut data = vec![0x08, 0x09, 0x08];
    data.extend([0x04; 8]);
    data.extend([0x20, 0x02, b'a', b'b']);
    for c in b"cdefghi" {
        data.extend([0x20, 0x01, *c]);
    }
    let mut reader = &data[..];
    assert_eq!(decode(&mut reader, 0), Err(DecodeError::InvalidData));
}

#[test]
fn test_decode_stripes_that_tile_with_fewer_stripes_than_lanes() -> Result<(), DecodeError> {
    // Two bytes in three stripes over four lanes: lengths 1, 1 and 0.
    let data = [
        0x08, 0x02, 0x03, 0x03, 0x03, 0x02, // header, count, coded lengths
        0x20, 0x01, b'a', 0x20, 0x01, b'b', 0x20, 0x00,
    ];
    let mut reader = &data[..];
    assert_eq!(decode(&mut reader, 0)?, b"ab");
    Ok(())
}

#[test]
fn test_decode_alphabet_without_terminator_within_256_symbols() {
    let mut data = vec![0x00, 0x01];
    data.extend([0x05; 300]);
    data.push(0x00);
    let mut reader = &data[..];
    assert_eq!(decode(&mut reader, 0), Err(DecodeError::InvalidData));
}

#[test]
fn test_decode_pack_meta_with_17_symbols() {
    let mut data = vec![17];
    data.extend(0..17u8);
    data.push(0x05);
    let mut src = &data[..];
    assert_eq!(decode_pack_meta(&mut src), Err(DecodeError::InvalidData));
}

#[test]
fn test_decode_zero_total_frequency_table() {
    let mut data = vec![0x00, 0x01, 0x41, 0x00, 0x00];
    data.extend(lanes(4));
    data.extend([0x00, 0x00]);
    let mut reader = &data[..];
    assert_eq!(decode(&mut reader, 0), Err(DecodeError::InvalidData));
}

#[test]
fn test_decode_order_1_context_without_table() {
    // Context 0 starts every lane, but only `a` has a table.
    let mut data = vec![0x01, 0x01, 0xc0, 0x61, 0x00, 0x01];
    data.extend(lanes(4));
    let mut reader = &data[..];
    assert_eq!(decode(&mut reader, 0), Err(DecodeError::InvalidData));
}
