use noodles_codec::bgzf::{put_header, put_trailer, EncodeError};

#[test]
fn test_put_header() {
    let mut buf = Vec::new();
    assert_eq!(put_header(&mut buf, 28), Ok(()));
    assert_eq!(
        buf,
        [
            0x1f, 0x8b, // magic
            0x08, // deflate
            0x04, // FEXTRA
            0x00, 0x00, 0x00, 0x00, // mtime
            0x00, // xfl
            0xff, // OS unknown
            0x06, 0x00, // xlen
            b'B', b'C', 0x02, 0x00, // BC, slen
            0x1b, 0x00, // bsize = 27
        ]
    );
}

#[test]
fn test_put_header_invalid_block_size() {
    let mut buf = Vec::new();
    assert_eq!(put_header(&mut buf, 0), Err(EncodeError::InvalidBlockSize));
    assert_eq!(put_header(&mut buf, 65537), Err(EncodeError::InvalidBlockSize));
    assert!(buf.is_empty());
    assert_eq!(put_header(&mut buf, 65536), Ok(()));
    assert_eq!(&buf[16..], &[0xff, 0xff]);
}

#[test]
fn test_put_trailer() {
    let mut buf = Vec::new();
    assert_eq!(put_trailer(&mut buf, 0x1234_5678, 9), Ok(()));
    assert_eq!(buf, [0x78, 0x56, 0x34, 0x12, 0x09, 0x00, 0x00, 0x00]);
}
