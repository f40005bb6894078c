use noodles_codec::bam::record_writer::{
    write_cigar, write_l_read_name, write_mapping_quality, write_position, write_read_name,
    write_reference_sequence_id, EncodeError,
};

#[test]
fn test_write_fixed_fields() {
    let mut buf = Vec::new();
    write_reference_sequence_id(&mut buf, Some(1));
    write_position(&mut buf, 8);
    assert_eq!(write_l_read_name(&mut buf, b"r0"), Ok(()));
    write_mapping_quality(&mut buf, Some(13));
    write_read_name(&mut buf, b"r0");
    write_cigar(&mut buf, &[36 << 4, 8 << 4 | 4]);
    assert_eq!(
        buf,
        [
            0x01, 0x00, 0x00, 0x00, // ref_id = 1
            0x08, 0x00, 0x00, 0x00, // pos = 8
            0x03, // l_read_name = 3
            0x0d, // mapq = 13
            b'r', b'0', 0x00, // read_name = "r0\x00"
            0x40, 0x02, 0x00, 0x00, // cigar[0] = 36M
            0x84, 0x00, 0x00, 0x00, // cigar[1] = 8S
        ]
    );
}

#[test]
fn test_write_missing_fields() {
    let mut buf = Vec::new();
    write_reference_sequence_id(&mut buf, None);
    write_position(&mut buf, -1);
    assert_eq!(write_l_read_name(&mut buf, b"*"), Ok(()));
    write_mapping_quality(&mut buf, None);
    assert_eq!(buf, [0xff, 0xff, 0xff, 0xff, 0xff, 0xff, 0xff, 0xff, 0x02, 0xff]);
}

#[test]
fn test_write_l_read_name_too_long() {
    let mut buf = Vec::new();
    assert_eq!(write_l_read_name(&mut buf, &[b'n'; 254]), Ok(()));
    assert_eq!(buf, [0xff]);
    assert_eq!(
        write_l_read_name(&mut buf, &[b'n'; 255]),
        Err(EncodeError::InvalidReadNameLength)
    );
    assert_eq!(buf, [0xff]);
}
