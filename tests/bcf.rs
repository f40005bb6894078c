use noodles_codec::bcf::write_info_field_integer_value;

fn t(n: i32, expected: &[u8]) {
    let mut buf = vec![0xaa];
    write_info_field_integer_value(&mut buf, n);
    assert_eq!(&buf[1..], expected);
    assert_eq!(buf[0], 0xaa);
}

#[test]
fn test_write_info_field_integer_value() {
    t(8, &[0x11, 0x08]);
    t(144, &[0x12, 0x90, 0x00]);
    t(46368, &[0x13, 0x20, 0xb5, 0x00, 0x00]);
}

#[test]
fn test_write_info_field_integer_value_negative() {
    t(-1, &[0x11, 0xff]);
    t(-128, &[0x11, 0x80]);
    t(-129, &[0x12, 0x7f, 0xff]);
    t(-32769, &[0x13, 0xff, 0x7f, 0xff, 0xff]);
    t(i32::MIN, &[0x13, 0x00, 0x00, 0x00, 0x80]);
}
