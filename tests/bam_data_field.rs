use noodles_codec::bam::data_field::{decode_field, decode_value, DecodeError, Subtype, Type, Value};

#[test]
fn test_decode_field() -> Result<(), DecodeError> {
    let mut src = &[b'N', b'H', b'C', 0x01][..];
    assert_eq!(decode_field(&mut src)?, ([b'N', b'H'], Value::UInt8(1)));

    let mut src = &[][..];
    assert!(matches!(
        decode_field(&mut src),
        Err(e) if e == DecodeError::UnexpectedEof
    ));

    Ok(())
}

#[test]
fn test_decode_field_values() -> Result<(), DecodeError> {
    let mut src = &b"XYZabc\0rest"[..];
    assert_eq!(decode_field(&mut src)?, (*b"XY", Value::String(b"abc".to_vec())));
    assert_eq!(src, b"rest");

    let mut src = &b"HXHCAFE\0"[..];
    assert_eq!(decode_field(&mut src)?, (*b"HX", Value::Hex(b"CAFE".to_vec())));

    let mut src = &[b'X', b'1', b'c', 0xff][..];
    assert_eq!(decode_field(&mut src)?, (*b"X1", Value::Int8(-1)));

    let mut src = &[b'X', b'2', b'A', b'n'][..];
    assert_eq!(decode_field(&mut src)?, (*b"X2", Value::Character(b'n')));

    Ok(())
}

#[test]
fn test_decode_value_numbers() -> Result<(), DecodeError> {
    let mut src = &[0xfe, 0xff][..];
    assert_eq!(decode_value(&mut src, Type::Int16)?, Value::Int16(-2));
    let mut src = &[0xfe, 0xff][..];
    assert_eq!(decode_value(&mut src, Type::UInt16)?, Value::UInt16(0xfffe));
    let mut src = &(-70000i32).to_le_bytes()[..];
    assert_eq!(decode_value(&mut src, Type::Int32)?, Value::Int32(-70000));
    let mut src = &46368u32.to_le_bytes()[..];
    assert_eq!(decode_value(&mut src, Type::UInt32)?, Value::UInt32(46368));
    let mut src = &1.5f32.to_le_bytes()[..];
    assert_eq!(decode_value(&mut src, Type::Float)?, Value::Float(1.5f32.to_bits()));
    Ok(())
}

#[test]
fn test_decode_value_array() -> Result<(), DecodeError> {
    let data = [b's', 0x02, 0x00, 0x00, 0x00, 0x01, 0x00, 0xff, 0xff, 0x07];
    let mut src = &data[..];
    assert_eq!(
        decode_value(&mut src, Type::Array)?,
        Value::Array(Subtype::Int16, vec![0x01, 0x00, 0xff, 0xff])
    );
    assert_eq!(src, &[0x07]);
    Ok(())
}

#[test]
fn test_decode_field_errors() {
    let mut src = &[b'N', b'H', b'Q', 0x01][..];
    assert_eq!(decode_field(&mut src), Err(DecodeError::InvalidType));

    let mut src = &b"NHZabc"[..];
    assert_eq!(decode_field(&mut src), Err(DecodeError::UnexpectedEof));

    let mut src = &[b'N', b'H', b'i', 0x01, 0x00][..];
    assert_eq!(decode_field(&mut src), Err(DecodeError::UnexpectedEof));

    let mut src = &[b'q', 0x01, 0x00, 0x00, 0x00, 0x00][..];
    assert_eq!(decode_value(&mut src, Type::Array), Err(DecodeError::InvalidType));

    let mut src = &[b'I', 0x02, 0x00, 0x00, 0x00, 0x00, 0x00, 0x00, 0x00][..];
    assert_eq!(decode_value(&mut src, Type::Array), Err(DecodeError::UnexpectedEof));
}
