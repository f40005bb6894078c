use noodles_codec::sam::base_modifications::{consume_terminator, parse_skip_counts, ParseError};

#[test]
fn test_consume_terminator() {
    let mut src = &b";"[..];
    assert!(consume_terminator(&mut src).is_ok());

    let mut src = &b"n"[..];
    assert_eq!(
        consume_terminator(&mut src),
        Err(ParseError::InvalidTerminator)
    );

    let mut src = &b""[..];
    assert_eq!(consume_terminator(&mut src), Err(ParseError::UnexpectedEof));
}

#[test]
fn test_parse_skip_counts() {
    let mut src = &b",1,3,0;"[..];
    assert_eq!(parse_skip_counts(&mut src), Ok(vec![1, 3, 0]));
    assert_eq!(src, b";");

    let mut src = &b";"[..];
    assert_eq!(parse_skip_counts(&mut src), Ok(vec![]));

    let mut src = &b","[..];
    assert_eq!(parse_skip_counts(&mut src), Err(ParseError::InvalidSkipCount));

    let mut src = &b",1"[..];
    assert_eq!(parse_skip_counts(&mut src), Err(ParseError::UnexpectedEof));

    // A count without digits reads as 0, as lexical parsing does.
    let mut src = &b",x;"[..];
    assert_eq!(parse_skip_counts(&mut src), Ok(vec![0]));
    assert_eq!(src, b"x;");
}
