use noodles_codec::sam::parser::{parse, ParseError, Parser, Record, parse_record};

#[test]
fn test_parse() -> Result<(), ParseError> {
    let s = "\
@HD\tVN:1.6\tSO:coordinate
@SQ\tSN:sq0\tLN:8
@SQ\tSN:sq1\tLN:13
@RG\tID:rg0
@PG\tID:pg0\tPN:noodles
@CO\tndls
";

    let actual = parse(s.as_bytes())?;

    assert_eq!(actual.header, Some(b"\tVN:1.6\tSO:coordinate".to_vec()));
    let names: Vec<_> = actual.reference_sequences.keys().cloned().collect();
    assert_eq!(names, vec![b"sq0".to_vec(), b"sq1".to_vec()]);
    assert_eq!(
        actual.reference_sequences.get(&b"sq1".to_vec()),
        Some(&b"\tSN:sq1\tLN:13".to_vec())
    );
    assert_eq!(actual.read_groups.len(), 1);
    assert_eq!(
        actual.programs.get(&b"pg0".to_vec()),
        Some(&b"\tID:pg0\tPN:noodles".to_vec())
    );
    assert_eq!(actual.comments, vec![b"ndls".to_vec()]);

    Ok(())
}

#[test]
fn test_parse_with_empty_input() -> Result<(), ParseError> {
    let header = parse(b"")?;

    assert!(header.header.is_none());
    assert!(header.reference_sequences.is_empty());
    assert!(header.read_groups.is_empty());
    assert!(header.programs.is_empty());
    assert!(header.comments.is_empty());

    Ok(())
}

#[test]
fn test_parse_without_hd() -> Result<(), ParseError> {
    let header = parse(b"@SQ\tSN:sq0\tLN:8\n")?;
    assert!(header.header.is_none());
    assert_eq!(header.reference_sequences.len(), 1);
    Ok(())
}

#[test]
fn test_parse_with_multiple_hd() {
    let s = "\
@HD\tVN:1.6\tSO:coordinate
@HD\tVN:1.6\tSO:coordinate
";

    assert_eq!(parse(s.as_bytes()), Err(ParseError::UnexpectedHeader));
}

#[test]
fn test_parse_with_duplicate_reference_sequence_names() {
    let s = "\
@SQ\tSN:sq0\tLN:8
@SQ\tSN:sq0\tLN:8
";

    assert_eq!(
        parse(s.as_bytes()),
        Err(ParseError::DuplicateReferenceSequenceName(b"sq0".to_vec()))
    );
}

#[test]
fn test_parse_with_duplicate_read_group_ids() {
    let s = "\
@RG\tID:rg0
@RG\tID:rg0
";

    assert_eq!(
        parse(s.as_bytes()),
        Err(ParseError::DuplicateReadGroupId(b"rg0".to_vec()))
    );
}

#[test]
fn test_parse_with_duplicate_program_ids() {
    let s = "\
@PG\tID:pg0
@PG\tID:pg0
";

    assert_eq!(
        parse(s.as_bytes()),
        Err(ParseError::DuplicateProgramId(b"pg0".to_vec()))
    );
}

#[test]
fn test_parse_partial_and_records() -> Result<(), ParseError> {
    let mut parser = Parser::default();
    parser.parse_partial(b"@CO\tfirst")?;
    assert_eq!(parser.parse_partial(b"@HD\tVN:1.6"), Err(ParseError::UnexpectedHeader));
    let header = parser.finish();
    assert_eq!(header.comments, vec![b"first".to_vec()]);

    assert_eq!(parse_record(b"@SQ\tLN:8"), Err(ParseError::InvalidRecord));
    assert_eq!(parse_record(b"@XX\tID:1"), Err(ParseError::InvalidRecord));
    assert_eq!(parse_record(b"@CO"), Err(ParseError::InvalidRecord));
    assert_eq!(parse_record(b"@HDx"), Err(ParseError::InvalidRecord));
    assert_eq!(
        parse_record(b"@RG\tSM:x\tID:rg1"),
        Ok(Record::ReadGroup(b"rg1".to_vec(), b"\tSM:x\tID:rg1".to_vec()))
    );
    assert_eq!(parse(b"@CO\ta\r\n@CO\tb")?.comments, vec![b"a".to_vec(), b"b".to_vec()]);
    Ok(())
}
