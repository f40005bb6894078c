use noodles_codec::sam::cigar::{Cigar, Kind, Op, ParseError};
use noodles_codec::sam::header::{extract_version, Version};
use noodles_codec::sam::writer::{write_character, Character, TryFromCharError};

#[test]
fn test_iter() -> Result<(), ParseError> {
    let cigar = Cigar::new(b"");
    assert!(cigar.iter().into_iter().next().is_none());

    let cigar = Cigar::new(b"8M13N");
    let actual: Vec<_> = cigar.iter().into_iter().collect::<Result<_, _>>()?;
    let expected = [Op::new(Kind::Match, 8), Op::new(Kind::Skip, 13)];
    assert_eq!(actual, expected);

    Ok(())
}

#[test]
fn test_extract_version() {
    assert_eq!(extract_version(b"@HD\tVN:1.6"), Some(Version::new(1, 6)));
    assert_eq!(
        extract_version(b"@HD\tSO:coordinate\tVN:1.6"),
        Some(Version::new(1, 6))
    );
    assert!(extract_version(b"@HD\tVN:NA").is_none());
    assert!(extract_version(b"@SQ\tSN:sq0\tLN:8\tVN:1.6").is_none());
    assert!(extract_version(b"@CO\tVN:1.6").is_none());
}

#[test]
fn test_iter_errors() {
    assert_eq!(Cigar::new(b"8").iter(), vec![Err(ParseError::UnexpectedEof)]);
    assert_eq!(Cigar::new(b"8Q").iter(), vec![Err(ParseError::InvalidKind)]);
    assert_eq!(Cigar::new(b"+").iter(), vec![Err(ParseError::InvalidLength)]);
    assert_eq!(
        Cigar::new(b"99999999999999999999999M").iter(),
        vec![Err(ParseError::InvalidLength)]
    );
    assert_eq!(
        Cigar::new(b"4=1X2Q3M").iter(),
        vec![
            Ok(Op::new(Kind::SequenceMatch, 4)),
            Ok(Op::new(Kind::SequenceMismatch, 1)),
            Err(ParseError::InvalidKind),
        ]
    );
}

#[test]
fn test_iter_all_kinds() {
    let ops = Cigar::new(b"1M2I3D4N5S6H7P8=9X+10M").iter();
    let kinds: Vec<_> = ops.iter().map(|r| r.map(|op| (op.kind, op.len))).collect();
    assert_eq!(
        kinds,
        vec![
            Ok((Kind::Match, 1)),
            Ok((Kind::Insertion, 2)),
            Ok((Kind::Deletion, 3)),
            Ok((Kind::Skip, 4)),
            Ok((Kind::SoftClip, 5)),
            Ok((Kind::HardClip, 6)),
            Ok((Kind::Pad, 7)),
            Ok((Kind::SequenceMatch, 8)),
            Ok((Kind::SequenceMismatch, 9)),
            Ok((Kind::Match, 10)),
        ]
    );
    assert!(Cigar::new(b"").is_empty());
    assert!(!Cigar::new(b"1M").is_empty());
}

#[test]
fn test_extract_version_malformed() {
    assert!(extract_version(b"@HD\tVN:1.6.1").is_none());
    assert!(extract_version(b"@HD\tVN:1").is_none());
    assert!(extract_version(b"@HD\tSO:coordinate").is_none());
    assert_eq!(extract_version(b"@HD\tVN:+12.034"), Some(Version::new(12, 34)));
}

#[test]
fn test_write_character() {
    let mut buf = Vec::new();
    write_character(&mut buf, Character::new('n').unwrap());
    assert_eq!(buf, b"n");
    assert_eq!(Character::new(' '), Err(TryFromCharError(' ')));
}
