use noodles_codec::bam::quality_scores::{QualityScores, Score, TryFromUByteError};
use noodles_codec::bam::sequence::{decode_base, get_length, get_sequence, Base, DecodeError};

#[test]
fn test_decode_base() {
    assert_eq!(decode_base(0), Base::Eq);
    assert_eq!(decode_base(1), Base::A);
    assert_eq!(decode_base(2), Base::C);
    assert_eq!(decode_base(3), Base::M);
    assert_eq!(decode_base(4), Base::G);
    assert_eq!(decode_base(5), Base::R);
    assert_eq!(decode_base(6), Base::S);
    assert_eq!(decode_base(7), Base::V);
    assert_eq!(decode_base(8), Base::T);
    assert_eq!(decode_base(9), Base::W);
    assert_eq!(decode_base(10), Base::Y);
    assert_eq!(decode_base(11), Base::H);
    assert_eq!(decode_base(12), Base::K);
    assert_eq!(decode_base(13), Base::D);
    assert_eq!(decode_base(14), Base::B);
    assert_eq!(decode_base(15), Base::N);
}

#[test]
fn test_get_length() {
    let mut src = &8u32.to_le_bytes()[..];
    assert_eq!(get_length(&mut src), Ok(8));

    let mut src = &[][..];
    assert_eq!(get_length(&mut src), Err(DecodeError::UnexpectedEof));
}

#[test]
fn test_get_sequence() -> Result<(), DecodeError> {
    fn t(mut src: &[u8], buf: &mut Vec<Base>, expected: &[Base]) -> Result<(), DecodeError> {
        buf.clear();
        get_sequence(&mut src, buf, expected.len())?;
        assert_eq!(buf.as_slice(), expected);
        Ok(())
    }

    let mut sequence = Vec::new();

    t(&[], &mut sequence, &[])?;
    t(&[0x12, 0x40], &mut sequence, &[Base::A, Base::C, Base::G])?;
    t(&[0x12, 0x48], &mut sequence, &[Base::A, Base::C, Base::G, Base::T])?;

    sequence.clear();
    let mut src = &b""[..];
    assert_eq!(
        get_sequence(&mut src, &mut sequence, 4),
        Err(DecodeError::UnexpectedEof)
    );

    Ok(())
}

#[test]
fn test_try_from_quality_scores_for_sam_record_quality_scores() -> Result<(), TryFromUByteError> {
    let quality_scores = QualityScores::from_vec(vec![45, 35, 43, 50]); // NDLS

    let actual = quality_scores.to_scores()?;
    let expected = vec![
        Score::new(45)?,
        Score::new(35)?,
        Score::new(43)?,
        Score::new(50)?,
    ];

    assert_eq!(actual, expected);

    Ok(())
}

#[test]
fn test_quality_scores_accessors() {
    let quality_scores = QualityScores::new(vec![45, 35, 43, 50, 94]);
    assert_eq!(quality_scores.len(), 5);
    assert!(!quality_scores.is_empty());
    assert_eq!(quality_scores.chars(), vec!['N', 'D', 'L', 'S', '\u{7f}']);
    assert_eq!(quality_scores.get(1).map(|r| r.map(|s| s.get())), Some(Ok(35)));
    assert_eq!(quality_scores.get(4), Some(Err(TryFromUByteError(94))));
    assert_eq!(quality_scores.get(5), None);

    let scores = quality_scores.scores();
    assert_eq!(scores.len(), 5);
    assert_eq!(scores[0], Score::new(45));
    assert_eq!(scores[4], Err(TryFromUByteError(94)));

    assert_eq!(quality_scores.to_scores(), Err(TryFromUByteError(94)));
    assert!(QualityScores::default().to_scores().unwrap().is_empty());
}

#[test]
fn test_score_bounds() {
    assert_eq!(Score::new(93).map(|s| s.get()), Ok(93));
    assert_eq!(Score::new(94), Err(TryFromUByteError(94)));
}

#[test]
fn test_get_sequence_odd_length_leaves_rest() -> Result<(), DecodeError> {
    let mut src = &[0x18, 0xf0, 0x99][..];
    let mut sequence = vec![Base::G];
    get_sequence(&mut src, &mut sequence, 3)?;
    assert_eq!(sequence, [Base::A, Base::T, Base::N]);
    assert_eq!(src, &[0x99]);
    Ok(())
}

#[test]
fn test_decode_base_high_bits_ignored() {
    assert_eq!(decode_base(0xf1), Base::A);
    assert_eq!(decode_base(0x2f), Base::N);
}
