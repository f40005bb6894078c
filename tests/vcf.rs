use std::path::PathBuf;

use noodles_codec::vcf::indexed_reader::{build_index_src, push_ext};

#[test]
fn test_build_index_src() {
    assert_eq!(
        PathBuf::from(build_index_src("sample.vcf.gz")),
        PathBuf::from("sample.vcf.gz.tbi")
    );
}

#[test]
fn test_push_ext() {
    assert_eq!(push_ext("a/b", "csi"), "a/b.csi");
}

use noodles_codec::vcf::header::{
    parse_filter, Filter, Format, FormatType, Number, ParseError, RecordMap, Tag,
};

#[test]
fn test_parse_filter() {
    let mut src = &br#"<ID=PASS,Description="All filters passed">"#[..];

    let id = b"PASS".to_vec();
    let map = RecordMap::<Filter>::pass();
    let expected = (id, map);

    assert_eq!(parse_filter(&mut src), Ok(expected));
}

#[test]
fn test_parse_filter_with_idx_and_other_fields() {
    let mut src = &br#"<ID=q10,Description="Quality \"below\" 10",IDX=3,Source=x,Version="1">rest"#[..];
    let (id, map) = parse_filter(&mut src).unwrap();
    assert_eq!(id, b"q10");
    assert_eq!(map.inner.description, br#"Quality "below" 10"#);
    assert_eq!(map.inner.idx, Some(3));
    let others: Vec<_> = map.other_fields.iter().map(|(k, v)| (k.clone(), v.clone())).collect();
    assert_eq!(
        others,
        vec![(b"Source".to_vec(), b"x".to_vec()), (b"Version".to_vec(), b"1".to_vec())]
    );
    assert_eq!(src, b"rest");
}

#[test]
fn test_parse_filter_errors() {
    fn t(s: &[u8]) -> Result<(Vec<u8>, RecordMap<Filter>), ParseError> {
        let mut src = s;
        parse_filter(&mut src)
    }

    assert_eq!(t(br#"ID=PASS,Description="d">"#), Err(ParseError::InvalidMap));
    assert_eq!(t(br#"<ID=PASS>"#), Err(ParseError::MissingDescription));
    assert_eq!(t(br#"<Description="d">"#), Err(ParseError::MissingId));
    assert_eq!(t(br#"<ID=a,ID=b,Description="d">"#), Err(ParseError::DuplicateTag(Tag::Id)));
    assert_eq!(
        t(br#"<ID=a,x=1,x=2,Description="d">"#),
        Err(ParseError::DuplicateTag(Tag::Other(b"x".to_vec())))
    );
    assert_eq!(
        t(br#"<ID=a,Description="d",IDX=1,IDX=2>"#),
        Err(ParseError::DuplicateTag(Tag::Idx))
    );
    assert_eq!(t(br#"<ID=a,IDX=one,Description="d">"#), Err(ParseError::InvalidIdx));
    assert_eq!(t(br#"<ID=a;Description="d">"#), Err(ParseError::MissingDescription));
    assert_eq!(t(br#"<ID=a"#), Err(ParseError::InvalidValue));
    assert_eq!(t(br#"<ID=a,Description="d"x>"#), Err(ParseError::InvalidField));
    assert_eq!(t(br#"<ID=a,Description="d>"#), Err(ParseError::InvalidValue));
    assert_eq!(t(br#"<ID"#), Err(ParseError::InvalidKey));
}

#[test]
fn test_format_map_new() {
    let map = RecordMap::<Format>::new(Number::Count(1), FormatType::String, b"Genotype".to_vec());
    assert_eq!(map.inner.number, Number::Count(1));
    assert_eq!(map.inner.ty, FormatType::String);
    assert_eq!(map.inner.description, b"Genotype");
    assert_eq!(map.inner.idx, None);
    assert!(map.other_fields.is_empty());
}

use indexmap::IndexSet;
use noodles_codec::vcf::record::{
    is_valid_filter, parse_filters, parse_id, Filters, FiltersParseError, IdParseError,
};

#[test]
fn test_parse_filters() -> Result<(), FiltersParseError> {
    let mut filters = None;

    parse_filters("PASS", &mut filters)?;
    assert_eq!(filters, Some(Filters::Pass));

    parse_filters("q10", &mut filters)?;
    assert_eq!(
        filters,
        Some(Filters::Fail([String::from("q10")].into_iter().collect()))
    );

    parse_filters("q10;s50", &mut filters)?;
    assert_eq!(
        filters,
        Some(Filters::Fail(
            [String::from("q10"), String::from("s50")]
                .into_iter()
                .collect()
        ))
    );

    assert_eq!(parse_filters("", &mut filters), Err(FiltersParseError::Empty));
    assert_eq!(
        parse_filters("0", &mut filters),
        Err(FiltersParseError::InvalidFilter)
    );
    assert_eq!(
        parse_filters("q 10", &mut filters),
        Err(FiltersParseError::InvalidFilter)
    );
    assert_eq!(
        parse_filters(";q10", &mut filters),
        Err(FiltersParseError::InvalidFilter)
    );
    assert_eq!(
        parse_filters("q10;;s50", &mut filters),
        Err(FiltersParseError::InvalidFilter)
    );
    assert_eq!(
        parse_filters("q10;", &mut filters),
        Err(FiltersParseError::InvalidFilter)
    );
    assert_eq!(
        parse_filters("q10;q10", &mut filters),
        Err(FiltersParseError::DuplicateFilter)
    );

    Ok(())
}

#[test]
fn test_parse_filters_keeps_order_and_clears_on_error() {
    let mut filters = None;
    assert_eq!(parse_filters("s50;q10;ñ", &mut filters), Ok(()));
    let expected: IndexSet<String> = ["s50", "q10", "ñ"].iter().map(|s| s.to_string()).collect();
    match &filters {
        Some(Filters::Fail(set)) => assert!(set.iter().eq(expected.iter())),
        other => panic!("unexpected {other:?}"),
    }
    assert_eq!(
        parse_filters("a\u{2003}b", &mut filters),
        Err(FiltersParseError::InvalidFilter)
    );
    assert_eq!(filters, None);
}

#[test]
fn test_parse_id() {
    assert_eq!(
        parse_id("nd0").map(|id| id.as_str().to_owned()),
        Ok(String::from("nd0"))
    );

    assert_eq!(parse_id(""), Err(IdParseError::Empty));
    assert_eq!(parse_id("nd 0"), Err(IdParseError::Invalid));
    assert_eq!(parse_id("nd\t0"), Err(IdParseError::Invalid));
}

#[test]
fn test_is_valid_filter() {
    assert!(is_valid_filter("q10"));
    assert!(is_valid_filter("00"));
    assert!(!is_valid_filter("0"));
    assert!(!is_valid_filter(""));
    assert!(!is_valid_filter("q\n10"));
}
