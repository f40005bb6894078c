//! SAM header parsing: header lines are read one at a time into a header.
//!
//! A line is `@` and a two-letter kind, then tab-separated `TG:value`
//! fields, kept as written; a comment (`@CO`) is the text after its tab.
//! Reference sequences are keyed by their `SN` field, read groups and
//! programs by their `ID` field.

use vstd::prelude::*;
use indexmap::IndexMap;

use crate::sam::header::{find_byte, lemma_find_byte, position};
use crate::vcf::header::{
    contains_other, count_entries, entries_of, has_entry, insert_other, new_other_fields,
};

verus! {

/// A SAM header record.
#[derive(Clone, Debug, PartialEq, Eq)]
pub enum Record {
    /// A header (`HD`) record: its fields.
    Header(Vec<u8>),
    /// A reference sequence (`SQ`) record: its name and fields.
    ReferenceSequence(Vec<u8>, Vec<u8>),
    /// A read group (`RG`) record: its ID and fields.
    ReadGroup(Vec<u8>, Vec<u8>),
    /// A program (`PG`) record: its ID and fields.
    Program(Vec<u8>, Vec<u8>),
    /// A comment (`CO`) record.
    Comment(Vec<u8>),
}

/// What a record holds, as sequences.
pub enum RecordView {
    Header(Seq<u8>),
    ReferenceSequence(Seq<u8>, Seq<u8>),
    ReadGroup(Seq<u8>, Seq<u8>),
    Program(Seq<u8>, Seq<u8>),
    Comment(Seq<u8>),
}

impl View for Record {
    type V = RecordView;

    open spec fn view(&self) -> RecordView {
        match self {
            Record::Header(f) => RecordView::Header(f@),
            Record::ReferenceSequence(k, f) => RecordView::ReferenceSequence(k@, f@),
            Record::ReadGroup(k, f) => RecordView::ReadGroup(k@, f@),
            Record::Program(k, f) => RecordView::Program(k@, f@),
            Record::Comment(c) => RecordView::Comment(c@),
        }
    }
}

/// An error returned when a raw SAM header fails to parse.
#[derive(Clone, Debug, PartialEq, Eq)]
pub enum ParseError {
    /// A header record is not on the first line.
    UnexpectedHeader,
    /// The record is invalid.
    InvalidRecord,
    /// A reference sequence name is duplicated.
    DuplicateReferenceSequenceName(Vec<u8>),
    /// A read group ID is duplicated.
    DuplicateReadGroupId(Vec<u8>),
    /// A program ID is duplicated.
    DuplicateProgramId(Vec<u8>),
}

/// What an error is, with names as sequences.
pub enum ParseErrorView {
    UnexpectedHeader,
    InvalidRecord,
    DuplicateReferenceSequenceName(Seq<u8>),
    DuplicateReadGroupId(Seq<u8>),
    DuplicateProgramId(Seq<u8>),
}

impl View for ParseError {
    type V = ParseErrorView;

    open spec fn view(&self) -> ParseErrorView {
        match self {
            ParseError::UnexpectedHeader => ParseErrorView::UnexpectedHeader,
            ParseError::InvalidRecord => ParseErrorView::InvalidRecord,
            ParseError::DuplicateReferenceSequenceName(k) => ParseErrorView::DuplicateReferenceSequenceName(k@),
            ParseError::DuplicateReadGroupId(k) => ParseErrorView::DuplicateReadGroupId(k@),
            ParseError::DuplicateProgramId(k) => ParseErrorView::DuplicateProgramId(k@),
        }
    }
}

/// The value of the first field `TG:value` with the two-letter tag `tag`, in
/// `fields`, which is empty or starts with a tab.
pub open spec fn value_in(fields: Seq<u8>, tag: Seq<u8>) -> Option<Seq<u8>>
    decreases fields.len(),
{
    if fields.len() == 0 {
        None
    } else {
        let s = fields.skip(1);
        let f = find_byte(s, 9);
        let field = s.take(f as int);
        if field.len() >= 3 && field[0] == tag[0] && field[1] == tag[1] && field[2] == 58 {
            Some(field.skip(3))
        } else if f >= s.len() {
            None
        } else {
            proof {
                lemma_find_byte(s, 9);
            }
            value_in(s.skip(f as int), tag)
        }
    }
}

/// The two bytes of a record kind.
pub open spec fn is_kind(line: Seq<u8>, a: u8, b: u8) -> bool {
    line[1] == a && line[2] == b
}

/// A header line as a record.
pub open spec fn record_at(line: Seq<u8>) -> Option<RecordView> {
    if line.len() < 3 || line[0] != 64 {
        None
    } else {
        let rest = line.skip(3);
        if is_kind(line, 67, 79) {
            if rest.len() > 0 && rest[0] == 9 {
                Some(RecordView::Comment(rest.skip(1)))
            } else {
                None
            }
        } else if rest.len() > 0 && rest[0] != 9 {
            None
        } else if is_kind(line, 72, 68) {
            Some(RecordView::Header(rest))
        } else if is_kind(line, 83, 81) {
            match value_in(rest, seq![83u8, 78u8]) {
                Some(name) => Some(RecordView::ReferenceSequence(name, rest)),
                None => None,
            }
        } else if is_kind(line, 82, 71) {
            match value_in(rest, seq![73u8, 68u8]) {
                Some(id) => Some(RecordView::ReadGroup(id, rest)),
                None => None,
            }
        } else if is_kind(line, 80, 71) {
            match value_in(rest, seq![73u8, 68u8]) {
                Some(id) => Some(RecordView::Program(id, rest)),
                None => None,
            }
        } else {
            None
        }
    }
}

fn read_value_in(fields: &[u8], t0: u8, t1: u8) -> (r: Option<Vec<u8>>)
    ensures
        match value_in(fields@, seq![t0, t1]) {
            Some(v) => r is Some && r->Some_0@ == v,
            None => r is None,
        },
{
    let mut s: &[u8] = fields;
    loop
        invariant
            value_in(s@, seq![t0, t1]) == value_in(fields@, seq![t0, t1]),
        decreases s@.len(),
    {
        if s.len() == 0 {
            return None;
        }
        let (_, t) = s.split_at(1);
        let f = position(t, 9);
        proof {
            lemma_find_byte(t@, 9);
        }
        let (field, tail) = t.split_at(f);
        if field.len() >= 3 && field[0] == t0 && field[1] == t1 && field[2] == 58 {
            let (_, v) = field.split_at(3);
            return Some(vstd::slice::slice_to_vec(v));
        }
        if f >= t.len() {
            return None;
        }
        assert(tail@ =~= t@.skip(f as int));
        s = tail;
    }
}

/// Reads a raw header line as a record.
pub fn parse_record(line: &[u8]) -> (r: Result<Record, ParseError>)
    ensures
        match record_at(line@) {
            Some(v) => r is Ok && r->Ok_0@ == v,
            None => r == Err::<Record, ParseError>(ParseError::InvalidRecord),
        },
{
    if line.len() < 3 || line[0] != 64 {
        return Err(ParseError::InvalidRecord);
    }
    let (_, rest) = line.split_at(3);
    let (a, b) = (line[1], line[2]);
    if a == 67 && b == 79 {
        if rest.len() > 0 && rest[0] == 9 {
            let (_, c) = rest.split_at(1);
            return Ok(Record::Comment(vstd::slice::slice_to_vec(c)));
        }
        return Err(ParseError::InvalidRecord);
    }
    if rest.len() > 0 && rest[0] != 9 {
        return Err(ParseError::InvalidRecord);
    }
    let fields = vstd::slice::slice_to_vec(rest);
    if a == 72 && b == 68 {
        Ok(Record::Header(fields))
    } else if a == 83 && b == 81 {
        match read_value_in(rest, 83, 78) {
            Some(name) => Ok(Record::ReferenceSequence(name, fields)),
            None => Err(ParseError::InvalidRecord),
        }
    } else if a == 82 && b == 71 {
        match read_value_in(rest, 73, 68) {
            Some(id) => Ok(Record::ReadGroup(id, fields)),
            None => Err(ParseError::InvalidRecord),
        }
    } else if a == 80 && b == 71 {
        match read_value_in(rest, 73, 68) {
            Some(id) => Ok(Record::Program(id, fields)),
            None => Err(ParseError::InvalidRecord),
        }
    } else {
        Err(ParseError::InvalidRecord)
    }
}

/// A SAM header: the header record's fields, the reference sequences, read
/// groups and programs keyed in the order they came, and the comments.
#[derive(Debug, PartialEq, Eq)]
pub struct Header {
    pub header: Option<Vec<u8>>,
    pub reference_sequences: IndexMap<Vec<u8>, Vec<u8>>,
    pub read_groups: IndexMap<Vec<u8>, Vec<u8>>,
    pub programs: IndexMap<Vec<u8>, Vec<u8>>,
    pub comments: Vec<Vec<u8>>,
}

/// What a header holds, as sequences.
pub struct HeaderView {
    pub header: Option<Seq<u8>>,
    pub reference_sequences: Seq<(Seq<u8>, Seq<u8>)>,
    pub read_groups: Seq<(Seq<u8>, Seq<u8>)>,
    pub programs: Seq<(Seq<u8>, Seq<u8>)>,
    pub comments: Seq<Seq<u8>>,
}

/// The view of an optional byte vector.
pub open spec fn opt_view(o: Option<Vec<u8>>) -> Option<Seq<u8>> {
    match o {
        Some(v) => Some(v@),
        None => None,
    }
}

/// An empty header.
pub open spec fn empty_header() -> HeaderView {
    HeaderView {
        header: None,
        reference_sequences: Seq::empty(),
        read_groups: Seq::empty(),
        programs: Seq::empty(),
        comments: Seq::empty(),
    }
}

/// Nothing has been read into the header yet.
pub open spec fn is_empty_view(h: HeaderView) -> bool {
    h.header is None && h.reference_sequences.len() == 0 && h.read_groups.len() == 0
        && h.programs.len() == 0 && h.comments.len() == 0
}

/// The header after one more record: a header record only as the first
/// record, and no repeated reference sequence name, read group ID or program
/// ID.
pub open spec fn add_record(h: HeaderView, r: RecordView) -> Result<HeaderView, ParseErrorView> {
    match r {
        RecordView::Header(f) => if is_empty_view(h) {
            Ok(HeaderView { header: Some(f), ..h })
        } else {
            Err(ParseErrorView::UnexpectedHeader)
        },
        RecordView::ReferenceSequence(k, f) => if has_entry(h.reference_sequences, k) {
            Err(ParseErrorView::DuplicateReferenceSequenceName(k))
        } else {
            Ok(HeaderView { reference_sequences: h.reference_sequences.push((k, f)), ..h })
        },
        RecordView::ReadGroup(k, f) => if has_entry(h.read_groups, k) {
            Err(ParseErrorView::DuplicateReadGroupId(k))
        } else {
            Ok(HeaderView { read_groups: h.read_groups.push((k, f)), ..h })
        },
        RecordView::Program(k, f) => if has_entry(h.programs, k) {
            Err(ParseErrorView::DuplicateProgramId(k))
        } else {
            Ok(HeaderView { programs: h.programs.push((k, f)), ..h })
        },
        RecordView::Comment(c) => Ok(HeaderView { comments: h.comments.push(c), ..h }),
    }
}

/// The header after one more raw line.
pub open spec fn add_line(h: HeaderView, line: Seq<u8>) -> Result<HeaderView, ParseErrorView> {
    match record_at(line) {
        None => Err(ParseErrorView::InvalidRecord),
        Some(r) => add_record(h, r),
    }
}

/// A SAM header parser.
pub struct Parser {
    header: Option<Vec<u8>>,
    reference_sequences: IndexMap<Vec<u8>, Vec<u8>>,
    read_groups: IndexMap<Vec<u8>, Vec<u8>>,
    programs: IndexMap<Vec<u8>, Vec<u8>>,
    comments: Vec<Vec<u8>>,
}

impl View for Parser {
    type V = HeaderView;

    closed spec fn view(&self) -> HeaderView {
        HeaderView {
            header: opt_view(self.header),
            reference_sequences: entries_of(self.reference_sequences),
            read_groups: entries_of(self.read_groups),
            programs: entries_of(self.programs),
            comments: self.comments@.map_values(|c: Vec<u8>| c@),
        }
    }
}

impl View for Header {
    type V = HeaderView;

    closed spec fn view(&self) -> HeaderView {
        HeaderView {
            header: opt_view(self.header),
            reference_sequences: entries_of(self.reference_sequences),
            read_groups: entries_of(self.read_groups),
            programs: entries_of(self.programs),
            comments: self.comments@.map_values(|c: Vec<u8>| c@),
        }
    }
}

fn try_insert(map: &mut IndexMap<Vec<u8>, Vec<u8>>, key: Vec<u8>, value: Vec<u8>) -> (r: Result<(), Vec<u8>>)
    ensures
        !has_entry(entries_of(*old(map)), key@) ==> r is Ok && entries_of(*final(map))
            == entries_of(*old(map)).push((key@, value@)),
        has_entry(entries_of(*old(map)), key@) ==> r is Err && r->Err_0@ == key@ && *final(map)
            == *old(map),
{
    if contains_other(map, &key) {
        Err(key)
    } else {
        insert_other(map, key, value);
        Ok(())
    }
}

impl Parser {
    /// A parser that has read nothing.
    pub fn new() -> (p: Parser)
        ensures
            p@ == empty_header(),
    {
        let p = Parser {
            header: None,
            reference_sequences: new_other_fields(),
            read_groups: new_other_fields(),
            programs: new_other_fields(),
            comments: Vec::new(),
        };
        assert(p.comments@.map_values(|c: Vec<u8>| c@) =~= Seq::<Seq<u8>>::empty());
        p
    }

    /// Whether nothing has been read yet.
    pub fn is_empty(&self) -> (b: bool)
        ensures
            b == is_empty_view(self@),
    {
        self.header.is_none() && count_entries(&self.reference_sequences) == 0 && count_entries(
            &self.read_groups,
        ) == 0 && count_entries(&self.programs) == 0 && self.comments.len() == 0
    }

    /// Parses and adds a raw record to the header.
    pub fn parse_partial(&mut self, src: &[u8]) -> (r: Result<(), ParseError>)
        ensures
            match add_line(old(self)@, src@) {
                Ok(h) => r is Ok && final(self)@ == h,
                Err(e) => r is Err && r->Err_0@ == e,
            },
    {
        let record = parse_record(src)?;
        match record {
            Record::Header(header) => {
                if self.is_empty() {
                    self.header = Some(header);
                    Ok(())
                } else {
                    Err(ParseError::UnexpectedHeader)
                }
            },
            Record::ReferenceSequence(name, map) => match try_insert(
                &mut self.reference_sequences,
                name,
                map,
            ) {
                Ok(()) => Ok(()),
                Err(k) => Err(ParseError::DuplicateReferenceSequenceName(k)),
            },
            Record::ReadGroup(id, map) => match try_insert(&mut self.read_groups, id, map) {
                Ok(()) => Ok(()),
                Err(k) => Err(ParseError::DuplicateReadGroupId(k)),
            },
            Record::Program(id, map) => match try_insert(&mut self.programs, id, map) {
                Ok(()) => Ok(()),
                Err(k) => Err(ParseError::DuplicateProgramId(k)),
            },
            Record::Comment(comment) => {
                let ghost cs = self.comments@;
                let ghost cv = comment@;
                self.comments.push(comment);
                assert(self.comments@.map_values(|c: Vec<u8>| c@) =~= cs.map_values(
                    |c: Vec<u8>| c@,
                ).push(cv));
                Ok(())
            },
        }
    }

    /// Builds the SAM header.
    pub fn finish(self) -> (h: Header)
        ensures
            h@ == self@,
    {
        Header {
            header: self.header,
            reference_sequences: self.reference_sequences,
            read_groups: self.read_groups,
            programs: self.programs,
            comments: self.comments,
        }
    }
}

impl Default for Parser {
    fn default() -> (p: Self)
        ensures
            p@ == empty_header(),
    {
        Parser::new()
    }
}

/// The header after the lines of `s` (split at `\n`, a trailing `\r` taken
/// off each, and no line after a final `\n`).
pub open spec fn lines_from(h: HeaderView, s: Seq<u8>) -> Result<HeaderView, ParseErrorView>
    decreases s.len(),
{
    if s.len() == 0 {
        Ok(h)
    } else {
        let f = find_byte(s, 10);
        let raw = s.take(f as int);
        let line = if raw.len() > 0 && raw.last() == 13 {
            raw.drop_last()
        } else {
            raw
        };
        match add_line(h, line) {
            Err(e) => Err(e),
            Ok(h2) => if f >= s.len() {
                Ok(h2)
            } else {
                proof {
                    lemma_find_byte(s, 9);
                    lemma_find_byte(s, 10);
                }
                lines_from(h2, s.skip(f + 1int))
            },
        }
    }
}

/// Parses a raw SAM header, line by line.
pub fn parse(src: &[u8]) -> (r: Result<Header, ParseError>)
    ensures
        match lines_from(empty_header(), src@) {
            Ok(h) => r is Ok && r->Ok_0@ == h,
            Err(e) => r is Err && r->Err_0@ == e,
        },
{
    let mut parser = Parser::new();
    let mut s: &[u8] = src;
    loop
        invariant
            lines_from(parser@, s@) == lines_from(empty_header(), src@),
        decreases s@.len(),
    {
        if s.len() == 0 {
            return Ok(parser.finish());
        }
        let f = position(s, 10);
        proof {
            lemma_find_byte(s@, 10);
        }
        let (raw, tail) = s.split_at(f);
        let line = if raw.len() > 0 && raw[raw.len() - 1] == 13 {
            let (l, _) = raw.split_at(raw.len() - 1);
            assert(l@ =~= raw@.drop_last());
            l
        } else {
            raw
        };
        parser.parse_partial(line)?;
        if f >= s.len() {
            return Ok(parser.finish());
        }
        let (_, next) = tail.split_at(1);
        assert(next@ =~= s@.skip(f + 1));
        s = next;
    }
}

} // verus!
