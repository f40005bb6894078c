//! VCF header map values: the FILTER map parser and the FORMAT map.
//!
//! A map value is written `<key=value,...>`; a value is either raw, up to
//! the next `,` or `>`, or a quoted string in which a backslash makes the
//! byte after it literal.

use vstd::prelude::*;
use indexmap::IndexMap;

use crate::sam::header::{find_byte, lemma_find_byte, position};

verus! {

#[verifier::external_type_specification]
#[verifier::external_body]
#[verifier::reject_recursive_types(K)]
#[verifier::reject_recursive_types(V)]
#[verifier::reject_recursive_types(S)]
pub struct ExIndexMap<K, V, S>(IndexMap<K, V, S>);

/// The entries of a map of other fields, in insertion order.
pub uninterp spec fn entries_of(m: IndexMap<Vec<u8>, Vec<u8>>) -> Seq<(Seq<u8>, Seq<u8>)>;

/// Some entry has key `k`.
pub open spec fn has_entry(entries: Seq<(Seq<u8>, Seq<u8>)>, k: Seq<u8>) -> bool {
    exists|i: int| 0 <= i < entries.len() && #[trigger] entries[i].0 == k
}

/// Relies on `IndexMap::new`: a map without entries.
#[verifier::external_body]
pub(crate) fn new_other_fields() -> (m: IndexMap<Vec<u8>, Vec<u8>>)
    ensures
        entries_of(m) == Seq::<(Seq<u8>, Seq<u8>)>::empty(),
{
    IndexMap::new()
}

/// Relies on `IndexMap::contains_key`: whether an entry has a key equal to
/// `key` (byte vectors are equal when their bytes are).
#[verifier::external_body]
pub(crate) fn contains_other(m: &IndexMap<Vec<u8>, Vec<u8>>, key: &Vec<u8>) -> (b: bool)
    ensures
        b == has_entry(entries_of(*m), key@),
{
    m.contains_key(key)
}

/// Relies on `IndexMap::len`: the number of entries.
#[verifier::external_body]
pub(crate) fn count_entries(m: &IndexMap<Vec<u8>, Vec<u8>>) -> (n: usize)
    ensures
        n == entries_of(*m).len(),
{
    m.len()
}

/// Relies on `IndexMap::insert`: a key that no entry has is added last.
#[verifier::external_body]
pub(crate) fn insert_other(m: &mut IndexMap<Vec<u8>, Vec<u8>>, key: Vec<u8>, value: Vec<u8>)
    requires
        !has_entry(entries_of(*old(m)), key@),
    ensures
        entries_of(*final(m)) == entries_of(*old(m)).push((key@, value@)),
{
    m.insert(key, value);
}

/// A FILTER record value.
#[derive(Clone, Debug, PartialEq, Eq)]
pub struct Filter {
    pub description: Vec<u8>,
    pub idx: Option<usize>,
}

/// A FORMAT record value count.
#[derive(Clone, Copy, Debug, PartialEq, Eq, Structural)]
pub enum Number {
    Count(usize),
    AlternateBases,
    ReferenceAlternateBases,
    Samples,
    Unknown,
}

/// A FORMAT record value type.
#[derive(Clone, Copy, Debug, PartialEq, Eq, Structural)]
pub enum FormatType {
    Integer,
    Float,
    Character,
    String,
}

/// A FORMAT record value.
#[derive(Clone, Debug, PartialEq, Eq)]
pub struct Format {
    pub number: Number,
    pub ty: FormatType,
    pub description: Vec<u8>,
    pub idx: Option<usize>,
}

/// A header map value: the fields of its kind and any other fields.
#[derive(Debug, PartialEq, Eq)]
pub struct RecordMap<I> {
    pub inner: I,
    pub other_fields: IndexMap<Vec<u8>, Vec<u8>>,
}

impl RecordMap<Format> {
    /// A FORMAT map with no IDX and no other fields.
    pub fn new(number: Number, ty: FormatType, description: Vec<u8>) -> (m: Self)
        ensures
            m.inner.number == number,
            m.inner.ty == ty,
            m.inner.description@ == description@,
            m.inner.idx is None,
            entries_of(m.other_fields) == Seq::<(Seq<u8>, Seq<u8>)>::empty(),
    {
        RecordMap {
            inner: Format { number, ty, description, idx: None },
            other_fields: new_other_fields(),
        }
    }
}

/// The text `All filters passed`.
pub open spec fn pass_description() -> Seq<u8> {
    seq![65u8, 108, 108, 32, 102, 105, 108, 116, 101, 114, 115, 32, 112, 97, 115, 115, 101, 100]
}

fn pass_description_bytes() -> (v: Vec<u8>)
    ensures
        v@ == pass_description(),
{
    let v: Vec<u8> = vec![65u8, 108, 108, 32, 102, 105, 108, 116, 101, 114, 115, 32, 112, 97, 115, 115, 101, 100];
    assert(v@ =~= pass_description());
    v
}

impl RecordMap<Filter> {
    /// The map of the `PASS` filter.
    pub fn pass() -> (m: Self)
        ensures
            m.inner.description@ == pass_description(),
            m.inner.idx is None,
            entries_of(m.other_fields) == Seq::<(Seq<u8>, Seq<u8>)>::empty(),
    {
        RecordMap {
            inner: Filter { description: pass_description_bytes(), idx: None },
            other_fields: new_other_fields(),
        }
    }
}

/// A FILTER map key.
#[derive(Clone, Debug, PartialEq, Eq)]
pub enum Tag {
    Id,
    Description,
    Idx,
    Other(Vec<u8>),
}

/// What a tag is, with an other tag's name as a sequence.
pub enum TagView {
    Id,
    Description,
    Idx,
    Other(Seq<u8>),
}

impl View for Tag {
    type V = TagView;

    open spec fn view(&self) -> TagView {
        match self {
            Tag::Id => TagView::Id,
            Tag::Description => TagView::Description,
            Tag::Idx => TagView::Idx,
            Tag::Other(k) => TagView::Other(k@),
        }
    }
}

/// What an error is, with a repeated tag as a view.
pub enum ParseErrorView {
    InvalidMap,
    InvalidField,
    InvalidKey,
    InvalidValue,
    MissingId,
    MissingDescription,
    InvalidIdx,
    DuplicateTag(TagView),
}

impl View for ParseError {
    type V = ParseErrorView;

    open spec fn view(&self) -> ParseErrorView {
        match self {
            ParseError::InvalidMap => ParseErrorView::InvalidMap,
            ParseError::InvalidField => ParseErrorView::InvalidField,
            ParseError::InvalidKey => ParseErrorView::InvalidKey,
            ParseError::InvalidValue => ParseErrorView::InvalidValue,
            ParseError::MissingId => ParseErrorView::MissingId,
            ParseError::MissingDescription => ParseErrorView::MissingDescription,
            ParseError::InvalidIdx => ParseErrorView::InvalidIdx,
            ParseError::DuplicateTag(t) => ParseErrorView::DuplicateTag(t@),
        }
    }
}

/// An error when a FILTER map value fails to parse.
#[derive(Clone, Debug, PartialEq, Eq)]
pub enum ParseError {
    /// The map does not start with `<` or end with `>`.
    InvalidMap,
    /// A field is not followed by `,` or `>`.
    InvalidField,
    /// A key is not followed by `=`.
    InvalidKey,
    /// A value is unterminated.
    InvalidValue,
    /// There is no ID.
    MissingId,
    /// There is no Description.
    MissingDescription,
    /// The IDX is not an unsigned decimal.
    InvalidIdx,
    /// A key occurs twice.
    DuplicateTag(Tag),
}

pub open spec fn key_id() -> Seq<u8> {
    seq![73u8, 68]
}

pub open spec fn key_description() -> Seq<u8> {
    seq![68u8, 101, 115, 99, 114, 105, 112, 116, 105, 111, 110]
}

pub open spec fn key_idx() -> Seq<u8> {
    seq![73u8, 68, 88]
}

/// A key: the bytes before the next `=`.
pub open spec fn key_at(src: Seq<u8>) -> Option<(Seq<u8>, Seq<u8>)> {
    let i = find_byte(src, 61);
    if i >= src.len() {
        None
    } else {
        Some((src.take(i as int), src.skip(i + 1int)))
    }
}

/// The rest of a quoted string after `acc`: a backslash makes the next byte
/// literal, and `"` ends it.
pub open spec fn quoted_from(src: Seq<u8>, acc: Seq<u8>) -> Option<(Seq<u8>, Seq<u8>)>
    decreases src.len(),
{
    if src.len() == 0 {
        None
    } else if src[0] == 34 {
        Some((acc, src.skip(1)))
    } else if src[0] == 92 {
        if src.len() < 2 {
            None
        } else {
            quoted_from(src.skip(2), acc.push(src[1]))
        }
    } else {
        quoted_from(src.skip(1), acc.push(src[0]))
    }
}

/// The index of the first `,` or `>`, or the length of `s`.
pub open spec fn raw_end(s: Seq<u8>) -> nat
    decreases s.len(),
{
    if s.len() == 0 || s[0] == 44 || s[0] == 62 {
        0
    } else {
        1 + raw_end(s.skip(1))
    }
}

/// A value: quoted, or raw up to the next `,` or `>`.
pub open spec fn value_at(src: Seq<u8>) -> Option<(Seq<u8>, Seq<u8>)> {
    if src.len() > 0 && src[0] == 34 {
        quoted_from(src.skip(1), Seq::empty())
    } else {
        let i = raw_end(src);
        if i >= src.len() {
            None
        } else {
            Some((src.take(i as int), src.skip(i as int)))
        }
    }
}

/// The fields read so far: ID, Description, IDX and the other fields.
pub type Fields = (Option<Seq<u8>>, Option<Seq<u8>>, Option<usize>, Seq<(Seq<u8>, Seq<u8>)>);

/// The fields from `src` on, up to the `>` that ends the map (not read).
pub open spec fn fields_from(src: Seq<u8>, f: Fields) -> Result<(Fields, Seq<u8>), ParseErrorView>
    decreases src.len(),
{
    match key_at(src) {
        None => Err(ParseErrorView::InvalidKey),
        Some((k, s1)) => match value_at(s1) {
            None => Err(ParseErrorView::InvalidValue),
            Some((v, s2)) => {
                let (id, description, idx, others) = f;
                let next: Result<Fields, ParseErrorView> = if k == key_id() {
                    if id is Some {
                        Err(ParseErrorView::DuplicateTag(TagView::Id))
                    } else {
                        Ok((Some(v), description, idx, others))
                    }
                } else if k == key_description() {
                    if description is Some {
                        Err(ParseErrorView::DuplicateTag(TagView::Description))
                    } else {
                        Ok((id, Some(v), idx, others))
                    }
                } else if k == key_idx() {
                    match crate::sam::header::parse_decimal_spec(v, usize::MAX as nat) {
                        None => Err(ParseErrorView::InvalidIdx),
                        Some(n) => if idx is Some {
                            Err(ParseErrorView::DuplicateTag(TagView::Idx))
                        } else {
                            Ok((id, description, Some(n as usize), others))
                        },
                    }
                } else if has_entry(others, k) {
                    Err(ParseErrorView::DuplicateTag(TagView::Other(k)))
                } else {
                    Ok((id, description, idx, others.push((k, v))))
                };
                match next {
                    Err(e) => Err(e),
                    Ok(g) => if s2.len() == 0 || (s2[0] != 44 && s2[0] != 62) {
                        Err(ParseErrorView::InvalidField)
                    } else if s2[0] == 62 {
                        Ok((g, s2))
                    } else {
                        proof {
                            lemma_value_shorter(s1);
                            lemma_find_byte(src, 61);
                        }
                        fields_from(s2.skip(1), g)
                    },
                }
            },
        },
    }
}

pub proof fn lemma_value_shorter(src: Seq<u8>)
    ensures
        value_at(src) matches Some((v, rest)) ==> rest.len() <= src.len(),
{
    if src.len() > 0 && src[0] == 34 {
        lemma_quoted_shorter(src.skip(1), Seq::empty());
    } else {
        lemma_raw_end(src);
    }
}

proof fn lemma_quoted_shorter(src: Seq<u8>, acc: Seq<u8>)
    ensures
        quoted_from(src, acc) matches Some((v, rest)) ==> rest.len() < src.len(),
    decreases src.len(),
{
    if src.len() > 0 && src[0] != 34 {
        if src[0] == 92 {
            if src.len() >= 2 {
                lemma_quoted_shorter(src.skip(2), acc.push(src[1]));
            }
        } else {
            lemma_quoted_shorter(src.skip(1), acc.push(src[0]));
        }
    }
}

proof fn lemma_raw_end(s: Seq<u8>)
    ensures
        raw_end(s) <= s.len(),
        raw_end(s) < s.len() ==> s[raw_end(s) as int] == 44 || s[raw_end(s) as int] == 62,
    decreases s.len(),
{
    if !(s.len() == 0 || s[0] == 44 || s[0] == 62) {
        lemma_raw_end(s.skip(1));
    }
}

/// A FILTER map value: its ID and the map.
pub open spec fn filter_at(src: Seq<u8>) -> Result<((Seq<u8>, Seq<u8>, Option<usize>, Seq<(Seq<u8>, Seq<u8>)>), Seq<u8>), ParseErrorView> {
    if src.len() == 0 || src[0] != 60 {
        Err(ParseErrorView::InvalidMap)
    } else {
        match fields_from(src.skip(1), (None, None, None, Seq::empty())) {
            Err(e) => Err(e),
            Ok(((id, description, idx, others), rest)) => match id {
                None => Err(ParseErrorView::MissingId),
                Some(id) => match description {
                    None => Err(ParseErrorView::MissingDescription),
                    Some(d) => Ok(((id, d, idx, others), rest.skip(1))),
                },
            },
        }
    }
}

/// The view of an optional byte vector.
pub open spec fn opt_view(o: Option<Vec<u8>>) -> Option<Seq<u8>> {
    match o {
        Some(v) => Some(v@),
        None => None,
    }
}

/// An exec result agrees with a spec-level read.
pub open spec fn reads_value(r: Result<Vec<u8>, ParseError>, rest: Seq<u8>, p: Option<(Seq<u8>, Seq<u8>)>, e: ParseError) -> bool {
    match p {
        Some((v, after)) => r is Ok && r->Ok_0@ == v && rest == after,
        None => r is Err && r->Err_0 == e,
    }
}

fn parse_key<'a>(src: &mut &'a [u8]) -> (r: Result<Vec<u8>, ParseError>)
    ensures
        reads_value(r, final(src)@, key_at(old(src)@), ParseError::InvalidKey),
{
    let s: &'a [u8] = *src;
    let i = position(s, 61);
    proof {
        lemma_find_byte(s@, 61);
    }
    if i >= s.len() {
        return Err(ParseError::InvalidKey);
    }
    let (key, tail) = s.split_at(i);
    let (_, rest) = tail.split_at(1);
    assert(rest@ =~= s@.skip(i + 1));
    *src = rest;
    Ok(vstd::slice::slice_to_vec(key))
}

fn parse_quoted<'a>(src: &mut &'a [u8]) -> (r: Result<Vec<u8>, ParseError>)
    ensures
        reads_value(r, final(src)@, quoted_from(old(src)@, Seq::empty()), ParseError::InvalidValue),
{
    let mut out: Vec<u8> = Vec::new();
    loop
        invariant
            quoted_from(src@, out@) == quoted_from(old(src)@, Seq::empty()),
        decreases src@.len(),
    {
        let s: &'a [u8] = *src;
        if s.len() == 0 {
            return Err(ParseError::InvalidValue);
        }
        let b = s[0];
        if b == 34 {
            let (_, rest) = s.split_at(1);
            *src = rest;
            return Ok(out);
        } else if b == 92 {
            if s.len() < 2 {
                return Err(ParseError::InvalidValue);
            }
            out.push(s[1]);
            let (_, rest) = s.split_at(2);
            *src = rest;
        } else {
            out.push(b);
            let (_, rest) = s.split_at(1);
            *src = rest;
        }
    }
}

fn parse_value<'a>(src: &mut &'a [u8]) -> (r: Result<Vec<u8>, ParseError>)
    ensures
        reads_value(r, final(src)@, value_at(old(src)@), ParseError::InvalidValue),
{
    let s: &'a [u8] = *src;
    if s.len() > 0 && s[0] == 34 {
        let (_, rest) = s.split_at(1);
        *src = rest;
        return parse_quoted(src);
    }
    let mut i: usize = 0;
    assert(s@.skip(0) =~= s@);
    while i < s.len() && s[i] != 44 && s[i] != 62
        invariant
            i <= s@.len(),
            i + raw_end(s@.skip(i as int)) == raw_end(s@),
        decreases s@.len() - i,
    {
        assert(s@.skip(i as int).skip(1) =~= s@.skip(i + 1));
        i += 1;
    }
    proof {
        lemma_raw_end(s@);
    }
    if i >= s.len() {
        return Err(ParseError::InvalidValue);
    }
    let (value, rest) = s.split_at(i);
    *src = rest;
    Ok(vstd::slice::slice_to_vec(value))
}

fn parse_id<'a>(src: &mut &'a [u8]) -> (r: Result<Vec<u8>, ParseError>)
    ensures
        reads_value(r, final(src)@, value_at(old(src)@), ParseError::InvalidValue),
{
    parse_value(src)
}

fn parse_description<'a>(src: &mut &'a [u8]) -> (r: Result<Vec<u8>, ParseError>)
    ensures
        reads_value(r, final(src)@, value_at(old(src)@), ParseError::InvalidValue),
{
    parse_value(src)
}

fn parse_other<'a>(src: &mut &'a [u8]) -> (r: Result<Vec<u8>, ParseError>)
    ensures
        reads_value(r, final(src)@, value_at(old(src)@), ParseError::InvalidValue),
{
    parse_value(src)
}

fn parse_idx<'a>(src: &mut &'a [u8]) -> (r: Result<usize, ParseError>)
    ensures
        match value_at(old(src)@) {
            None => r == Err::<usize, ParseError>(ParseError::InvalidValue),
            Some((v, after)) => final(src)@ == after && match crate::sam::header::parse_decimal_spec(
                v,
                usize::MAX as nat,
            ) {
                None => r == Err::<usize, ParseError>(ParseError::InvalidIdx),
                Some(n) => r == Ok::<usize, ParseError>(n as usize),
            },
        },
{
    let v = parse_value(src)?;
    match crate::sam::header::parse_decimal(v.as_slice(), usize::MAX as u64) {
        Some(n) => Ok(n as usize),
        None => Err(ParseError::InvalidIdx),
    }
}

fn try_replace<T>(option: &mut Option<T>, tag: Tag, value: T) -> (r: Result<(), ParseError>)
    ensures
        *old(option) is None ==> r is Ok && *final(option) == Some(value),
        *old(option) is Some ==> r is Err && r->Err_0@ == ParseErrorView::DuplicateTag(tag@),
{
    if option.is_none() {
        *option = Some(value);
        Ok(())
    } else {
        Err(ParseError::DuplicateTag(tag))
    }
}

fn try_insert(other_fields: &mut IndexMap<Vec<u8>, Vec<u8>>, tag: Vec<u8>, value: Vec<u8>) -> (r: Result<(), ParseError>)
    ensures
        !has_entry(entries_of(*old(other_fields)), tag@) ==> r is Ok && entries_of(
            *final(other_fields),
        ) == entries_of(*old(other_fields)).push((tag@, value@)),
        has_entry(entries_of(*old(other_fields)), tag@) ==> r is Err && r->Err_0@
            == ParseErrorView::DuplicateTag(TagView::Other(tag@)),
{
    if contains_other(other_fields, &tag) {
        Err(ParseError::DuplicateTag(Tag::Other(tag)))
    } else {
        insert_other(other_fields, tag, value);
        Ok(())
    }
}

fn is_word(k: &Vec<u8>, w: &[u8]) -> (b: bool)
    ensures
        b == (k@ == w@),
{
    if k.len() != w.len() {
        return false;
    }
    let mut i: usize = 0;
    while i < k.len()
        invariant
            k@.len() == w@.len(),
            i <= k@.len(),
            forall|t: int| 0 <= t < i ==> k@[t] == w@[t],
        decreases k@.len() - i,
    {
        if k[i] != w[i] {
            return false;
        }
        i += 1;
    }
    assert(k@ =~= w@);
    true
}

/// Parses a FILTER map value `<ID=...,Description="...",...>`: its ID and
/// the map. ID and Description are required; IDX is an unsigned decimal; any
/// other field is kept in order; no key may occur twice.
pub fn parse_filter<'a>(src: &mut &'a [u8]) -> (r: Result<(Vec<u8>, RecordMap<Filter>), ParseError>)
    ensures
        match filter_at(old(src)@) {
            Ok(((id, d, idx, others), rest)) => r is Ok && r->Ok_0.0@ == id
                && r->Ok_0.1.inner.description@ == d && r->Ok_0.1.inner.idx == idx && entries_of(
                r->Ok_0.1.other_fields,
            ) == others && final(src)@ == rest,
            Err(e) => r is Err && r->Err_0@ == e,
        },
{
    let s: &'a [u8] = *src;
    if s.len() == 0 || s[0] != 60 {
        return Err(ParseError::InvalidMap);
    }
    let (_, rest) = s.split_at(1);
    *src = rest;
    let ghost start = src@;
    let ghost init: Fields = (None, None, None, Seq::empty());
    let mut id: Option<Vec<u8>> = None;
    let mut description: Option<Vec<u8>> = None;
    let mut idx: Option<usize> = None;
    let mut other_fields = new_other_fields();
    let w_id: [u8; 2] = [73, 68];
    let w_description: [u8; 11] = [68, 101, 115, 99, 114, 105, 112, 116, 105, 111, 110];
    let w_idx: [u8; 3] = [73, 68, 88];
    assert(w_id@ =~= key_id());
    assert(w_description@ =~= key_description());
    assert(w_idx@ =~= key_idx());
    loop
        invariant_except_break
            old(src)@.len() > 0,
            old(src)@[0] == 60,
            start == old(src)@.skip(1),
            init == (None::<Seq<u8>>, None::<Seq<u8>>, None::<usize>, Seq::<(Seq<u8>, Seq<u8>)>::empty()),
            w_id@ == key_id(),
            w_description@ == key_description(),
            w_idx@ == key_idx(),
            fields_from(src@, (opt_view(id), opt_view(description), idx, entries_of(other_fields)))
                == fields_from(start, init),
        ensures
            old(src)@.len() > 0,
            old(src)@[0] == 60,
            start == old(src)@.skip(1),
            init == (None::<Seq<u8>>, None::<Seq<u8>>, None::<usize>, Seq::<(Seq<u8>, Seq<u8>)>::empty()),
            src@.len() > 0,
            src@[0] == 62,
            fields_from(start, init) == Ok::<(Fields, Seq<u8>), ParseErrorView>(
                ((opt_view(id), opt_view(description), idx, entries_of(other_fields)), src@),
            ),
        decreases src@.len(),
    {
        let ghost s0 = src@;
        let key = parse_key(src)?;
        let ghost s1 = src@;
        proof {
            lemma_find_byte(s0, 61);
        }
        if is_word(&key, w_id.as_slice()) {
            let v = parse_id(src)?;
            try_replace(&mut id, Tag::Id, v)?;
        } else if is_word(&key, w_description.as_slice()) {
            let v = parse_description(src)?;
            try_replace(&mut description, Tag::Description, v)?;
        } else if is_word(&key, w_idx.as_slice()) {
            let v = parse_idx(src)?;
            try_replace(&mut idx, Tag::Idx, v)?;
        } else {
            let v = parse_other(src)?;
            try_insert(&mut other_fields, key, v)?;
        }
        proof {
            lemma_value_shorter(s1);
        }
        let t: &'a [u8] = *src;
        if t.len() == 0 || (t[0] != 44 && t[0] != 62) {
            return Err(ParseError::InvalidField);
        }
        if t[0] == 62 {
            break;
        }
        let (_, next) = t.split_at(1);
        *src = next;
    }
    let t: &'a [u8] = *src;
    let (_, rest) = t.split_at(1);
    *src = rest;
    let id = match id {
        Some(v) => v,
        None => return Err(ParseError::MissingId),
    };
    let description = match description {
        Some(v) => v,
        None => return Err(ParseError::MissingDescription),
    };
    Ok((id, RecordMap { inner: Filter { description, idx }, other_fields }))
}

} // verus!
