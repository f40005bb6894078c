//! VCF record columns: an ID and the FILTER column.

use vstd::prelude::*;
use vstd::string::StrSliceExecFns;
use indexmap::IndexSet;

verus! {

#[verifier::external_type_specification]
#[verifier::external_body]
#[verifier::reject_recursive_types(T)]
#[verifier::reject_recursive_types(S)]
pub struct ExIndexSet<T, S>(IndexSet<T, S>);

/// Unicode `White_Space`: U+0009 to U+000D, U+0020, U+0085, U+00A0, U+1680,
/// U+2000 to U+200A, U+2028, U+2029, U+202F, U+205F and U+3000.
pub open spec fn is_whitespace(c: char) -> bool {
    let u = c as u32;
    ||| 0x09 <= u <= 0x0d
    ||| u == 0x20
    ||| u == 0x85
    ||| u == 0xa0
    ||| u == 0x1680
    ||| 0x2000 <= u <= 0x200a
    ||| u == 0x2028
    ||| u == 0x2029
    ||| u == 0x202f
    ||| u == 0x205f
    ||| u == 0x3000
}

/// Relies on `char::is_whitespace`: the Unicode `White_Space` property.
#[verifier::external_body]
fn char_is_whitespace(c: char) -> (b: bool)
    ensures
        b == is_whitespace(c),
{
    c.is_whitespace()
}

/// The filters of a set, in insertion order.
pub uninterp spec fn filters_of(set: IndexSet<String>) -> Seq<Seq<char>>;

/// Relies on `IndexSet::new`: a set without items.
#[verifier::external_body]
fn new_filter_set() -> (set: IndexSet<String>)
    ensures
        filters_of(set) == Seq::<Seq<char>>::empty(),
{
    IndexSet::new()
}

/// Relies on `IndexSet::insert`: an item not yet in the set is added last
/// and `true` returned; otherwise the set stays as it is and `false` is
/// returned (strings are equal when their characters are).
#[verifier::external_body]
fn insert_filter(set: &mut IndexSet<String>, value: String) -> (inserted: bool)
    ensures
        inserted == !filters_of(*old(set)).contains(value@),
        inserted ==> filters_of(*final(set)) == filters_of(*old(set)).push(value@),
        !inserted ==> filters_of(*final(set)) == filters_of(*old(set)),
{
    set.insert(value)
}

/// No character of `s` is white space.
pub open spec fn no_whitespace(s: Seq<char>) -> bool {
    forall|i: int| 0 <= i < s.len() ==> !is_whitespace(#[trigger] s[i])
}

fn has_no_whitespace(s: &str) -> (b: bool)
    ensures
        b == no_whitespace(s@),
{
    let n = s.unicode_len();
    let mut i: usize = 0;
    while i < n
        invariant
            n == s@.len(),
            i <= n,
            forall|k: int| 0 <= k < i ==> !is_whitespace(#[trigger] s@[k]),
        decreases n - i,
    {
        if char_is_whitespace(s.get_char(i)) {
            return false;
        }
        i += 1;
    }
    true
}

/// A VCF record ID.
#[derive(Clone, Debug, PartialEq, Eq)]
pub struct Id(String);

impl View for Id {
    type V = Seq<char>;

    closed spec fn view(&self) -> Seq<char> {
        self.0@
    }
}

impl Id {
    pub fn as_str(&self) -> (s: &str)
        ensures
            s@ == self@,
    {
        self.0.as_str()
    }
}

/// An error when a raw VCF record ID fails to parse.
#[derive(Clone, Copy, Debug, PartialEq, Eq, Structural)]
pub enum IdParseError {
    /// The input is empty.
    Empty,
    /// The input is invalid.
    Invalid,
}

/// An ID has no white space.
pub fn is_valid_id(s: &str) -> (b: bool)
    ensures
        b == no_whitespace(s@),
{
    has_no_whitespace(s)
}

/// Parses a raw VCF record ID.
pub fn parse_id(s: &str) -> (r: Result<Id, IdParseError>)
    ensures
        s@.len() == 0 ==> r == Err::<Id, IdParseError>(IdParseError::Empty),
        s@.len() > 0 && no_whitespace(s@) ==> (r matches Ok(id) && id@ == s@),
        s@.len() > 0 && !no_whitespace(s@) ==> r == Err::<Id, IdParseError>(
            IdParseError::Invalid,
        ),
{
    if s.unicode_len() == 0 {
        Err(IdParseError::Empty)
    } else if is_valid_id(s) {
        Ok(Id(s.to_owned()))
    } else {
        Err(IdParseError::Invalid)
    }
}

/// A FILTER column: `PASS`, or the filters that failed.
#[derive(Debug, PartialEq, Eq)]
pub enum Filters {
    Pass,
    Fail(IndexSet<String>),
}

/// An error when a raw VCF record FILTER column fails to parse.
#[derive(Clone, Copy, Debug, PartialEq, Eq, Structural)]
pub enum FiltersParseError {
    /// The input is empty.
    Empty,
    /// A filter is invalid.
    InvalidFilter,
    /// A filter is duplicated.
    DuplicateFilter,
}

/// A filter is neither empty nor `0` and has no white space.
pub open spec fn valid_filter(s: Seq<char>) -> bool {
    s.len() != 0 && s != seq!['0'] && no_whitespace(s)
}

/// Whether `s` is a valid filter name.
pub fn is_valid_filter(s: &str) -> (b: bool)
    ensures
        b == valid_filter(s@),
{
    let n = s.unicode_len();
    if n == 0 {
        return false;
    }
    if n == 1 && s.get_char(0) == '0' {
        assert(s@ =~= seq!['0']);
        return false;
    }
    proof {
        if n == 1 && s@ == seq!['0'] {
            assert(s@[0] == '0');
        }
    }
    has_no_whitespace(s)
}

/// The index of the first `;` in `s`, or its length.
pub open spec fn semicolon_at(s: Seq<char>) -> nat
    decreases s.len(),
{
    if s.len() == 0 || s[0] == ';' {
        0
    } else {
        1 + semicolon_at(s.skip(1))
    }
}

pub proof fn lemma_semicolon_at(s: Seq<char>)
    ensures
        semicolon_at(s) <= s.len(),
        semicolon_at(s) < s.len() ==> s[semicolon_at(s) as int] == ';',
        forall|k: int| 0 <= k < semicolon_at(s) ==> s[k] != ';',
    decreases s.len(),
{
    if !(s.len() == 0 || s[0] == ';') {
        lemma_semicolon_at(s.skip(1));
        assert forall|k: int| 0 <= k < semicolon_at(s) implies s[k] != ';' by {
            if k > 0 {
                assert(s[k] == s.skip(1)[k - 1]);
            }
        }
    }
}

/// The filters of the rest of the column after those in `set`, which are
/// separated by `;`: each is added in order, and fails when it is already
/// there or is not a valid filter.
pub open spec fn filters_from(s: Seq<char>, set: Seq<Seq<char>>) -> Result<Seq<Seq<char>>, FiltersParseError>
    decreases s.len(),
{
    let i = semicolon_at(s);
    let f = s.take(i as int);
    if set.contains(f) {
        Err(FiltersParseError::DuplicateFilter)
    } else if !valid_filter(f) {
        Err(FiltersParseError::InvalidFilter)
    } else if i >= s.len() {
        Ok(set.push(f))
    } else {
        proof {
            lemma_semicolon_at(s);
        }
        filters_from(s.skip(i + 1int), set.push(f))
    }
}

/// What a FILTER column holds: `None` for `PASS`, the failed filters
/// otherwise.
pub open spec fn filters_spec(s: Seq<char>) -> Result<Option<Seq<Seq<char>>>, FiltersParseError> {
    if s.len() == 0 {
        Err(FiltersParseError::Empty)
    } else if s == seq!['P', 'A', 'S', 'S'] {
        Ok(None)
    } else {
        match filters_from(s, Seq::empty()) {
            Err(e) => Err(e),
            Ok(set) => Ok(Some(set)),
        }
    }
}

/// Parses a raw FILTER column into `filters`, which is left `None` on error.
pub fn parse_filters(s: &str, filters: &mut Option<Filters>) -> (r: Result<(), FiltersParseError>)
    ensures
        match filters_spec(s@) {
            Err(e) => r == Err::<(), FiltersParseError>(e) && (e != FiltersParseError::Empty
                ==> *final(filters) is None),
            Ok(None) => r is Ok && *final(filters) matches Some(Filters::Pass),
            Ok(Some(set)) => r is Ok && (*final(filters) matches Some(Filters::Fail(f))
                && filters_of(f) == set),
        },
{
    let n = s.unicode_len();
    if n == 0 {
        return Err(FiltersParseError::Empty);
    }
    if n == 4 && s.get_char(0) == 'P' && s.get_char(1) == 'A' && s.get_char(2) == 'S'
        && s.get_char(3) == 'S' {
        assert(s@ =~= seq!['P', 'A', 'S', 'S']);
        *filters = Some(Filters::Pass);
        return Ok(());
    }
    proof {
        if s@ == seq!['P', 'A', 'S', 'S'] {
            assert(s@[0] == 'P' && s@[1] == 'A' && s@[2] == 'S' && s@[3] == 'S');
        }
    }
    *filters = None;
    let mut set = new_filter_set();
    let mut start: usize = 0;
    assert(s@.skip(0) =~= s@);
    loop
        invariant
            n == s@.len(),
            start <= n,
            *filters is None,
            filters_spec(s@) == match filters_from(s@.skip(start as int), filters_of(set)) {
                Err(e) => Err(e),
                Ok(set) => Ok(Some(set)),
            },
        decreases n - start,
    {
        let ghost rest = s@.skip(start as int);
        let mut end = start;
        while end < n && s.get_char(end) != ';'
            invariant
                n == s@.len(),
                start <= end <= n,
                rest == s@.skip(start as int),
                (end - start) + semicolon_at(s@.skip(end as int)) == semicolon_at(rest),
            decreases n - end,
        {
            assert(s@.skip(end as int).skip(1) =~= s@.skip(end + 1));
            end += 1;
        }
        proof {
            lemma_semicolon_at(s@.skip(end as int));
        }
        let raw_filter = s.substring_char(start, end);
        assert(raw_filter@ =~= rest.take(semicolon_at(rest) as int));
        let inserted = insert_filter(&mut set, raw_filter.to_owned());
        if !inserted {
            return Err(FiltersParseError::DuplicateFilter);
        }
        if !is_valid_filter(raw_filter) {
            return Err(FiltersParseError::InvalidFilter);
        }
        if end >= n {
            *filters = Some(Filters::Fail(set));
            return Ok(());
        }
        assert(rest.skip(semicolon_at(rest) + 1int) =~= s@.skip(end + 1));
        start = end + 1;
    }
}

} // verus!
