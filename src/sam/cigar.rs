//! Raw SAM record CIGAR operations, parsed from their text form (`8M13N`).

use vstd::prelude::*;

verus! {

#[verifier::external_type_specification]
#[verifier::external_body]
pub struct ExLexicalError(lexical_core::Error);

/// An ASCII decimal digit.
pub open spec fn is_digit(b: u8) -> bool {
    48 <= b <= 57
}

/// The number of leading ASCII digits.
pub open spec fn digit_run(s: Seq<u8>) -> nat
    decreases s.len(),
{
    if s.len() > 0 && is_digit(s[0]) {
        1 + digit_run(s.skip(1))
    } else {
        0
    }
}

/// The value of a string of ASCII digits (0 when empty).
pub open spec fn decimal_value(s: Seq<u8>) -> nat
    decreases s.len(),
{
    if s.len() == 0 {
        0
    } else {
        decimal_value(s.drop_last()) * 10 + (s.last() - 48) as nat
    }
}

/// 1 when `s` starts with a `+` sign.
pub open spec fn sign_len(s: Seq<u8>) -> nat {
    if s.len() > 0 && s[0] == 43 {
        1
    } else {
        0
    }
}

/// The length of the optional sign and the digits after it.
pub open spec fn number_len(s: Seq<u8>) -> nat {
    sign_len(s) + digit_run(s.skip(sign_len(s) as int))
}

/// The value of the digits after the optional sign.
pub open spec fn number_value(s: Seq<u8>) -> nat {
    decimal_value(s.subrange(sign_len(s) as int, number_len(s) as int))
}

/// What `lexical_core::parse_partial::<usize>` returns for `s`: the value
/// and the number of bytes read, or `None` for an error.
pub uninterp spec fn lexical_usize_prefix(s: Seq<u8>) -> Option<(usize, usize)>;

/// Relies on `lexical_core::parse_partial::<usize>`: after an optional `+`,
/// the longest run of ASCII digits is read (none reads as 0) and the count
/// of bytes read is returned; it fails when nothing follows the sign. A
/// value that fits `usize` is exact; digits accumulate with wrapping, so a
/// larger one either fails or comes back wrapped.
#[verifier::external_body]
pub(crate) fn parse_usize_prefix(src: &[u8]) -> (r: Result<(usize, usize), lexical_core::Error>)
    ensures
        match r {
            Ok((n, i)) => {
                &&& lexical_usize_prefix(src@) == Some((n, i))
                &&& i == number_len(src@)
                &&& src@.len() > sign_len(src@)
                &&& number_value(src@) <= usize::MAX ==> n == number_value(src@)
            },
            Err(_) => {
                &&& lexical_usize_prefix(src@) is None
                &&& src@.len() <= sign_len(src@) || number_value(src@) > usize::MAX
            },
        },
{
    lexical_core::parse_partial::<usize>(src)
}

/// A CIGAR operation kind.
#[derive(Clone, Copy, Debug, PartialEq, Eq, Structural)]
pub enum Kind {
    /// An alignment match (`M`).
    Match,
    /// An insertion into the reference (`I`).
    Insertion,
    /// A deletion from the reference (`D`).
    Deletion,
    /// A skipped region from the reference (`N`).
    Skip,
    /// A soft clip (`S`).
    SoftClip,
    /// A hard clip (`H`).
    HardClip,
    /// Padding (`P`).
    Pad,
    /// A sequence match (`=`).
    SequenceMatch,
    /// A sequence mismatch (`X`).
    SequenceMismatch,
}

/// A CIGAR operation: a kind and a length.
#[derive(Clone, Copy, Debug, PartialEq, Eq, Structural)]
pub struct Op {
    pub kind: Kind,
    pub len: usize,
}

impl Op {
    pub fn new(kind: Kind, len: usize) -> (op: Op)
        ensures
            op.kind == kind && op.len == len,
    {
        Op { kind, len }
    }
}

/// An error when a CIGAR operation fails to parse.
#[derive(Clone, Copy, Debug, PartialEq, Eq, Structural)]
pub enum ParseError {
    /// The input ended before the operation kind.
    UnexpectedEof,
    /// The length is missing or does not fit `usize`.
    InvalidLength,
    /// The kind is not one of `MIDNSHP=X`.
    InvalidKind,
}

/// The kind a byte names.
pub open spec fn kind_of(b: u8) -> Option<Kind> {
    if b == 77 {
        Some(Kind::Match)
    } else if b == 73 {
        Some(Kind::Insertion)
    } else if b == 68 {
        Some(Kind::Deletion)
    } else if b == 78 {
        Some(Kind::Skip)
    } else if b == 83 {
        Some(Kind::SoftClip)
    } else if b == 72 {
        Some(Kind::HardClip)
    } else if b == 80 {
        Some(Kind::Pad)
    } else if b == 61 {
        Some(Kind::SequenceMatch)
    } else if b == 88 {
        Some(Kind::SequenceMismatch)
    } else {
        None
    }
}

/// The number at the front of `src` as `lexical_core::parse_partial` reads
/// it: nothing when the input ends at the sign, the decimal value when it
/// fits `usize`, and lexical's own result otherwise.
pub open spec fn length_at(src: Seq<u8>) -> Option<usize> {
    if src.len() <= sign_len(src) {
        None
    } else if number_value(src) <= usize::MAX {
        Some(number_value(src) as usize)
    } else {
        match lexical_usize_prefix(src) {
            None => None,
            Some((n, _)) => Some(n),
        }
    }
}

/// One operation at the front of `src`: a length, then a kind.
pub open spec fn op_at(src: Seq<u8>) -> Result<(Op, Seq<u8>), ParseError> {
    match length_at(src) {
        None => Err(ParseError::InvalidLength),
        Some(len) => {
            let rest = src.skip(number_len(src) as int);
            if rest.len() == 0 {
                Err(ParseError::UnexpectedEof)
            } else {
                match kind_of(rest[0]) {
                    None => Err(ParseError::InvalidKind),
                    Some(kind) => Ok((Op { kind, len }, rest.skip(1))),
                }
            }
        },
    }
}

pub proof fn lemma_digit_run_bounded(s: Seq<u8>)
    ensures
        digit_run(s) <= s.len(),
    decreases s.len(),
{
    if s.len() > 0 && is_digit(s[0]) {
        lemma_digit_run_bounded(s.skip(1));
    }
}

/// The operations of `src` in order, ending after the first error.
pub open spec fn ops(src: Seq<u8>) -> Seq<Result<Op, ParseError>>
    decreases src.len(),
{
    if src.len() == 0 {
        Seq::empty()
    } else {
        match op_at(src) {
            Err(e) => seq![Err(e)],
            Ok((op, rest)) => {
                proof {
                    lemma_digit_run_bounded(src.skip(sign_len(src) as int));
                }
                seq![Ok(op)] + ops(rest)
            },
        }
    }
}

fn kind_from_byte(b: u8) -> (r: Option<Kind>)
    ensures
        r == kind_of(b),
{
    match b {
        77 => Some(Kind::Match),
        73 => Some(Kind::Insertion),
        68 => Some(Kind::Deletion),
        78 => Some(Kind::Skip),
        83 => Some(Kind::SoftClip),
        72 => Some(Kind::HardClip),
        80 => Some(Kind::Pad),
        61 => Some(Kind::SequenceMatch),
        88 => Some(Kind::SequenceMismatch),
        _ => None,
    }
}

/// Parses one operation from the front of `src`.
pub fn parse_op<'a>(src: &mut &'a [u8]) -> (r: Result<Op, ParseError>)
    ensures
        match op_at(old(src)@) {
            Ok((op, rest)) => r == Ok::<Op, ParseError>(op) && final(src)@ == rest,
            Err(e) => r == Err::<Op, ParseError>(e),
        },
{
    let s: &'a [u8] = *src;
    let (len, i) = match parse_usize_prefix(s) {
        Ok(p) => p,
        Err(_) => return Err(ParseError::InvalidLength),
    };
    proof {
        lemma_digit_run_bounded(s@.skip(sign_len(s@) as int));
    }
    let (_, rest) = s.split_at(i);
    if rest.len() == 0 {
        return Err(ParseError::UnexpectedEof);
    }
    let kind = match kind_from_byte(rest[0]) {
        Some(k) => k,
        None => return Err(ParseError::InvalidKind),
    };
    let (_, tail) = rest.split_at(1);
    *src = tail;
    Ok(Op::new(kind, len))
}

/// Raw SAM record CIGAR operations.
#[derive(Debug, Eq, PartialEq)]
pub struct Cigar<'a>(&'a [u8]);

impl<'a> View for Cigar<'a> {
    type V = Seq<u8>;

    closed spec fn view(&self) -> Seq<u8> {
        self.0@
    }
}

impl<'a> Cigar<'a> {
    pub fn new(src: &'a [u8]) -> (c: Self)
        ensures
            c@ == src@,
    {
        Cigar(src)
    }

    /// Returns whether there are any CIGAR operations.
    pub fn is_empty(&self) -> (b: bool)
        ensures
            b == (self@.len() == 0),
    {
        self.0.len() == 0
    }

    pub fn as_bytes(&self) -> (s: &'a [u8])
        ensures
            s@ == self@,
    {
        self.0
    }

    /// The operations in order; parsing stops at the first error, which is
    /// the last item.
    pub fn iter(&self) -> (r: Vec<Result<Op, ParseError>>)
        ensures
            r@ == ops(self@),
    {
        let mut out: Vec<Result<Op, ParseError>> = Vec::new();
        let mut src: &'a [u8] = self.0;
        while src.len() > 0
            invariant
                out@ + ops(src@) == ops(self@),
            decreases src@.len(),
        {
            let ghost s0 = src@;
            proof {
                lemma_digit_run_bounded(s0.skip(sign_len(s0) as int));
            }
            match parse_op(&mut src) {
                Ok(op) => {
                    out.push(Ok(op));
                    assert(out@ + ops(src@) =~= ops(self@));
                },
                Err(e) => {
                    out.push(Err(e));
                    assert(out@ =~= ops(self@));
                    return out;
                },
            }
        }
        assert(out@ =~= ops(self@));
        out
    }
}

} // verus!
