//! Parts of a base modifications group (`MM` data field): the skip counts
//! and the terminator.

use vstd::prelude::*;

use crate::sam::cigar::{
    length_at, number_len, parse_usize_prefix, sign_len, lemma_digit_run_bounded,
};

verus! {

/// An error when a base modifications group fails to parse.
#[derive(Clone, Copy, Debug, PartialEq, Eq, Structural)]
pub enum ParseError {
    /// Unexpected EOF.
    UnexpectedEof,
    /// The unmodified base is invalid.
    InvalidUnmodifiedBase,
    /// The strand is invalid.
    InvalidStrand,
    /// A modification is invalid.
    InvalidModifications,
    /// The status is invalid.
    InvalidStatus,
    /// A skip count is invalid.
    InvalidSkipCount,
    /// The terminator is invalid.
    InvalidTerminator,
}

/// The skip counts from `src` on: while a `,` follows, a count follows it,
/// read as `lexical_core::parse_partial` reads it (an optional `+` and
/// digits, none reading as 0).
pub open spec fn skip_counts_from(src: Seq<u8>, counts: Seq<usize>) -> Result<(Seq<usize>, Seq<u8>), ParseError>
    decreases src.len(),
{
    if src.len() == 0 {
        Err(ParseError::UnexpectedEof)
    } else if src[0] != 44 {
        Ok((counts, src))
    } else {
        let s = src.skip(1);
        match length_at(s) {
            None => Err(ParseError::InvalidSkipCount),
            Some(n) => {
                proof {
                    lemma_digit_run_bounded(s.skip(sign_len(s) as int));
                }
                skip_counts_from(s.skip(number_len(s) as int), counts.push(n))
            },
        }
    }
}

/// Reads the skip counts.
pub fn parse_skip_counts<'a>(src: &mut &'a [u8]) -> (r: Result<Vec<usize>, ParseError>)
    ensures
        match skip_counts_from(old(src)@, Seq::empty()) {
            Ok((counts, rest)) => r is Ok && r->Ok_0@ == counts && final(src)@ == rest,
            Err(e) => r == Err::<Vec<usize>, ParseError>(e),
        },
{
    let mut counts: Vec<usize> = Vec::new();
    loop
        invariant
            skip_counts_from(src@, counts@) == skip_counts_from(old(src)@, Seq::empty()),
        decreases src@.len(),
    {
        let s: &'a [u8] = *src;
        if s.len() == 0 {
            return Err(ParseError::UnexpectedEof);
        }
        if s[0] != 44 {
            return Ok(counts);
        }
        let (_, t) = s.split_at(1);
        let (n, i) = match parse_usize_prefix(t) {
            Ok(p) => p,
            Err(_) => return Err(ParseError::InvalidSkipCount),
        };
        proof {
            lemma_digit_run_bounded(t@.skip(sign_len(t@) as int));
        }
        let (_, rest) = t.split_at(i);
        *src = rest;
        counts.push(n);
    }
}

/// Consumes the `;` that ends a group.
pub fn consume_terminator<'a>(src: &mut &'a [u8]) -> (r: Result<(), ParseError>)
    ensures
        old(src)@.len() == 0 ==> r == Err::<(), ParseError>(ParseError::UnexpectedEof),
        old(src)@.len() > 0 && old(src)@[0] == 59 ==> r is Ok && final(src)@ == old(src)@.skip(1),
        old(src)@.len() > 0 && old(src)@[0] != 59 ==> r == Err::<(), ParseError>(
            ParseError::InvalidTerminator,
        ),
{
    let s: &'a [u8] = *src;
    if s.len() == 0 {
        Err(ParseError::UnexpectedEof)
    } else if s[0] == 59 {
        let (_, rest) = s.split_at(1);
        *src = rest;
        Ok(())
    } else {
        Err(ParseError::InvalidTerminator)
    }
}

} // verus!
