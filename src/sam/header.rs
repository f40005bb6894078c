//! SAM header helpers.

use vstd::prelude::*;

use crate::sam::cigar::{is_digit, decimal_value, sign_len};

verus! {

/// A SAM format version, `major.minor`.
#[derive(Clone, Copy, Debug, PartialEq, Eq, Structural)]
pub struct Version {
    pub major: u32,
    pub minor: u32,
}

impl Version {
    pub fn new(major: u32, minor: u32) -> (v: Version)
        ensures
            v.major == major && v.minor == minor,
    {
        Version { major, minor }
    }
}

/// Every byte is an ASCII digit.
pub open spec fn all_digits(s: Seq<u8>) -> bool {
    forall|i: int| 0 <= i < s.len() ==> is_digit(#[trigger] s[i])
}

/// An unsigned decimal as `str::parse` reads it: an optional `+` and at least
/// one digit, nothing else, and a value of at most `max`.
pub open spec fn parse_decimal_spec(s: Seq<u8>, max: nat) -> Option<nat> {
    let digits = s.skip(sign_len(s) as int);
    if digits.len() == 0 || !all_digits(digits) {
        None
    } else if decimal_value(digits) > max {
        None
    } else {
        Some(decimal_value(digits))
    }
}

/// `str::parse::<u32>`.
pub open spec fn parse_u32_spec(s: Seq<u8>) -> Option<u32> {
    match parse_decimal_spec(s, u32::MAX as nat) {
        Some(v) => Some(v as u32),
        None => None,
    }
}

proof fn lemma_decimal_push(s: Seq<u8>, b: u8)
    ensures
        decimal_value(s.push(b)) == decimal_value(s) * 10 + (b - 48) as nat,
{
    assert(s.push(b).drop_last() =~= s);
}

proof fn lemma_decimal_monotone(s: Seq<u8>, i: int)
    requires
        0 <= i <= s.len(),
        forall|k: int| 0 <= k < s.len() ==> is_digit(#[trigger] s[k]),
    ensures
        decimal_value(s.take(i)) <= decimal_value(s),
    decreases s.len() - i,
{
    if i < s.len() {
        lemma_decimal_monotone(s, i + 1);
        assert(s.take(i + 1) =~= s.take(i).push(s[i]));
        lemma_decimal_push(s.take(i), s[i]);
    } else {
        assert(s.take(i) =~= s);
    }
}

/// Parses an unsigned decimal of at most `max`, as `str::parse` does.
pub fn parse_decimal(s: &[u8], max: u64) -> (r: Option<u64>)
    ensures
        match parse_decimal_spec(s@, max as nat) {
            Some(v) => r == Some(v as u64),
            None => r is None,
        },
{
    let k: usize = if s.len() > 0 && s[0] == 43 {
        1
    } else {
        0
    };
    let ghost digits = s@.skip(k as int);
    if s.len() == k {
        return None;
    }
    let mut i: usize = k;
    while i < s.len()
        invariant
            k <= i <= s@.len(),
            k < s@.len(),
            k == sign_len(s@),
            digits == s@.skip(k as int),
            forall|t: int| 0 <= t < i - k ==> is_digit(#[trigger] digits[t]),
        decreases s@.len() - i,
    {
        let b = s[i];
        if b < 48 || b > 57 {
            assert(!is_digit(digits[i - k]));
            assert(!all_digits(digits));
            return None;
        }
        i += 1;
    }
    let mut value: u128 = 0;
    let mut i: usize = k;
    while i < s.len()
        invariant
            k <= i <= s@.len(),
            k < s@.len(),
            k == sign_len(s@),
            digits == s@.skip(k as int),
            forall|t: int| 0 <= t < digits.len() ==> is_digit(#[trigger] digits[t]),
            value <= max,
            value == decimal_value(digits.take(i - k)),
        decreases s@.len() - i,
    {
        let b = s[i];
        assert(is_digit(digits[i - k]));
        proof {
            assert(digits.take(i - k + 1) =~= digits.take(i - k).push(b));
            lemma_decimal_push(digits.take(i - k), b);
        }
        value = value * 10 + (b - 48) as u128;
        if value > max as u128 {
            proof {
                lemma_decimal_monotone(digits, i - k + 1);
                assert(all_digits(digits));
            }
            return None;
        }
        i += 1;
    }
    assert(digits.take(s@.len() - k) =~= digits);
    Some(value as u64)
}

/// Parses an unsigned decimal as `str::parse::<u32>` does.
pub fn parse_u32(s: &[u8]) -> (r: Option<u32>)
    ensures
        r == parse_u32_spec(s@),
{
    match parse_decimal(s, 0xffff_ffff) {
        Some(v) => Some(v as u32),
        None => None,
    }
}

/// The index of the first `b` in `s`, or the length of `s`.
pub open spec fn find_byte(s: Seq<u8>, b: u8) -> nat
    decreases s.len(),
{
    if s.len() == 0 || s[0] == b {
        0
    } else {
        1 + find_byte(s.skip(1), b)
    }
}

pub proof fn lemma_find_byte(s: Seq<u8>, b: u8)
    ensures
        find_byte(s, b) <= s.len(),
        find_byte(s, b) < s.len() ==> s[find_byte(s, b) as int] == b,
    decreases s.len(),
{
    if s.len() > 0 && s[0] != b {
        lemma_find_byte(s.skip(1), b);
    }
}

pub fn position(s: &[u8], b: u8) -> (i: usize)
    ensures
        i == find_byte(s@, b),
{
    let mut i: usize = 0;
    assert(s@.skip(0) =~= s@);
    while i < s.len() && s[i] != b
        invariant
            i <= s@.len(),
            i + find_byte(s@.skip(i as int), b) == find_byte(s@, b),
        decreases s@.len() - i,
    {
        assert(s@.skip(i as int).skip(1) =~= s@.skip(i + 1));
        i += 1;
    }
    i
}

/// A version written `major.minor`: the text before the first `.` and the
/// text after it, each an unsigned decimal.
pub open spec fn version_spec(s: Seq<u8>) -> Option<Version> {
    let d = find_byte(s, 46);
    if d >= s.len() {
        None
    } else {
        match (parse_u32_spec(s.take(d as int)), parse_u32_spec(s.skip(d + 1int))) {
            (Some(major), Some(minor)) => Some(Version { major, minor }),
            _ => None,
        }
    }
}

/// Parses a `major.minor` version.
pub fn parse_version(s: &[u8]) -> (r: Option<Version>)
    ensures
        r == version_spec(s@),
{
    let d = position(s, 46);
    proof {
        lemma_find_byte(s@, 46);
    }
    if d >= s.len() {
        return None;
    }
    let (raw_major, rest) = s.split_at(d);
    let (_, raw_minor) = rest.split_at(1);
    assert(raw_minor@ =~= s@.skip(d + 1));
    let major = parse_u32(raw_major)?;
    let minor = parse_u32(raw_minor)?;
    Some(Version::new(major, minor))
}

/// The `VN` value of the first field that has one.
pub open spec fn version_in(fields: Seq<u8>) -> Option<Version>
    decreases fields.len(),
{
    let f = find_byte(fields, 9);
    let field = fields.take(f as int);
    if field.len() >= 3 && field.take(3) == seq![86u8, 78u8, 58u8] {
        version_spec(field.skip(3))
    } else if f >= fields.len() {
        None
    } else {
        version_in(fields.skip(f + 1int))
    }
}

/// The version that a header (`@HD`) line declares in its `VN` field.
pub open spec fn header_version(src: Seq<u8>) -> Option<Version> {
    if src.len() >= 4 && src.take(4) == seq![64u8, 72u8, 68u8, 9u8] {
        version_in(src.skip(4))
    } else {
        None
    }
}

/// Reads the version from a raw `@HD` line; `None` for any other line, a
/// line without a `VN` field, or a malformed version.
pub fn extract_version(src: &[u8]) -> (r: Option<Version>)
    ensures
        r == header_version(src@),
{
    if src.len() < 4 || src[0] != 64 || src[1] != 72 || src[2] != 68 || src[3] != 9 {
        proof {
            if src@.len() >= 4 && src@.take(4) == seq![64u8, 72u8, 68u8, 9u8] {
                assert(src@.take(4)[0] == 64);
                assert(src@.take(4)[1] == 72);
                assert(src@.take(4)[2] == 68);
                assert(src@.take(4)[3] == 9);
            }
        }
        return None;
    }
    assert(src@.take(4) =~= seq![64u8, 72u8, 68u8, 9u8]);
    let (_, mut rest) = src.split_at(4);
    loop
        invariant
            version_in(rest@) == header_version(src@),
        decreases rest@.len(),
    {
        let f = position(rest, 9);
        proof {
            lemma_find_byte(rest@, 9);
        }
        let (field, tail) = rest.split_at(f);
        if field.len() >= 3 && field[0] == 86 && field[1] == 78 && field[2] == 58 {
            assert(field@.take(3) =~= seq![86u8, 78u8, 58u8]);
            let (_, raw_version) = field.split_at(3);
            return parse_version(raw_version);
        }
        proof {
            if field@.len() >= 3 && field@.take(3) == seq![86u8, 78u8, 58u8] {
                assert(field@.take(3)[0] == 86);
                assert(field@.take(3)[1] == 78);
                assert(field@.take(3)[2] == 58);
            }
        }
        if f >= rest.len() {
            return None;
        }
        let (_, next) = tail.split_at(1);
        assert(next@ =~= rest@.skip(f + 1));
        rest = next;
    }
}

} // verus!
