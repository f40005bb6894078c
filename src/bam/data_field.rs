//! Raw BAM record data fields: a two-byte tag, a type code, and a value.

use vstd::prelude::*;

use crate::cursor::{le16, le32, read_exact, read_u16_le, read_u32_le, read_u8};

verus! {

/// A data field tag.
pub type Tag = [u8; 2];

/// The element type of an array value.
#[derive(Clone, Copy, Debug, PartialEq, Eq, Structural)]
pub enum Subtype {
    Int8,
    UInt8,
    Int16,
    UInt16,
    Int32,
    UInt32,
    Float,
}

/// The type of a value.
#[derive(Clone, Copy, Debug, PartialEq, Eq, Structural)]
pub enum Type {
    Character,
    Int8,
    UInt8,
    Int16,
    UInt16,
    Int32,
    UInt32,
    Float,
    String,
    Hex,
    Array,
}

/// A data field value. Floats are kept as their IEEE-754 bits, strings
/// without their NUL, and arrays as their little-endian element bytes.
#[derive(Clone, Debug, PartialEq, Eq)]
pub enum Value {
    Character(u8),
    Int8(i8),
    UInt8(u8),
    Int16(i16),
    UInt16(u16),
    Int32(i32),
    UInt32(u32),
    Float(u32),
    String(Vec<u8>),
    Hex(Vec<u8>),
    Array(Subtype, Vec<u8>),
}

/// What a value holds, with byte strings as sequences.
pub enum ValueView {
    Character(u8),
    Int8(i8),
    UInt8(u8),
    Int16(i16),
    UInt16(u16),
    Int32(i32),
    UInt32(u32),
    Float(u32),
    String(Seq<u8>),
    Hex(Seq<u8>),
    Array(Subtype, Seq<u8>),
}

impl View for Value {
    type V = ValueView;

    open spec fn view(&self) -> ValueView {
        match self {
            Value::Character(c) => ValueView::Character(*c),
            Value::Int8(n) => ValueView::Int8(*n),
            Value::UInt8(n) => ValueView::UInt8(*n),
            Value::Int16(n) => ValueView::Int16(*n),
            Value::UInt16(n) => ValueView::UInt16(*n),
            Value::Int32(n) => ValueView::Int32(*n),
            Value::UInt32(n) => ValueView::UInt32(*n),
            Value::Float(n) => ValueView::Float(*n),
            Value::String(s) => ValueView::String(s@),
            Value::Hex(s) => ValueView::Hex(s@),
            Value::Array(t, s) => ValueView::Array(*t, s@),
        }
    }
}

/// An error when a data field fails to decode.
#[derive(Clone, Copy, Debug, PartialEq, Eq, Structural)]
pub enum DecodeError {
    /// The input ended inside the field.
    UnexpectedEof,
    /// The type or array subtype code is unknown.
    InvalidType,
}

/// A read from the front of the input, with the unread rest.
pub type Field<T> = Result<(T, Seq<u8>), DecodeError>;

/// The type a code names (`AcCsSiIfZHB`).
pub open spec fn type_of(b: u8) -> Option<Type> {
    if b == 65 {
        Some(Type::Character)
    } else if b == 99 {
        Some(Type::Int8)
    } else if b == 67 {
        Some(Type::UInt8)
    } else if b == 115 {
        Some(Type::Int16)
    } else if b == 83 {
        Some(Type::UInt16)
    } else if b == 105 {
        Some(Type::Int32)
    } else if b == 73 {
        Some(Type::UInt32)
    } else if b == 102 {
        Some(Type::Float)
    } else if b == 90 {
        Some(Type::String)
    } else if b == 72 {
        Some(Type::Hex)
    } else if b == 66 {
        Some(Type::Array)
    } else {
        None
    }
}

/// The array subtype a code names (`cCsSiIf`) and its element width.
pub open spec fn subtype_of(b: u8) -> Option<(Subtype, nat)> {
    if b == 99 {
        Some((Subtype::Int8, 1))
    } else if b == 67 {
        Some((Subtype::UInt8, 1))
    } else if b == 115 {
        Some((Subtype::Int16, 2))
    } else if b == 83 {
        Some((Subtype::UInt16, 2))
    } else if b == 105 {
        Some((Subtype::Int32, 4))
    } else if b == 73 {
        Some((Subtype::UInt32, 4))
    } else if b == 102 {
        Some((Subtype::Float, 4))
    } else {
        None
    }
}

/// The index of the first NUL, if any.
pub open spec fn nul_at(s: Seq<u8>) -> Option<nat>
    decreases s.len(),
{
    if s.len() == 0 {
        None
    } else if s[0] == 0 {
        Some(0)
    } else {
        match nul_at(s.skip(1)) {
            Some(i) => Some(i + 1),
            None => None,
        }
    }
}

/// Two's complement of `v` as a `bits`-bit signed value.
pub open spec fn signed(v: int, bits: nat) -> int {
    if v >= vstd::arithmetic::power2::pow2((bits - 1) as nat) {
        v - vstd::arithmetic::power2::pow2(bits)
    } else {
        v
    }
}

/// A NUL-terminated byte string.
pub open spec fn c_string(src: Seq<u8>) -> Field<Seq<u8>> {
    match nul_at(src) {
        None => Err(DecodeError::UnexpectedEof),
        Some(i) => Ok((src.take(i as int), src.skip(i + 1int))),
    }
}

/// A value of type `ty`, little-endian.
pub open spec fn value_at(src: Seq<u8>, ty: Type) -> Field<ValueView> {
    let eof = Err(DecodeError::UnexpectedEof);
    match ty {
        Type::Character => if src.len() < 1 { eof } else { Ok((ValueView::Character(src[0]), src.skip(1))) },
        Type::Int8 => if src.len() < 1 { eof } else { Ok((ValueView::Int8(signed(src[0] as int, 8) as i8), src.skip(1))) },
        Type::UInt8 => if src.len() < 1 { eof } else { Ok((ValueView::UInt8(src[0]), src.skip(1))) },
        Type::Int16 => if src.len() < 2 { eof } else { Ok((ValueView::Int16(signed(le16(src), 16) as i16), src.skip(2))) },
        Type::UInt16 => if src.len() < 2 { eof } else { Ok((ValueView::UInt16(le16(src) as u16), src.skip(2))) },
        Type::Int32 => if src.len() < 4 { eof } else { Ok((ValueView::Int32(signed(le32(src), 32) as i32), src.skip(4))) },
        Type::UInt32 => if src.len() < 4 { eof } else { Ok((ValueView::UInt32(le32(src) as u32), src.skip(4))) },
        Type::Float => if src.len() < 4 { eof } else { Ok((ValueView::Float(le32(src) as u32), src.skip(4))) },
        Type::String => match c_string(src) {
            Err(e) => Err(e),
            Ok((s, rest)) => Ok((ValueView::String(s), rest)),
        },
        Type::Hex => match c_string(src) {
            Err(e) => Err(e),
            Ok((s, rest)) => Ok((ValueView::Hex(s), rest)),
        },
        Type::Array => if src.len() < 1 {
            eof
        } else {
            match subtype_of(src[0]) {
                None => Err(DecodeError::InvalidType),
                Some((sub, width)) => {
                    let rest = src.skip(1);
                    if rest.len() < 4 {
                        eof
                    } else {
                        let n = le32(rest) * width;
                        let body = rest.skip(4);
                        if body.len() < n {
                            eof
                        } else {
                            Ok((ValueView::Array(sub, body.take(n)), body.skip(n)))
                        }
                    }
                },
            }
        },
    }
}

/// A whole field: tag, type code, value.
pub open spec fn field_at(src: Seq<u8>) -> Field<(Seq<u8>, ValueView)> {
    if src.len() < 3 {
        Err(DecodeError::UnexpectedEof)
    } else {
        match type_of(src[2]) {
            None => Err(DecodeError::InvalidType),
            Some(ty) => match value_at(src.skip(3), ty) {
                Err(e) => Err(e),
                Ok((v, rest)) => Ok(((src.take(2), v), rest)),
            },
        }
    }
}

fn type_from_code(b: u8) -> (r: Option<Type>)
    ensures
        r == type_of(b),
{
    match b {
        65 => Some(Type::Character),
        99 => Some(Type::Int8),
        67 => Some(Type::UInt8),
        115 => Some(Type::Int16),
        83 => Some(Type::UInt16),
        105 => Some(Type::Int32),
        73 => Some(Type::UInt32),
        102 => Some(Type::Float),
        90 => Some(Type::String),
        72 => Some(Type::Hex),
        66 => Some(Type::Array),
        _ => None,
    }
}

fn subtype_from_code(b: u8) -> (r: Option<(Subtype, usize)>)
    ensures
        match subtype_of(b) {
            Some((s, w)) => r == Some((s, w as usize)),
            None => r is None,
        },
{
    match b {
        99 => Some((Subtype::Int8, 1)),
        67 => Some((Subtype::UInt8, 1)),
        115 => Some((Subtype::Int16, 2)),
        83 => Some((Subtype::UInt16, 2)),
        105 => Some((Subtype::Int32, 4)),
        73 => Some((Subtype::UInt32, 4)),
        102 => Some((Subtype::Float, 4)),
        _ => None,
    }
}

/// Reads a NUL-terminated byte string.
fn read_c_string<'a>(src: &mut &'a [u8]) -> (r: Result<Vec<u8>, DecodeError>)
    ensures
        match c_string(old(src)@) {
            Ok((s, rest)) => r is Ok && r->Ok_0@ == s && final(src)@ == rest,
            Err(e) => r == Err::<Vec<u8>, DecodeError>(e),
        },
{
    let s: &'a [u8] = *src;
    let mut i: usize = 0;
    assert(s@.skip(0) =~= s@);
    while i < s.len() && s[i] != 0
        invariant
            i <= s@.len(),
            forall|k: int| 0 <= k < i ==> s@[k] != 0,
            nul_at(s@) == match nul_at(s@.skip(i as int)) {
                Some(j) => Some((j + i) as nat),
                None => None::<nat>,
            },
        decreases s@.len() - i,
    {
        assert(s@.skip(i as int).skip(1) =~= s@.skip(i + 1));
        i += 1;
    }
    if i == s.len() {
        assert(s@.skip(i as int).len() == 0);
        return Err(DecodeError::UnexpectedEof);
    }
    let (head, tail) = s.split_at(i);
    let (_, rest) = tail.split_at(1);
    assert(rest@ =~= s@.skip(i + 1));
    *src = rest;
    Ok(vstd::slice::slice_to_vec(head))
}

/// Reads a value of type `ty`.
pub fn decode_value<'a>(src: &mut &'a [u8], ty: Type) -> (r: Result<Value, DecodeError>)
    ensures
        match value_at(old(src)@, ty) {
            Ok((v, rest)) => r is Ok && r->Ok_0@ == v && final(src)@ == rest,
            Err(e) => r == Err::<Value, DecodeError>(e),
        },
{
    proof {
        vstd::arithmetic::power2::lemma2_to64();
    }
    let eof = DecodeError::UnexpectedEof;
    match ty {
        Type::Character => match read_u8(src) {
            Some(b) => Ok(Value::Character(b)),
            None => Err(eof),
        },
        Type::Int8 => match read_u8(src) {
            Some(b) => Ok(Value::Int8(if b < 128 { b as i8 } else { (b as i16 - 256) as i8 })),
            None => Err(eof),
        },
        Type::UInt8 => match read_u8(src) {
            Some(b) => Ok(Value::UInt8(b)),
            None => Err(eof),
        },
        Type::Int16 => match read_u16_le(src) {
            Some(v) => Ok(Value::Int16(if v < 0x8000 { v as i16 } else { (v as i32 - 0x10000) as i16 })),
            None => Err(eof),
        },
        Type::UInt16 => match read_u16_le(src) {
            Some(v) => Ok(Value::UInt16(v)),
            None => Err(eof),
        },
        Type::Int32 => match read_u32_le(src) {
            Some(v) => Ok(Value::Int32(if v < 0x8000_0000 { v as i32 } else { (v as i64 - 0x1_0000_0000) as i32 })),
            None => Err(eof),
        },
        Type::UInt32 => match read_u32_le(src) {
            Some(v) => Ok(Value::UInt32(v)),
            None => Err(eof),
        },
        Type::Float => match read_u32_le(src) {
            Some(v) => Ok(Value::Float(v)),
            None => Err(eof),
        },
        Type::String => {
            let s = read_c_string(src)?;
            Ok(Value::String(s))
        },
        Type::Hex => {
            let s = read_c_string(src)?;
            Ok(Value::Hex(s))
        },
        Type::Array => {
            let code = match read_u8(src) {
                Some(b) => b,
                None => return Err(eof),
            };
            let (sub, width) = match subtype_from_code(code) {
                Some(p) => p,
                None => return Err(DecodeError::InvalidType),
            };
            let count = match read_u32_le(src) {
                Some(n) => n as u64,
                None => return Err(eof),
            };
            assert(width <= 4);
            assert(count * width <= 0xffff_ffff * 4) by (nonlinear_arith)
                requires
                    count <= 0xffff_ffff,
                    width <= 4,
            ;
            let n = count * width as u64;
            if n > src.len() as u64 {
                return Err(eof);
            }
            let body = match read_exact(src, n as usize) {
                Some(b) => b,
                None => return Err(eof),
            };
            Ok(Value::Array(sub, vstd::slice::slice_to_vec(body)))
        },
    }
}

/// Decodes one data field: its tag and value.
pub fn decode_field<'a>(src: &mut &'a [u8]) -> (r: Result<(Tag, Value), DecodeError>)
    ensures
        match field_at(old(src)@) {
            Ok(((tag, v), rest)) => r is Ok && r->Ok_0.0@ == tag && r->Ok_0.1@ == v && final(src)@
                == rest,
            Err(e) => r == Err::<(Tag, Value), DecodeError>(e),
        },
{
    let s: &'a [u8] = *src;
    if s.len() < 3 {
        return Err(DecodeError::UnexpectedEof);
    }
    let tag: Tag = [s[0], s[1]];
    assert(tag@ =~= s@.take(2));
    let ty = match type_from_code(s[2]) {
        Some(t) => t,
        None => return Err(DecodeError::InvalidType),
    };
    let (_, rest) = s.split_at(3);
    *src = rest;
    let value = decode_value(src, ty)?;
    Ok((tag, value))
}

} // verus!
