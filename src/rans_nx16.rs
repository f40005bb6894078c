//! rANS Nx16 decoding: the entropy codec of CRAM 3.1 data blocks.
//!
//! A block starts with a flag byte that selects the transforms: an order-0 or
//! order-1 adaptive model, 4 or 32 interleaved rANS lanes, striping into
//! independently coded sub-streams, and the RLE and PACK pre-transforms,
//! which are undone after entropy decoding.

pub mod model;
pub mod order_0;
pub mod order_1;
pub mod pack;
pub mod rle;
pub mod truncation;

use vstd::prelude::*;

use vstd::slice::slice_to_vec;
use vstd::arithmetic::div_mod::lemma_fundamental_div_mod;

use crate::cursor::{uint7, lemma_uint7_shorter, read_exact, uint7_bytes, lemma_uint7_round_trip};
use self::model::{Parsed, byte, bytes, varint, next_u8, next_len, next_uint7, reads_bytes};
use self::order_0::order0;
use self::order_1::order1;
use self::pack::unpack;
use self::rle::unrle;

verus! {

/// A decoding failure.
#[derive(Clone, Copy, Debug, PartialEq, Eq, Structural)]
pub enum DecodeError {
    /// The input ended before a read completed.
    UnexpectedEof,
    /// A table, length or symbol in the input is malformed.
    InvalidData,
}


/// Order-1 model (order-0 when clear).
pub const ORDER: u8 = 0x01;
/// 32 interleaved lanes (4 when clear).
pub const N32: u8 = 0x04;
/// The data is split into independently coded stripes.
pub const STRIPE: u8 = 0x08;
/// No uncompressed length follows the flags; the caller supplies it.
pub const NO_SIZE: u8 = 0x10;
/// The data is stored without entropy coding.
pub const CAT: u8 = 0x20;
/// Runs were collapsed before entropy coding.
pub const RLE: u8 = 0x40;
/// Symbols were bit-packed before entropy coding.
pub const PACK: u8 = 0x80;

/// The number of interleaved rANS lanes the flags select.
pub open spec fn lanes(flags: u8) -> nat {
    if flags & N32 != 0 {
        32
    } else {
        4
    }
}

/// The PACK header: the symbol count (1 to 16), the symbol table, and the
/// length of the packed data.
pub open spec fn pack_meta(src: Seq<u8>) -> Parsed<(Seq<u8>, nat)> {
    match byte(src) {
        Err(e) => Err(e),
        Ok((k, s1)) => if k == 0 || k > 16 {
            Err(DecodeError::InvalidData)
        } else {
            match bytes(s1, k as nat) {
                Err(e) => Err(e),
                Ok((p, s2)) => match varint(s2) {
                    Err(e) => Err(e),
                    Ok((len, s3)) => Ok(((p, len as nat), s3)),
                },
            }
        },
    }
}

/// The symbols flagged in the RLE meta: a count `m` (0 meaning 256), then
/// `m` symbols. Returns the flags and the rest of the meta, the run lengths.
pub open spec fn flagged(meta: Seq<u8>) -> Parsed<Seq<bool>> {
    if meta.len() == 0 {
        Err(DecodeError::UnexpectedEof)
    } else {
        let m: int = if meta[0] == 0 {
            256
        } else {
            meta[0] as int
        };
        if meta.len() < 1 + m {
            Err(DecodeError::UnexpectedEof)
        } else {
            Ok((flag_set(meta, m), meta.skip(1 + m)))
        }
    }
}

/// Flags for the symbols listed at positions `1..=m` of `meta`.
pub open spec fn flag_set(meta: Seq<u8>, m: int) -> Seq<bool> {
    Seq::new(256, |s: int| exists|t: int| 1 <= t <= m && #[trigger] meta[t] as int == s)
}

/// The RLE meta bytes: stored raw when the meta length is odd, order-0
/// coded after their coded length when it is even; there are half the meta
/// length of them.
pub open spec fn meta_bytes(src: Seq<u8>, meta_len: u32, n: nat) -> Parsed<Seq<u8>> {
    if meta_len % 2 == 1 {
        bytes(src, (meta_len / 2) as nat)
    } else {
        match varint(src) {
            Err(e) => Err(e),
            Ok((c_len, s1)) => match bytes(s1, c_len as nat) {
                Err(e) => Err(e),
                Ok((c, s2)) => match order0(c, (meta_len / 2) as nat, n) {
                    Err(e) => Err(e),
                    Ok((m, _)) => Ok((m, s2)),
                },
            },
        }
    }
}

/// The RLE header: the meta length, the length before run expansion, and
/// the meta. Returns the flagged symbols, the run lengths and that length.
pub open spec fn rle_meta(src: Seq<u8>, n: nat) -> Parsed<(Seq<bool>, Seq<u8>, nat)> {
    match varint(src) {
        Err(e) => Err(e),
        Ok((meta_len, s1)) => match varint(s1) {
            Err(e) => Err(e),
            Ok((len, s2)) => match meta_bytes(s2, meta_len, n) {
                Err(e) => Err(e),
                Ok((meta, s3)) => match flagged(meta) {
                    Err(e) => Err(e),
                    Ok((l, runs)) => Ok(((l, runs, len as nat), s3)),
                },
            },
        },
    }
}

/// A block without stripes: the PACK and RLE headers when flagged, the
/// entropy-coded (or raw) data, then RLE and PACK undone in that order.
#[verifier::opaque]
pub open spec fn body(src: Seq<u8>, flags: u8, len: nat, n: nat) -> Parsed<Seq<u8>> {
    let packed: Parsed<(Seq<u8>, nat)> = if flags & PACK != 0 {
        pack_meta(src)
    } else {
        Ok(((Seq::empty(), len), src))
    };
    match packed {
        Err(e) => Err(e),
        Ok(((p, len1), s1)) => {
            let rled: Parsed<(Seq<bool>, Seq<u8>, nat)> = if flags & RLE != 0 {
                rle_meta(s1, n)
            } else {
                Ok(((Seq::empty(), Seq::empty(), len1), s1))
            };
            match rled {
                Err(e) => Err(e),
                Ok(((l, runs, len2), s2)) => {
                    let core = if flags & CAT != 0 {
                        bytes(s2, len2)
                    } else if flags & ORDER != 0 {
                        order1(s2, len2, n)
                    } else {
                        order0(s2, len2, n)
                    };
                    match core {
                        Err(e) => Err(e),
                        Ok((data, s3)) => {
                            let expanded = if flags & RLE != 0 {
                                unrle(data, l, runs, len1)
                            } else {
                                Ok(data)
                            };
                            match expanded {
                                Err(e) => Err(e),
                                Ok(d1) => {
                                    let unpacked = if flags & PACK != 0 {
                                        unpack(d1, p, len)
                                    } else {
                                        Ok(d1)
                                    };
                                    match unpacked {
                                        Err(e) => Err(e),
                                        Ok(d2) => Ok((d2, s3)),
                                    }
                                },
                            }
                        },
                    }
                },
            }
        },
    }
}

/// `count` base-128 integers, skipped.
pub open spec fn skip_lens(src: Seq<u8>, count: nat) -> Parsed<()>
    decreases count,
{
    if count == 0 {
        Ok(((), src))
    } else {
        match varint(src) {
            Err(e) => Err(e),
            Ok((_, rest)) => skip_lens(rest, (count - 1) as nat),
        }
    }
}

pub proof fn lemma_skip_lens_shorter(src: Seq<u8>, count: nat)
    ensures
        skip_lens(src, count) matches Ok((_, rest)) ==> rest.len() <= src.len(),
    decreases count,
{
    if count > 0 {
        lemma_uint7_shorter(src, 0);
        if let Some((_, rest)) = uint7(src) {
            lemma_skip_lens_shorter(rest, (count - 1) as nat);
        }
    }
}

/// The uncompressed length of stripe `j` of `x`: an even share of `len`,
/// plus one while `j` is below the remainder of `len` by the lane width.
pub open spec fn stripe_len(len: nat, x: nat, n: nat, j: nat) -> nat {
    len / x + if len % n > j {
        1nat
    } else {
        0nat
    }
}

/// The output position of symbol `i` of stripe `j` with lane width `n`.
pub open spec fn stripe_pos(n: nat, j: nat, i: nat) -> nat {
    i * n + j
}

/// With as many stripes as lanes, every symbol of every stripe lands inside
/// `[0, len)`, every position there is written by some stripe and symbol,
/// and no two stripe/symbol pairs share a position.
pub proof fn lemma_stripe_positions(len: nat, n: nat)
    requires
        n > 0,
    ensures
        forall|j: nat, i: nat|
            j < n && i < #[trigger] stripe_len(len, n, n, j) ==> #[trigger] stripe_pos(n, j, i) < len,
        forall|p: nat|
            p < len ==> {
                &&& #[trigger] (p % n) < n
                &&& p / n < stripe_len(len, n, n, p % n)
                &&& stripe_pos(n, p % n, p / n) == p
            },
        forall|j1: nat, i1: nat, j2: nat, i2: nat|
            j1 < n && j2 < n && #[trigger] stripe_pos(n, j1, i1) == #[trigger] stripe_pos(n, j2, i2)
                ==> j1 == j2 && i1 == i2,
{
    lemma_fundamental_div_mod(len as int, n as int);
    assert forall|j: nat, i: nat| j < n && i < #[trigger] stripe_len(len, n, n, j) implies #[trigger] stripe_pos(
        n,
        j,
        i,
    ) < len by {
        let q = len / n;
        let r = len % n;
        if i < q {
            assert(i * n + j < len) by (nonlinear_arith)
                requires
                    i < q,
                    j < n,
                    len == n * q + r,
                    r >= 0,
            ;
        } else {
            assert(i == q && j < r);
            assert(i * n + j < len) by (nonlinear_arith)
                requires
                    i == q,
                    j < r,
                    len == n * q + r,
            ;
        }
    }
    assert forall|p: nat| p < len implies {
        &&& #[trigger] (p % n) < n
        &&& p / n < stripe_len(len, n, n, p % n)
        &&& stripe_pos(n, p % n, p / n) == p
    } by {
        lemma_fundamental_div_mod(p as int, n as int);
        let q = len / n;
        let r = len % n;
        assert(p / n <= q) by {
            vstd::arithmetic::div_mod::lemma_div_is_ordered(p as int, len as int, n as int);
        }
        if p / n == q {
            assert(p % n < r) by (nonlinear_arith)
                requires
                    p == n * (p / n) + p % n,
                    p / n == q,
                    len == n * q + r,
                    p < len,
            ;
        }
        assert((p / n) * n + p % n == p) by (nonlinear_arith)
            requires
                p == n * (p / n) + p % n,
        ;
    }
    assert forall|j1: nat, i1: nat, j2: nat, i2: nat|
        j1 < n && j2 < n && #[trigger] stripe_pos(n, j1, i1) == #[trigger] stripe_pos(n, j2, i2)
        implies j1 == j2 && i1 == i2 by {
        let v = i1 * n + j1;
        vstd::arithmetic::div_mod::lemma_fundamental_div_mod_converse(v as int, n as int, i1 as int, j1 as int);
        vstd::arithmetic::div_mod::lemma_fundamental_div_mod_converse(v as int, n as int, i2 as int, j2 as int);
    }
}

/// Symbol `i` of stripe `j` exists.
pub open spec fn in_stripes(chunks: Seq<Seq<u8>>, j: int, i: int) -> bool {
    0 <= j < chunks.len() && 0 <= i < chunks[j].len()
}

/// The output position of symbol `i` of stripe `j` with lane width `n`.
pub open spec fn slot_of(n: nat, j: int, i: int) -> int {
    i * n + j
}

/// The stripes tile `[0, len)`: every symbol lands inside it, no two land at
/// the same position, and every position gets one.
pub open spec fn tiles(chunks: Seq<Seq<u8>>, len: nat, n: nat) -> bool {
    &&& forall|j: int, i: int| #[trigger] in_stripes(chunks, j, i) ==> 0 <= slot_of(n, j, i) < len
    &&& forall|j1: int, i1: int, j2: int, i2: int|
        in_stripes(chunks, j1, i1) && in_stripes(chunks, j2, i2) && #[trigger] slot_of(n, j1, i1)
            == #[trigger] slot_of(n, j2, i2) ==> j1 == j2 && i1 == i2
    &&& forall|p: int| 0 <= p < len ==> #[trigger] covered(chunks, n, p)
}

/// Some stripe symbol lands at position `p`.
pub open spec fn covered(chunks: Seq<Seq<u8>>, n: nat, p: int) -> bool {
    exists|j: int, i: int| in_stripes(chunks, j, i) && #[trigger] slot_of(n, j, i) == p
}

/// The stripes merged into one output of `len` bytes: position `i * n + j`
/// holds symbol `i` of stripe `j`. Stripes that do not tile the output are
/// malformed.
pub open spec fn interleave(chunks: Seq<Seq<u8>>, len: nat, n: nat) -> Result<Seq<u8>, DecodeError> {
    if tiles(chunks, len, n) {
        Ok(
            Seq::new(
                len,
                |p: int|
                    {
                        let (j, i) = choose|j: int, i: int|
                            in_stripes(chunks, j, i) && slot_of(n, j, i) == p;
                        chunks[j][i]
                    },
            ),
        )
    } else {
        Err(DecodeError::InvalidData)
    }
}

/// Every position of a merged output is written by exactly one stripe and
/// symbol, and holds that symbol, whatever the stripe count and lane width.
pub proof fn lemma_interleave(chunks: Seq<Seq<u8>>, len: nat, n: nat)
    ensures
        interleave(chunks, len, n) matches Ok(out) ==> {
            &&& tiles(chunks, len, n)
            &&& out.len() == len
            &&& forall|j: int, i: int| #[trigger] in_stripes(chunks, j, i) ==> out[slot_of(n, j, i)]
                == chunks[j][i]
        },
{
    if let Ok(out) = interleave(chunks, len, n) {
        assert forall|j: int, i: int| #[trigger] in_stripes(chunks, j, i) implies out[slot_of(n, j, i)]
            == chunks[j][i] by {
            let p = slot_of(n, j, i);
            assert(0 <= p < len);
            assert(covered(chunks, n, p));
            let (j2, i2) = choose|j2: int, i2: int| in_stripes(chunks, j2, i2) && slot_of(n, j2, i2) == p;
            assert(in_stripes(chunks, j2, i2) && slot_of(n, j2, i2) == p);
        }
    }
}

/// A whole block: the flags, the uncompressed length unless `NO_SIZE` is set
/// (then `len` is used), and the striped or plain data.
pub open spec fn decode_stream(src: Seq<u8>, len: nat) -> Parsed<Seq<u8>>
    decreases src.len(), 0nat,
{
    if src.len() == 0 {
        Err(DecodeError::UnexpectedEof)
    } else {
        let flags = src[0];
        let s1 = src.skip(1);
        let sized: Parsed<nat> = if flags & NO_SIZE != 0 {
            Ok((len, s1))
        } else {
            match varint(s1) {
                Err(e) => Err(e),
                Ok((v, rest)) => Ok((v as nat, rest)),
            }
        };
        match sized {
            Err(e) => Err(e),
            Ok((ulen, s2)) => {
                proof {
                    lemma_uint7_shorter(s1, 0);
                }
                if flags & STRIPE != 0 {
                    stripe_stream(s2, ulen, lanes(flags))
                } else {
                    body(s2, flags, ulen, lanes(flags))
                }
            },
        }
    }
}

/// A striped block: the stripe count `x`, their coded lengths, then `x`
/// blocks, each decoding to its stripe length.
pub open spec fn stripe_stream(src: Seq<u8>, len: nat, n: nat) -> Parsed<Seq<u8>>
    decreases src.len(), 0nat,
{
    match byte(src) {
        Err(e) => Err(e),
        Ok((x, s1)) => match skip_lens(s1, x as nat) {
            Err(e) => Err(e),
            Ok((_, s2)) => {
                proof {
                    lemma_skip_lens_shorter(s1, x as nat);
                }
                match stripes_from(s2, len, n, x as nat, 0, Seq::empty()) {
                    Err(e) => Err(e),
                    Ok((chunks, s3)) => match interleave(chunks, len, n) {
                        Err(e) => Err(e),
                        Ok(out) => Ok((out, s3)),
                    },
                }
            },
        },
    }
}

/// Stripes `j` to `x - 1`. Each stripe must decode to its stripe length,
/// which may not exceed the block's, and consume input.
pub open spec fn stripes_from(
    src: Seq<u8>,
    len: nat,
    n: nat,
    x: nat,
    j: nat,
    chunks: Seq<Seq<u8>>,
) -> Parsed<Seq<Seq<u8>>>
    decreases src.len(), 1nat,
{
    if j >= x {
        Ok((chunks, src))
    } else {
        let ulen = stripe_len(len, x, n, j);
        if ulen > len {
            Err(DecodeError::InvalidData)
        } else {
        match decode_stream(src, ulen) {
            Err(e) => Err(e),
            Ok((c, rest)) => if rest.len() >= src.len() || c.len() != ulen {
                Err(DecodeError::InvalidData)
            } else {
                stripes_from(rest, len, n, x, j + 1, chunks.push(c))
            },
        }
        }
    }
}

/// Reads the PACK header: the symbol table, its size (1 to 16), and the
/// length of the packed data.
pub fn decode_pack_meta(reader: &mut &[u8]) -> (r: Result<(Vec<u8>, usize, usize), DecodeError>)
    ensures
        match pack_meta(old(reader)@) {
            Ok(((p, len), after)) => r is Ok && r->Ok_0.0@ == p && r->Ok_0.1 == p.len()
                && 1 <= r->Ok_0.1 <= 16 && r->Ok_0.2 == len && final(reader)@ == after,
            Err(e) => r == Err::<(Vec<u8>, usize, usize), DecodeError>(e),
        },
{
    let symbol_count = next_u8(reader)? as usize;
    if symbol_count == 0 || symbol_count > 16 {
        return Err(DecodeError::InvalidData);
    }
    let p = match read_exact(reader, symbol_count) {
        Some(b) => slice_to_vec(b),
        None => return Err(DecodeError::UnexpectedEof),
    };
    let len = next_len(reader)?;
    Ok((p, symbol_count, len))
}

/// Reads the RLE header: the flagged symbols, the run lengths, and the length
/// before run expansion.
fn decode_rle_meta(reader: &mut &[u8], n: usize) -> (r: Result<(Vec<bool>, Vec<u8>, usize), DecodeError>)
    requires
        n > 0,
    ensures
        match rle_meta(old(reader)@, n as nat) {
            Ok(((l, runs, len), after)) => r is Ok && r->Ok_0.0@ == l && r->Ok_0.1@ == runs
                && r->Ok_0.2 == len && final(reader)@ == after,
            Err(e) => r == Err::<(Vec<bool>, Vec<u8>, usize), DecodeError>(e),
        },
{
    let rle_meta_len = next_uint7(reader)?;
    let len = next_len(reader)?;
    let meta: Vec<u8> = if rle_meta_len % 2 == 1 {
        match read_exact(reader, (rle_meta_len / 2) as usize) {
            Some(b) => slice_to_vec(b),
            None => return Err(DecodeError::UnexpectedEof),
        }
    } else {
        let comp_meta_len = next_len(reader)?;
        let buf = match read_exact(reader, comp_meta_len) {
            Some(b) => b,
            None => return Err(DecodeError::UnexpectedEof),
        };
        let mut buf_reader: &[u8] = buf;
        order_0::decode(&mut buf_reader, (rle_meta_len / 2) as usize, n)?
    };
    let ghost after = reader@;
    assert(rle_meta(old(reader)@, n as nat) == match flagged(meta@) {
        Err(e) => Err(e),
        Ok((l, runs)) => Ok(((l, runs, len as nat), after)),
    });
    let mut m_reader: &[u8] = meta.as_slice();
    let m0 = next_u8(&mut m_reader)?;
    let m: usize = if m0 == 0 {
        256
    } else {
        m0 as usize
    };
    let mut l: Vec<bool> = Vec::new();
    let mut s: usize = 0;
    while s < 256
        invariant
            s <= 256,
            l@ == Seq::new(s as nat, |k: int| false),
        decreases 256 - s,
    {
        l.push(false);
        s += 1;
    }
    assert(l@ =~= flag_set(meta@, 0));
    let mut k: usize = 0;
    while k < m
        invariant
            k <= m,
            m <= 256,
            meta@.len() >= 1,
            m == (if meta@[0] == 0 {
                256
            } else {
                meta@[0] as int
            }),
            meta@.len() >= 1 + k,
            m_reader@ == meta@.skip(1 + k),
            l@ == flag_set(meta@, k as int),
            rle_meta(old(reader)@, n as nat) == match flagged(meta@) {
                Err(e) => Err(e),
                Ok((l, runs)) => Ok(((l, runs, len as nat), after)),
            },
            reader@ == after,
        decreases m - k,
    {
        let sym = match next_u8(&mut m_reader) {
            Ok(b) => b,
            Err(e) => {
                assert(meta@.len() < 1 + m);
                return Err(e);
            },
        };
        assert(meta@.len() > k + 1);
        assert(sym == meta@[k + 1]);
        l.set(sym as usize, true);
        proof {
            assert forall|v: int| 0 <= v < 256 implies #[trigger] l@[v] == flag_set(
                meta@,
                k + 1,
            )[v] by {
                if v == sym as int {
                    assert(meta@[k + 1] as int == v);
                } else if l@[v] {
                    let t = choose|t: int| 1 <= t <= k && #[trigger] meta@[t] as int == v;
                    assert(meta@[t] as int == v);
                } else if flag_set(meta@, k + 1)[v] {
                    let t = choose|t: int| 1 <= t <= k + 1 && #[trigger] meta@[t] as int == v;
                    assert(meta@[t] as int == v);
                    assert(t <= k);
                }
            }
            assert(l@ =~= flag_set(meta@, k + 1));
            assert(m_reader@ =~= meta@.skip(1 + k + 1));
        }
        k += 1;
    }
    assert(flagged(meta@) == Ok::<(Seq<bool>, Seq<u8>), DecodeError>((l@, m_reader@)));
    Ok((l, slice_to_vec(m_reader), len))
}

/// The uncompressed length a block declares: from its header, or `len`
/// when the block carries none.
pub open spec fn declared_len(src: Seq<u8>, len: nat) -> nat {
    if src[0] & NO_SIZE != 0 {
        len
    } else {
        varint(src.skip(1))->Ok_0.0 as nat
    }
}

/// A block that undoes RLE (without PACK or stripes) decodes, when it
/// decodes, to exactly the length it declares, and to the run expansion of
/// its entropy-decoded symbols.
pub proof fn lemma_rle_block(src: Seq<u8>, len: nat)
    requires
        src.len() > 0,
        src[0] & RLE != 0,
        src[0] & PACK == 0,
        src[0] & STRIPE == 0,
        decode_stream(src, len) is Ok,
    ensures
        decode_stream(src, len)->Ok_0.0.len() == declared_len(src, len),
        exists|d: Seq<u8>, l: Seq<bool>, runs: Seq<u8>|
            #[trigger] unrle(d, l, runs, declared_len(src, len)) == Ok::<Seq<u8>, DecodeError>(
                decode_stream(src, len)->Ok_0.0,
            ),
{
    reveal(body);
    let flags = src[0];
    let ulen = declared_len(src, len);
    let s2 = if flags & NO_SIZE != 0 {
        src.skip(1)
    } else {
        varint(src.skip(1))->Ok_0.1
    };
    let n = lanes(flags);
    let ((l, runs, len2), s3) = rle_meta(s2, n)->Ok_0;
    let core = if flags & CAT != 0 {
        bytes(s3, len2)
    } else if flags & ORDER != 0 {
        super::rans_nx16::order_1::order1(s3, len2, n)
    } else {
        order0(s3, len2, n)
    };
    let d = core->Ok_0.0;
    rle::lemma_unrle_length(d, l, runs, ulen);
    assert(unrle(d, l, runs, ulen) == Ok::<Seq<u8>, DecodeError>(decode_stream(src, len)->Ok_0.0));
}

/// A raw block: the `CAT` flag, the length of `data`, then `data` itself.
pub open spec fn raw_block(data: Seq<u8>) -> Seq<u8> {
    seq![CAT] + uint7_bytes(data.len()) + data
}

/// Decoding a raw block gives back the bytes it was made from and leaves what
/// follows it, whatever length the caller supplies.
#[verifier::rlimit(50)]
pub proof fn lemma_raw_block_round_trip(data: Seq<u8>, rest: Seq<u8>, len: nat)
    requires
        data.len() <= u32::MAX,
    ensures
        decode_stream(raw_block(data) + rest, len) == Ok::<(Seq<u8>, Seq<u8>), DecodeError>((data, rest)),
{
    reveal(body);
    let src = raw_block(data) + rest;
    let n = data.len() as u32;
    assert(src.skip(1) =~= uint7_bytes(n as nat) + (data + rest));
    lemma_uint7_round_trip(n, data + rest);
    assert(CAT & NO_SIZE == 0 && CAT & STRIPE == 0 && CAT & PACK == 0 && CAT & RLE == 0
        && CAT & CAT != 0) by (bit_vector);
    assert((data + rest).take(data.len() as int) =~= data);
    assert((data + rest).skip(data.len() as int) =~= rest);
}

/// Decodes a block without stripes.
fn decode_body(reader: &mut &[u8], flags: u8, len: usize, n: usize) -> (r: Result<Vec<u8>, DecodeError>)
    requires
        n > 0,
    ensures
        reads_bytes(r, final(reader)@, body(old(reader)@, flags, len as nat, n as nat)),
{
    reveal(body);
    let mut p: Vec<u8> = Vec::new();
    let mut rle_len = len;
    if flags & PACK != 0 {
        let (q, _n_sym, new_len) = decode_pack_meta(reader)?;
        p = q;
        rle_len = new_len;
    }
    let mut l: Vec<bool> = Vec::new();
    let mut runs: Vec<u8> = Vec::new();
    let mut data_len = rle_len;
    if flags & RLE != 0 {
        let (m, meta, new_len) = decode_rle_meta(reader, n)?;
        l = m;
        runs = meta;
        data_len = new_len;
    }
    let mut data = if flags & CAT != 0 {
        match read_exact(reader, data_len) {
            Some(b) => slice_to_vec(b),
            None => return Err(DecodeError::UnexpectedEof),
        }
    } else if flags & ORDER != 0 {
        order_1::decode(reader, data_len, n)?
    } else {
        order_0::decode(reader, data_len, n)?
    };
    if flags & RLE != 0 {
        let mut run_reader: &[u8] = runs.as_slice();
        data = rle::decode(data.as_slice(), &l, &mut run_reader, rle_len)?;
    }
    if flags & PACK != 0 {
        data = pack::decode(data.as_slice(), p.as_slice(), len)?;
    }
    Ok(data)
}

/// The views of decoded stripes.
pub open spec fn views(chunks: Seq<Vec<u8>>) -> Seq<Seq<u8>> {
    chunks.map_values(|v: Vec<u8>| v@)
}

/// Symbol `ii` of stripe `jj` comes before symbol `i` of stripe `j`.
pub open spec fn placed(chunks: Seq<Seq<u8>>, j: int, i: int, jj: int, ii: int) -> bool {
    in_stripes(chunks, jj, ii) && (jj < j || (jj == j && ii < i))
}

/// What has been written after the stripe symbols before (`j`, `i`): each
/// of them at its position, which the owner map records, and nothing else.
pub open spec fn merged_so_far(
    cv: Seq<Seq<u8>>,
    n: nat,
    len: nat,
    j: int,
    i: int,
    dst: Seq<u8>,
    written: Seq<bool>,
    owner: Seq<(int, int)>,
) -> bool {
    &&& dst.len() == len && written.len() == len && owner.len() == len
    &&& forall|jj: int, ii: int|
        #[trigger] placed(cv, j, i, jj, ii) ==> {
            let p = slot_of(n, jj, ii);
            &&& 0 <= p < len
            &&& written[p]
            &&& owner[p] == (jj, ii)
        }
    &&& forall|p: int|
        0 <= p < len && #[trigger] written[p] ==> {
            &&& placed(cv, j, i, owner[p].0, owner[p].1)
            &&& slot_of(n, owner[p].0, owner[p].1) == p
            &&& dst[p] == cv[owner[p].0][owner[p].1]
        }
}

/// Merges stripes into one buffer of `len` bytes.
fn interleave_stripes(chunks: &Vec<Vec<u8>>, len: usize, n: usize) -> (r: Result<Vec<u8>, DecodeError>)
    ensures
        match interleave(views(chunks@), len as nat, n as nat) {
            Ok(v) => r is Ok && r->Ok_0@ == v,
            Err(e) => r == Err::<Vec<u8>, DecodeError>(e),
        },
{
    let ghost cv = views(chunks@);
    let mut dst: Vec<u8> = vec![0u8; len];
    let mut written: Vec<bool> = vec![false; len];
    let ghost mut owner: Seq<(int, int)> = Seq::new(len as nat, |p: int| (0int, 0int));
    proof {
        assert forall|p: int| 0 <= p < len implies !written@[p] by {
            assert(cloned(false, written@[p]));
        }
    }
    let mut j: usize = 0;
    while j < chunks.len()
        invariant
            cv == views(chunks@),
            cv.len() == chunks@.len(),
            j <= chunks@.len(),
            merged_so_far(cv, n as nat, len as nat, j as int, 0, dst@, written@, owner),
        decreases chunks@.len() - j,
    {
        let chunk = &chunks[j];
        assert(chunk@ == cv[j as int]);
        let mut i: usize = 0;
        while i < chunk.len()
            invariant
                cv == views(chunks@),
                cv.len() == chunks@.len(),
                j < chunks@.len(),
                chunk@ == cv[j as int],
                i <= chunk@.len(),
                merged_so_far(cv, n as nat, len as nat, j as int, i as int, dst@, written@, owner),
            decreases chunk@.len() - i,
        {
            assert(in_stripes(cv, j as int, i as int));
            let pos = match i.checked_mul(n) {
                Some(a) => match a.checked_add(j) {
                    Some(p) => p,
                    None => {
                        assert(!tiles(cv, len as nat, n as nat));
                        return Err(DecodeError::InvalidData);
                    },
                },
                None => {
                    assert(i * n + j >= len) by (nonlinear_arith)
                        requires
                            i * n > usize::MAX,
                            len <= usize::MAX,
                            j >= 0,
                    ;
                    assert(!tiles(cv, len as nat, n as nat));
                    return Err(DecodeError::InvalidData);
                },
            };
            assert(pos == slot_of(n as nat, j as int, i as int));
            if pos >= len {
                assert(!tiles(cv, len as nat, n as nat));
                return Err(DecodeError::InvalidData);
            }
            if written[pos] {
                proof {
                    let (jj, ii) = owner[pos as int];
                    assert(placed(cv, j as int, i as int, jj, ii));
                    assert(slot_of(n as nat, jj, ii) == slot_of(n as nat, j as int, i as int));
                    assert(!tiles(cv, len as nat, n as nat));
                }
                return Err(DecodeError::InvalidData);
            }
            written.set(pos, true);
            dst.set(pos, chunk[i]);
            proof {
                owner = owner.update(pos as int, (j as int, i as int));
                assert forall|jj: int, ii: int| #[trigger]
                    placed(cv, j as int, i + 1, jj, ii) implies {
                    let p = slot_of(n as nat, jj, ii);
                    &&& 0 <= p < len
                    &&& written@[p]
                    &&& owner[p] == (jj, ii)
                } by {
                    if !(jj == j && ii == i) {
                        assert(placed(cv, j as int, i as int, jj, ii));
                    }
                }
            }
            i += 1;
        }
        proof {
            assert forall|jj: int, ii: int| #[trigger]
                placed(cv, j + 1, 0, jj, ii) implies placed(cv, j as int, i as int, jj, ii) by {}
            assert forall|jj: int, ii: int| #[trigger]
                placed(cv, j as int, i as int, jj, ii) implies placed(cv, j + 1, 0, jj, ii) by {}
        }
        j += 1;
    }
    let mut p: usize = 0;
    while p < len
        invariant
            cv == views(chunks@),
            cv.len() == chunks@.len(),
            j == chunks@.len(),
            p <= len,
            merged_so_far(cv, n as nat, len as nat, j as int, 0, dst@, written@, owner),
            forall|q: int| 0 <= q < p ==> written@[q],
        decreases len - p,
    {
        if !written[p] {
            proof {
                if tiles(cv, len as nat, n as nat) {
                    assert(covered(cv, n as nat, p as int));
                    let (jj, ii) = choose|jj: int, ii: int|
                        in_stripes(cv, jj, ii) && #[trigger] slot_of(n as nat, jj, ii) == p;
                    assert(placed(cv, j as int, 0, jj, ii));
                }
            }
            return Err(DecodeError::InvalidData);
        }
        p += 1;
    }
    proof {
        assert forall|jj: int, ii: int| #[trigger] in_stripes(cv, jj, ii) implies 0 <= slot_of(
            n as nat,
            jj,
            ii,
        ) < len by {
            assert(placed(cv, j as int, 0, jj, ii));
        }
        assert forall|j1: int, i1: int, j2: int, i2: int|
            in_stripes(cv, j1, i1) && in_stripes(cv, j2, i2) && #[trigger] slot_of(n as nat, j1, i1)
                == #[trigger] slot_of(n as nat, j2, i2) implies j1 == j2 && i1 == i2 by {
            assert(placed(cv, j as int, 0, j1, i1));
            assert(placed(cv, j as int, 0, j2, i2));
        }
        assert forall|q: int| 0 <= q < len implies #[trigger] covered(cv, n as nat, q) by {
            assert(written@[q]);
            let (jj, ii) = owner[q];
            assert(in_stripes(cv, jj, ii) && slot_of(n as nat, jj, ii) == q);
        }
        assert(tiles(cv, len as nat, n as nat));
        let out = interleave(cv, len as nat, n as nat)->Ok_0;
        assert forall|q: int| 0 <= q < len implies dst@[q] == out[q] by {
            assert(written@[q]);
            assert(covered(cv, n as nat, q));
            let (j2, i2) = choose|j2: int, i2: int| in_stripes(cv, j2, i2) && slot_of(n as nat, j2, i2) == q;
            assert(in_stripes(cv, j2, i2) && slot_of(n as nat, j2, i2) == q);
            assert(placed(cv, j as int, 0, j2, i2));
        }
        assert(dst@ =~= out);
    }
    Ok(dst)
}

/// Decodes a striped block: `x` sub-blocks whose symbols are interleaved.
fn rans_decode_stripe(reader: &mut &[u8], len: usize, n: usize) -> (r: Result<Vec<u8>, DecodeError>)
    requires
        n > 0,
    ensures
        reads_bytes(r, final(reader)@, stripe_stream(old(reader)@, len as nat, n as nat)),
    decreases old(reader)@.len(), 0nat,
{
    let x = next_u8(reader)? as usize;
    let ghost s1 = reader@;
    let mut k: usize = 0;
    while k < x
        invariant
            k <= x,
            x < 256,
            byte(old(reader)@) == Ok::<(u8, Seq<u8>), DecodeError>((x as u8, s1)),
            reader@.len() < old(reader)@.len(),
            skip_lens(reader@, (x - k) as nat) == skip_lens(s1, x as nat),
        decreases x - k,
    {
        proof {
            lemma_uint7_shorter(reader@, 0);
        }
        next_uint7(reader)?;
        k += 1;
    }
    let ghost s2 = reader@;
    let mut chunks: Vec<Vec<u8>> = Vec::new();
    assert(views(chunks@) =~= Seq::<Seq<u8>>::empty());
    let mut j: usize = 0;
    while j < x
        invariant
            n > 0,
            j <= x,
            x < 256,
            byte(old(reader)@) == Ok::<(u8, Seq<u8>), DecodeError>((x as u8, s1)),
            skip_lens(s1, x as nat) == Ok::<((), Seq<u8>), DecodeError>(((), s2)),
            chunks@.len() == j,
            reader@.len() < old(reader)@.len(),
            stripes_from(reader@, len as nat, n as nat, x as nat, j as nat, views(chunks@))
                == stripes_from(s2, len as nat, n as nat, x as nat, 0, Seq::empty()),
        decreases x - j,
    {
        let share = len / x;
        let ulen = if len % n > j {
            if share >= len {
                return Err(DecodeError::InvalidData);
            }
            share + 1
        } else {
            share
        };
        let before = reader.len();
        let chunk = decode(reader, ulen)?;
        if reader.len() >= before || chunk.len() != ulen {
            return Err(DecodeError::InvalidData);
        }
        let ghost c = chunk@;
        let ghost cv0 = views(chunks@);
        chunks.push(chunk);
        assert(views(chunks@) =~= cv0.push(c));
        j += 1;
    }
    interleave_stripes(&chunks, len, n)
}

/// Decodes one rANS Nx16 block from the front of `reader`, leaving the
/// reader after it. `len` is the uncompressed length, used only when the
/// block does not carry its own.
pub fn decode(reader: &mut &[u8], len: usize) -> (r: Result<Vec<u8>, DecodeError>)
    ensures
        reads_bytes(r, final(reader)@, decode_stream(old(reader)@, len as nat)),
    decreases old(reader)@.len(), 1nat,
{
    let flags = next_u8(reader)?;
    proof {
        lemma_uint7_shorter(reader@, 0);
    }
    let len = if flags & NO_SIZE != 0 {
        len
    } else {
        next_len(reader)?
    };
    let n: usize = if flags & N32 != 0 {
        32
    } else {
        4
    };
    if flags & STRIPE != 0 {
        return rans_decode_stripe(reader, len, n);
    }
    decode_body(reader, flags, len, n)
}

} // verus!
