//! Decoding reads its input front to back: every reader depends only on the
//! bytes it consumes, so a block cut short anywhere before its end fails with
//! `UnexpectedEof`.

use vstd::prelude::*;

use crate::cursor::{uint7_from, uint7_push};
use super::model::{
    Parsed, alphabet, alphabet_from, byte, bytes, freq_table, freqs_from, lane_states, lane_step,
    varint,
};
use super::order_0::{o0_run, order0};
use super::order_1::{header, o1_run, order1, row_from, rows_from, tables, lane_of};
use super::{
    body, decode_stream, lemma_skip_lens_shorter, meta_bytes, pack_meta, rle_meta, skip_lens,
    stripe_len, stripe_stream, stripes_from, CAT, ORDER, PACK, RLE, STRIPE,
    NO_SIZE, lanes,
};
use super::DecodeError;

verus! {

/// `t` shows the same first `c` bytes as `src`, or is a cut of `src` shorter
/// than `c`.
pub open spec fn agrees(t: Seq<u8>, src: Seq<u8>, c: int) -> bool {
    if t.len() >= c {
        t.take(c) == src.take(c)
    } else {
        t == src.take(t.len() as int)
    }
}

/// What a read of `c` bytes that produced `v` gives on `t`: the same value
/// when `t` has the bytes, `UnexpectedEof` when it is cut short.
pub open spec fn cut<T>(r: Parsed<T>, v: T, t: Seq<u8>, c: int) -> bool {
    if t.len() >= c {
        r == Ok::<(T, Seq<u8>), DecodeError>((v, t.skip(c)))
    } else {
        r == Err::<(T, Seq<u8>), DecodeError>(DecodeError::UnexpectedEof)
    }
}

/// `rest` is what is left of `src` after its first bytes.
pub open spec fn suffix(src: Seq<u8>, rest: Seq<u8>) -> bool {
    rest.len() <= src.len() && rest == src.skip(src.len() - rest.len())
}

/// A read that consumed `src.len() - rest.len()` bytes depends on them alone.
pub open spec fn prefix_only<T>(src: Seq<u8>, p: Parsed<T>, t: Seq<u8>, q: Parsed<T>) -> bool {
    p matches Ok((v, rest)) ==> suffix(src, rest) && (agrees(t, src, src.len() - rest.len())
        ==> cut(q, v, t, src.len() - rest.len()))
}

proof fn lemma_agrees_within(t: Seq<u8>, src: Seq<u8>, c: int, c1: int)
    requires
        agrees(t, src, c),
        0 <= c1 <= c <= src.len(),
    ensures
        agrees(t, src, c1),
{
    if t.len() >= c {
        assert(t.take(c1) =~= t.take(c).take(c1));
        assert(src.take(c1) =~= src.take(c).take(c1));
    } else if t.len() >= c1 {
        assert(t.take(c1) =~= src.take(c1));
    }
}

proof fn lemma_agrees_after(t: Seq<u8>, src: Seq<u8>, c1: int, c: int)
    requires
        agrees(t, src, c),
        0 <= c1 <= c <= src.len(),
        t.len() >= c1,
    ensures
        agrees(t.skip(c1), src.skip(c1), c - c1),
        t.len() >= c ==> t.skip(c1).skip(c - c1) == t.skip(c),
{
    if t.len() >= c {
        assert(t.skip(c1).take(c - c1) =~= src.skip(c1).take(c - c1)) by {
            assert forall|i: int| 0 <= i < c - c1 implies #[trigger] t.skip(c1).take(c - c1)[i]
                == src.skip(c1).take(c - c1)[i] by {
                assert(t.take(c)[c1 + i] == src.take(c)[c1 + i]);
            }
        }
        assert(t.skip(c1).skip(c - c1) =~= t.skip(c));
    } else {
        assert(t.skip(c1) =~= src.skip(c1).take(t.len() - c1));
    }
}

proof fn lemma_suffix_trans(src: Seq<u8>, mid: Seq<u8>, rest: Seq<u8>)
    requires
        suffix(src, mid),
        suffix(mid, rest),
    ensures
        suffix(src, rest),
{
    assert(rest =~= src.skip(src.len() - rest.len()));
}

pub proof fn lemma_byte(src: Seq<u8>, t: Seq<u8>)
    ensures
        prefix_only(src, byte(src), t, byte(t)),
{
    if src.len() > 0 && t.len() >= 1 && agrees(t, src, 1) {
        assert(t[0] == t.take(1)[0]);
        assert(src[0] == src.take(1)[0]);
    }
}

pub proof fn lemma_bytes(src: Seq<u8>, n: nat, t: Seq<u8>)
    ensures
        prefix_only(src, bytes(src, n), t, bytes(t, n)),
{
}

proof fn lemma_uint7_from(src: Seq<u8>, acc: u32, t: Seq<u8>)
    ensures
        uint7_from(src, acc) matches Some((v, rest)) ==> suffix(src, rest) && (agrees(
            t,
            src,
            src.len() - rest.len(),
        ) ==> if t.len() >= src.len() - rest.len() {
            uint7_from(t, acc) == Some((v, t.skip(src.len() - rest.len())))
        } else {
            uint7_from(t, acc) is None
        }),
    decreases src.len(),
{
    if let Some((v, rest)) = uint7_from(src, acc) {
        let c = src.len() - rest.len();
        lemma_uint7_from(src.skip(1), uint7_push(acc, src[0]), t.skip(1));
        if agrees(t, src, c) && t.len() >= 1 {
            assert(c >= 1) by {
                crate::cursor::lemma_uint7_shorter(src, acc);
            }
            lemma_agrees_within(t, src, c, 1);
            assert(t[0] == t.take(1)[0]);
            assert(src[0] == src.take(1)[0]);
            if src[0] >= 128 {
                lemma_agrees_after(t, src, 1, c);
                assert(src.skip(1).len() - rest.len() == c - 1);
            }
        }
        if src[0] >= 128 {
            lemma_suffix_trans(src, src.skip(1), rest);
        }
    }
}

pub proof fn lemma_varint(src: Seq<u8>, t: Seq<u8>)
    ensures
        prefix_only(src, varint(src), t, varint(t)),
{
    lemma_uint7_from(src, 0, t);
}

proof fn lemma_alphabet_from(a: Seq<bool>, sym: u8, run: u8, count: nat, src: Seq<u8>, t: Seq<u8>)
    ensures
        prefix_only(
            src,
            alphabet_from(a, sym, run, count, src),
            t,
            alphabet_from(a, sym, run, count, t),
        ),
    decreases src.len(), run,
{
    if let Ok((v, rest)) = alphabet_from(a, sym, run, count, src) {
        let c = src.len() - rest.len();
        let a1 = a.update(sym as int, true);
        if run > 0 {
            lemma_alphabet_from(a1, (sym + 1) as u8, (run - 1) as u8, count + 1, src, t);
        } else if sym < 255 && src[0] == sym + 1 {
            lemma_alphabet_from(a1, src[0], src[1], count + 1, src.skip(2), t.skip(2));
            lemma_suffix_trans(src, src.skip(2), rest);
            if agrees(t, src, c) && t.len() >= 2 {
                lemma_agrees_within(t, src, c, 2);
                assert(t[0] == t.take(2)[0] && t[1] == t.take(2)[1]);
                assert(src[0] == src.take(2)[0] && src[1] == src.take(2)[1]);
                lemma_agrees_after(t, src, 2, c);
            } else if agrees(t, src, c) && t.len() == 1 {
                assert(c >= 2);
                assert(t[0] == src[0]);
            }
        } else if src[0] == 0 {
            if agrees(t, src, c) && t.len() >= 1 {
                assert(t[0] == t.take(1)[0]);
                assert(src[0] == src.take(1)[0]);
            }
        } else {
            lemma_alphabet_from(a1, src[0], 0, count + 1, src.skip(1), t.skip(1));
            lemma_suffix_trans(src, src.skip(1), rest);
            if agrees(t, src, c) && t.len() >= 1 {
                lemma_agrees_within(t, src, c, 1);
                assert(t[0] == t.take(1)[0]);
                assert(src[0] == src.take(1)[0]);
                lemma_agrees_after(t, src, 1, c);
            }
        }
    }
}

pub proof fn lemma_alphabet(src: Seq<u8>, t: Seq<u8>)
    ensures
        prefix_only(src, alphabet(src), t, alphabet(t)),
{
    if let Ok((v, rest)) = alphabet(src) {
        let c = src.len() - rest.len();
        let z = Seq::new(256, |i: int| false);
        lemma_alphabet_from(z, src[0], 0, 0, src.skip(1), t.skip(1));
        lemma_suffix_trans(src, src.skip(1), rest);
        if agrees(t, src, c) && t.len() >= 1 {
            assert(c >= 1);
            lemma_agrees_within(t, src, c, 1);
            assert(t[0] == t.take(1)[0]);
            assert(src[0] == src.take(1)[0]);
            lemma_agrees_after(t, src, 1, c);
        }
    }
}

/// Two reads in a row: what holds of `t` for each of them.
proof fn lemma_chain(src: Seq<u8>, r1: Seq<u8>, rest: Seq<u8>, t: Seq<u8>)
    requires
        suffix(src, r1),
        suffix(r1, rest),
    ensures
        suffix(src, rest),
        agrees(t, src, src.len() - rest.len()) ==> {
            &&& agrees(t, src, src.len() - r1.len())
            &&& t.len() >= src.len() - r1.len() ==> {
                &&& agrees(t.skip(src.len() - r1.len()), r1, r1.len() - rest.len())
                &&& t.len() >= src.len() - rest.len() ==> t.skip(src.len() - r1.len()).skip(
                    r1.len() - rest.len(),
                ) == t.skip(src.len() - rest.len())
            }
        },
{
    lemma_suffix_trans(src, r1, rest);
    let c1 = src.len() - r1.len();
    let c = src.len() - rest.len();
    if agrees(t, src, c) {
        lemma_agrees_within(t, src, c, c1);
        if t.len() >= c1 {
            lemma_agrees_after(t, src, c1, c);
        }
    }
}

proof fn lemma_freqs_from(a: Seq<bool>, i: int, raw: Seq<u32>, src: Seq<u8>, t: Seq<u8>)
    ensures
        prefix_only(src, freqs_from(a, i, raw, src), t, freqs_from(a, i, raw, t)),
    decreases 256 - i,
{
    if i < 256 {
        if a[i] {
            lemma_varint(src, t);
            if let Ok((v, r1)) = varint(src) {
                let c1 = src.len() - r1.len();
                lemma_freqs_from(a, i + 1, raw.push(v), r1, t.skip(c1));
                if let Ok((w, rest)) = freqs_from(a, i + 1, raw.push(v), r1) {
                    lemma_chain(src, r1, rest, t);
                }
            }
        } else {
            lemma_freqs_from(a, i + 1, raw.push(0), src, t);
        }
    } else {
        assert(src.skip(0) =~= src);
        assert(t.skip(0) =~= t);
    }
}

pub proof fn lemma_freq_table(src: Seq<u8>, bits: nat, t: Seq<u8>)
    ensures
        prefix_only(src, freq_table(src, bits), t, freq_table(t, bits)),
{
    lemma_alphabet(src, t);
    if let Ok((a, s1)) = alphabet(src) {
        let c1 = src.len() - s1.len();
        lemma_freqs_from(a, 0, Seq::empty(), s1, t.skip(c1));
        if let Ok((raw, rest)) = freqs_from(a, 0, Seq::empty(), s1) {
            lemma_chain(src, s1, rest, t);
        }
    }
}

pub proof fn lemma_lane_states(src: Seq<u8>, n: nat, t: Seq<u8>)
    ensures
        prefix_only(src, lane_states(src, n), t, lane_states(t, n)),
{
    if src.len() >= 4 * n && t.len() >= 4 * n && agrees(t, src, 4 * n as int) {
        assert forall|j: int| 0 <= j < n implies #[trigger] t.subrange(4 * j, 4 * j + 4)
            == src.subrange(4 * j, 4 * j + 4) by {
            assert(t.subrange(4 * j, 4 * j + 4) =~= t.take(4 * n as int).subrange(4 * j, 4 * j + 4));
            assert(src.subrange(4 * j, 4 * j + 4) =~= src.take(4 * n as int).subrange(4 * j, 4 * j + 4));
        }
        assert(Seq::new(n, |j: int| crate::cursor::le32(t.subrange(4 * j, 4 * j + 4)) as u32)
            =~= Seq::new(n, |j: int| crate::cursor::le32(src.subrange(4 * j, 4 * j + 4)) as u32));
    }
}

pub proof fn lemma_lane_step(f: Seq<u32>, bits: nat, r: u32, src: Seq<u8>, t: Seq<u8>)
    ensures
        prefix_only(src, lane_step(f, bits, r, src), t, lane_step(f, bits, r, t)),
{
    if let Ok((v, rest)) = lane_step(f, bits, r, src) {
        let c = src.len() - rest.len();
        if agrees(t, src, c) {
            if c == 2 && t.len() >= 2 {
                assert(t[0] == t.take(2)[0] && t[1] == t.take(2)[1]);
                assert(src[0] == src.take(2)[0] && src[1] == src.take(2)[1]);
            }
            if c == 0 {
                assert(t.skip(0) =~= t);
            }
        }
        assert(src.skip(c) =~= rest);
    }
}

proof fn lemma_o0_run(f: Seq<u32>, states: Seq<u32>, out: Seq<u8>, len: nat, src: Seq<u8>, t: Seq<u8>)
    ensures
        prefix_only(src, o0_run(f, states, out, len, src), t, o0_run(f, states, out, len, t)),
    decreases len - out.len(),
{
    if out.len() < len {
        let j = out.len() % states.len();
        lemma_lane_step(f, 12, states[j as int], src, t);
        if let Ok(((s, r), r1)) = lane_step(f, 12, states[j as int], src) {
            let c1 = src.len() - r1.len();
            lemma_o0_run(f, states.update(j as int, r), out.push(s), len, r1, t.skip(c1));
            if let Ok((w, rest)) = o0_run(f, states.update(j as int, r), out.push(s), len, r1) {
                lemma_chain(src, r1, rest, t);
            }
        }
    } else {
        assert(src.skip(0) =~= src);
        assert(t.skip(0) =~= t);
    }
}

pub proof fn lemma_order0(src: Seq<u8>, len: nat, n: nat, t: Seq<u8>)
    ensures
        prefix_only(src, order0(src, len, n), t, order0(t, len, n)),
{
    lemma_freq_table(src, 12, t);
    if let Ok((f, s1)) = freq_table(src, 12) {
        let c1 = src.len() - s1.len();
        lemma_lane_states(s1, n, t.skip(c1));
        if let Ok((states, s2)) = lane_states(s1, n) {
            let c2 = s1.len() - s2.len();
            lemma_o0_run(f, states, Seq::empty(), len, s2, t.skip(c1).skip(c2));
            if let Ok((out, rest)) = o0_run(f, states, Seq::empty(), len, s2) {
                lemma_chain(s1, s2, rest, t.skip(c1));
                lemma_chain(src, s1, rest, t);
            }
        }
    }
}

proof fn lemma_nothing_read<T>(src: Seq<u8>, t: Seq<u8>, v: T)
    ensures
        prefix_only(src, Ok::<(T, Seq<u8>), DecodeError>((v, src)), t, Ok::<(T, Seq<u8>), DecodeError>((v, t))),
{
    assert(src.skip(0) =~= src);
    assert(t.skip(0) =~= t);
}

proof fn lemma_row_from(a: Seq<bool>, j: int, run: u8, row: Seq<u32>, src: Seq<u8>, t: Seq<u8>)
    ensures
        prefix_only(src, row_from(a, j, run, row, src), t, row_from(a, j, run, row, t)),
    decreases 256 - j,
{
    if j >= 256 {
        lemma_nothing_read(src, t, row);
    } else if !a[j] {
        lemma_row_from(a, j + 1, run, row.push(0), src, t);
    } else if run > 0 {
        lemma_row_from(a, j + 1, (run - 1) as u8, row.push(0), src, t);
    } else {
        lemma_varint(src, t);
        if let Ok((v, r1)) = varint(src) {
            let c1 = src.len() - r1.len();
            if v == 0 {
                lemma_byte(r1, t.skip(c1));
                if let Ok((k, r2)) = byte(r1) {
                    let c2 = r1.len() - r2.len();
                    lemma_row_from(a, j + 1, k, row.push(0), r2, t.skip(c1).skip(c2));
                    if let Ok((w, rest)) = row_from(a, j + 1, k, row.push(0), r2) {
                        lemma_chain(r1, r2, rest, t.skip(c1));
                        lemma_chain(src, r1, rest, t);
                    }
                }
            } else {
                lemma_row_from(a, j + 1, 0, row.push(v), r1, t.skip(c1));
                if let Ok((w, rest)) = row_from(a, j + 1, 0, row.push(v), r1) {
                    lemma_chain(src, r1, rest, t);
                }
            }
        }
    }
}

proof fn lemma_rows_from(a: Seq<bool>, i: int, bits: nat, rows: Seq<Seq<u32>>, src: Seq<u8>, t: Seq<u8>)
    ensures
        prefix_only(src, rows_from(a, i, bits, rows, src), t, rows_from(a, i, bits, rows, t)),
    decreases 256 - i,
{
    if i >= 256 {
        lemma_nothing_read(src, t, rows);
    } else if !a[i] {
        lemma_rows_from(a, i + 1, bits, rows.push(super::order_1::zero_row()), src, t);
    } else {
        lemma_row_from(a, 0, 0, Seq::empty(), src, t);
        if let Ok((raw, r1)) = row_from(a, 0, 0, Seq::empty(), src) {
            let c1 = src.len() - r1.len();
            if let Some(f) = super::model::normalized(raw, vstd::arithmetic::power2::pow2(bits) as int) {
                lemma_rows_from(a, i + 1, bits, rows.push(f), r1, t.skip(c1));
                if let Ok((w, rest)) = rows_from(a, i + 1, bits, rows.push(f), r1) {
                    lemma_chain(src, r1, rest, t);
                }
            }
        }
    }
}

proof fn lemma_tables(src: Seq<u8>, bits: nat, t: Seq<u8>)
    ensures
        prefix_only(src, tables(src, bits), t, tables(t, bits)),
{
    lemma_alphabet(src, t);
    if let Ok((a, s1)) = alphabet(src) {
        let c1 = src.len() - s1.len();
        lemma_rows_from(a, 0, bits, Seq::empty(), s1, t.skip(c1));
        if let Ok((rows, rest)) = rows_from(a, 0, bits, Seq::empty(), s1) {
            lemma_chain(src, s1, rest, t);
        }
    }
}

proof fn lemma_header(src: Seq<u8>, t: Seq<u8>)
    ensures
        prefix_only(src, header(src), t, header(t)),
{
    lemma_byte(src, t);
    if let Ok((comp, s1)) = byte(src) {
        let c1 = src.len() - s1.len();
        let bits = (comp / 16) as nat;
        let t1 = t.skip(c1);
        if comp % 2 == 1 {
            lemma_varint(s1, t1);
            if let Ok((u_size, s2)) = varint(s1) {
                let c2 = s1.len() - s2.len();
                let t2 = t1.skip(c2);
                lemma_varint(s2, t2);
                if let Ok((c_size, s3)) = varint(s2) {
                    let c3 = s2.len() - s3.len();
                    let t3 = t2.skip(c3);
                    lemma_bytes(s3, c_size as nat, t3);
                    if let Ok((c, s4)) = bytes(s3, c_size as nat) {
                        lemma_chain(s2, s3, s4, t2);
                        lemma_chain(s1, s2, s4, t1);
                        lemma_chain(src, s1, s4, t);
                    }
                }
            }
        } else {
            lemma_tables(s1, bits, t1);
            if let Ok((tb, rest)) = tables(s1, bits) {
                lemma_chain(src, s1, rest, t);
            }
        }
    }
}

proof fn lemma_o1_run(
    rows: Seq<Seq<u32>>,
    bits: nat,
    states: Seq<u32>,
    ctx: Seq<u8>,
    out: Seq<u8>,
    k: nat,
    len: nat,
    src: Seq<u8>,
    t: Seq<u8>,
)
    ensures
        prefix_only(
            src,
            o1_run(rows, bits, states, ctx, out, k, len, src),
            t,
            o1_run(rows, bits, states, ctx, out, k, len, t),
        ),
    decreases len - k,
{
    if k >= len {
        lemma_nothing_read(src, t, out);
    } else {
        let (j, pos) = lane_of(k, len, states.len());
        let f = rows[ctx[j as int] as int];
        lemma_lane_step(f, bits, states[j as int], src, t);
        if let Ok(((s, r), r1)) = lane_step(f, bits, states[j as int], src) {
            let c1 = src.len() - r1.len();
            lemma_o1_run(
                rows,
                bits,
                states.update(j as int, r),
                ctx.update(j as int, s),
                out.update(pos as int, s),
                k + 1,
                len,
                r1,
                t.skip(c1),
            );
            if let Ok((w, rest)) = o1_run(
                rows,
                bits,
                states.update(j as int, r),
                ctx.update(j as int, s),
                out.update(pos as int, s),
                k + 1,
                len,
                r1,
            ) {
                lemma_chain(src, r1, rest, t);
            }
        }
    }
}

pub proof fn lemma_order1(src: Seq<u8>, len: nat, n: nat, t: Seq<u8>)
    ensures
        prefix_only(src, order1(src, len, n), t, order1(t, len, n)),
{
    lemma_header(src, t);
    if let Ok(((bits, rows), s1)) = header(src) {
        let c1 = src.len() - s1.len();
        lemma_lane_states(s1, n, t.skip(c1));
        if let Ok((states, s2)) = lane_states(s1, n) {
            let c2 = s1.len() - s2.len();
            let ctx = Seq::new(n, |j: int| 0u8);
            let out = Seq::new(len, |i: int| 0u8);
            lemma_o1_run(rows, bits, states, ctx, out, 0, len, s2, t.skip(c1).skip(c2));
            if let Ok((o, rest)) = o1_run(rows, bits, states, ctx, out, 0, len, s2) {
                lemma_chain(s1, s2, rest, t.skip(c1));
                lemma_chain(src, s1, rest, t);
            }
        }
    }
}

proof fn lemma_pack_meta(src: Seq<u8>, t: Seq<u8>)
    ensures
        prefix_only(src, pack_meta(src), t, pack_meta(t)),
{
    lemma_byte(src, t);
    if let Ok((k, s1)) = byte(src) {
        if k != 0 && k <= 16 {
            let c1 = src.len() - s1.len();
            let t1 = t.skip(c1);
            lemma_bytes(s1, k as nat, t1);
            if let Ok((p, s2)) = bytes(s1, k as nat) {
                let c2 = s1.len() - s2.len();
                lemma_varint(s2, t1.skip(c2));
                if let Ok((plen, rest)) = varint(s2) {
                    lemma_chain(s1, s2, rest, t1);
                    lemma_chain(src, s1, rest, t);
                }
            }
        }
    }
}

proof fn lemma_meta_bytes(src: Seq<u8>, meta_len: u32, n: nat, t: Seq<u8>)
    ensures
        prefix_only(src, meta_bytes(src, meta_len, n), t, meta_bytes(t, meta_len, n)),
{
    if meta_len % 2 == 1 {
        lemma_bytes(src, (meta_len / 2) as nat, t);
    } else {
        lemma_varint(src, t);
        if let Ok((c_len, s1)) = varint(src) {
            let c1 = src.len() - s1.len();
            lemma_bytes(s1, c_len as nat, t.skip(c1));
            if let Ok((c, rest)) = bytes(s1, c_len as nat) {
                lemma_chain(src, s1, rest, t);
            }
        }
    }
}

proof fn lemma_rle_meta(src: Seq<u8>, n: nat, t: Seq<u8>)
    ensures
        prefix_only(src, rle_meta(src, n), t, rle_meta(t, n)),
{
    lemma_varint(src, t);
    if let Ok((meta_len, s1)) = varint(src) {
        let c1 = src.len() - s1.len();
        let t1 = t.skip(c1);
        lemma_varint(s1, t1);
        if let Ok((len, s2)) = varint(s1) {
            let c2 = s1.len() - s2.len();
            lemma_meta_bytes(s2, meta_len, n, t1.skip(c2));
            if let Ok((meta, rest)) = meta_bytes(s2, meta_len, n) {
                lemma_chain(s1, s2, rest, t1);
                lemma_chain(src, s1, rest, t);
            }
        }
    }
}

proof fn lemma_body(src: Seq<u8>, flags: u8, len: nat, n: nat, t: Seq<u8>)
    ensures
        prefix_only(src, body(src, flags, len, n), t, body(t, flags, len, n)),
{
    reveal(body);
    if flags & PACK != 0 {
        lemma_pack_meta(src, t);
    } else {
        lemma_nothing_read(src, t, (Seq::<u8>::empty(), len));
    }
    let packed: Parsed<(Seq<u8>, nat)> = if flags & PACK != 0 {
        pack_meta(src)
    } else {
        Ok(((Seq::empty(), len), src))
    };
    if let Ok(((p, len1), s1)) = packed {
        let c1 = src.len() - s1.len();
        let t1 = t.skip(c1);
        if flags & RLE != 0 {
            lemma_rle_meta(s1, n, t1);
        } else {
            lemma_nothing_read(s1, t1, (Seq::<bool>::empty(), Seq::<u8>::empty(), len1));
        }
        let rled: Parsed<(Seq<bool>, Seq<u8>, nat)> = if flags & RLE != 0 {
            rle_meta(s1, n)
        } else {
            Ok(((Seq::empty(), Seq::empty(), len1), s1))
        };
        if let Ok(((l, runs, len2), s2)) = rled {
            let c2 = s1.len() - s2.len();
            let t2 = t1.skip(c2);
            if flags & CAT != 0 {
                lemma_bytes(s2, len2, t2);
            } else if flags & ORDER != 0 {
                lemma_order1(s2, len2, n, t2);
            } else {
                lemma_order0(s2, len2, n, t2);
            }
            let core = if flags & CAT != 0 {
                bytes(s2, len2)
            } else if flags & ORDER != 0 {
                order1(s2, len2, n)
            } else {
                order0(s2, len2, n)
            };
            if let Ok((data, rest)) = core {
                lemma_chain(s1, s2, rest, t1);
                lemma_chain(src, s1, rest, t);
            }
        }
    }
}

proof fn lemma_skip_lens(src: Seq<u8>, count: nat, t: Seq<u8>)
    ensures
        prefix_only(src, skip_lens(src, count), t, skip_lens(t, count)),
    decreases count,
{
    if count == 0 {
        lemma_nothing_read(src, t, ());
    } else {
        lemma_varint(src, t);
        if let Ok((v, r1)) = varint(src) {
            let c1 = src.len() - r1.len();
            lemma_skip_lens(r1, (count - 1) as nat, t.skip(c1));
            if let Ok((u, rest)) = skip_lens(r1, (count - 1) as nat) {
                lemma_chain(src, r1, rest, t);
            }
        }
    }
}

proof fn lemma_decode_stream(src: Seq<u8>, len: nat, t: Seq<u8>)
    ensures
        prefix_only(src, decode_stream(src, len), t, decode_stream(t, len)),
        decode_stream(src, len) matches Ok((_, rest)) ==> rest.len() < src.len(),
    decreases src.len(), 0nat,
{
    if src.len() > 0 {
        lemma_byte(src, t);
        let flags = src[0];
        let s1 = src.skip(1);
        let t1 = t.skip(1);
        if flags & NO_SIZE != 0 {
            lemma_nothing_read(s1, t1, len);
        } else {
            lemma_varint(s1, t1);
        }
        let sized: Parsed<nat> = if flags & NO_SIZE != 0 {
            Ok((len, s1))
        } else {
            match varint(s1) {
                Err(e) => Err(e),
                Ok((v, rest)) => Ok((v as nat, rest)),
            }
        };
        if let Ok((ulen, s2)) = sized {
            crate::cursor::lemma_uint7_shorter(s1, 0);
            let c2 = s1.len() - s2.len();
            let t2 = t1.skip(c2);
            if flags & STRIPE != 0 {
                lemma_stripe_stream(s2, ulen, lanes(flags), t2);
            } else {
                lemma_body(s2, flags, ulen, lanes(flags), t2);
            }
            let r = if flags & STRIPE != 0 {
                stripe_stream(s2, ulen, lanes(flags))
            } else {
                body(s2, flags, ulen, lanes(flags))
            };
            if let Ok((out, rest)) = r {
                lemma_chain(s1, s2, rest, t1);
                lemma_chain(src, s1, rest, t);
                if t.len() >= 1 && agrees(t, src, src.len() - rest.len()) {
                    assert(t[0] == src[0]) by {
                        lemma_agrees_within(t, src, src.len() - rest.len(), 1);
                        assert(t[0] == t.take(1)[0]);
                        assert(src[0] == src.take(1)[0]);
                    }
                }
            }
        }
    }
}

proof fn lemma_stripe_stream(src: Seq<u8>, len: nat, n: nat, t: Seq<u8>)
    ensures
        prefix_only(src, stripe_stream(src, len, n), t, stripe_stream(t, len, n)),
    decreases src.len(), 0nat,
{
    lemma_byte(src, t);
    if let Ok((x, s1)) = byte(src) {
        let t1 = t.skip(1);
        lemma_skip_lens(s1, x as nat, t1);
        if let Ok((u, s2)) = skip_lens(s1, x as nat) {
            lemma_skip_lens_shorter(s1, x as nat);
            let c2 = s1.len() - s2.len();
            let t2 = t1.skip(c2);
            lemma_stripes_from(s2, len, n, x as nat, 0, Seq::empty(), t2);
            if let Ok((chunks, rest)) = stripes_from(s2, len, n, x as nat, 0, Seq::empty()) {
                lemma_chain(s1, s2, rest, t1);
                lemma_chain(src, s1, rest, t);
            }
        }
    }
}

proof fn lemma_stripes_from(
    src: Seq<u8>,
    len: nat,
    n: nat,
    x: nat,
    j: nat,
    chunks: Seq<Seq<u8>>,
    t: Seq<u8>,
)
    ensures
        prefix_only(src, stripes_from(src, len, n, x, j, chunks), t, stripes_from(t, len, n, x, j, chunks)),
    decreases src.len(), 1nat,
{
    if j >= x {
        lemma_nothing_read(src, t, chunks);
    } else {
        let ulen = stripe_len(len, x, n, j);
        if ulen <= len {
            lemma_decode_stream(src, ulen, t);
            if let Ok((c, r1)) = decode_stream(src, ulen) {
                if !(r1.len() >= src.len() || c.len() != ulen) {
                    let c1 = src.len() - r1.len();
                    lemma_stripes_from(r1, len, n, x, j + 1, chunks.push(c), t.skip(c1));
                    if let Ok((w, rest)) = stripes_from(r1, len, n, x, j + 1, chunks.push(c)) {
                        lemma_chain(src, r1, rest, t);
                    }
                }
            }
        }
    }
}

/// A block that decodes consumes at least its flag byte, so a stripe that
/// decodes always consumes input.
pub proof fn lemma_block_consumes(src: Seq<u8>, len: nat)
    ensures
        decode_stream(src, len) matches Ok((_, rest)) ==> rest.len() < src.len(),
{
    lemma_decode_stream(src, len, src);
}

/// A block cut short anywhere before its end, at a header field or inside the
/// coded data, fails with `UnexpectedEof`.
pub proof fn lemma_truncated_block(src: Seq<u8>, len: nat, k: nat)
    requires
        decode_stream(src, len) is Ok,
        k < src.len() - decode_stream(src, len)->Ok_0.1.len(),
    ensures
        decode_stream(src.take(k as int), len) == Err::<(Seq<u8>, Seq<u8>), DecodeError>(
            DecodeError::UnexpectedEof,
        ),
{
    lemma_decode_stream(src, len, src.take(k as int));
}

/// Bytes after a block do not change how it decodes.
pub proof fn lemma_trailing_bytes(src: Seq<u8>, len: nat, extra: Seq<u8>)
    requires
        decode_stream(src, len) is Ok,
    ensures
        decode_stream(src + extra, len) == Ok::<(Seq<u8>, Seq<u8>), DecodeError>(
            (decode_stream(src, len)->Ok_0.0, decode_stream(src, len)->Ok_0.1 + extra),
        ),
{
    let t = src + extra;
    let rest = decode_stream(src, len)->Ok_0.1;
    let c = src.len() - rest.len();
    lemma_decode_stream(src, len, t);
    assert(t.take(c) =~= src.take(c));
    assert(t.skip(c) =~= src.skip(c) + extra);
}

} // verus!
