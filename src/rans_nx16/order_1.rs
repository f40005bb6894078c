//! Order-1 decoding: 256 frequency tables, one per previous symbol.

use vstd::prelude::*;
use vstd::arithmetic::power2::{pow2, lemma2_to64};
use vstd::bits::lemma_u32_pow2_no_overflow;
use vstd::arithmetic::div_mod::lemma_fundamental_div_mod;

use super::model::{
    Parsed, alphabet, byte, bytes, cum_at, cumulative_freqs, decode_symbol, is_cumulative,
    is_table, lane_states, lane_step, lemma_normalized_total, next_len, next_u8, next_uint7,
    normalize_frequencies, normalized, read_alphabet, read_lane_states, reads_bytes, varint,
};
use super::order_0::{self, order0};
use crate::cursor::read_exact;
use super::DecodeError;

verus! {

/// One row of frequencies, for the symbols of the alphabet in order; a zero
/// frequency is followed by a byte counting further zeros.
pub open spec fn row_from(a: Seq<bool>, j: int, run: u8, row: Seq<u32>, src: Seq<u8>) -> Parsed<Seq<u32>>
    decreases 256 - j,
{
    if j >= 256 {
        Ok((row, src))
    } else if !a[j] {
        row_from(a, j + 1, run, row.push(0), src)
    } else if run > 0 {
        row_from(a, j + 1, (run - 1) as u8, row.push(0), src)
    } else {
        match varint(src) {
            Err(e) => Err(e),
            Ok((v, rest)) => if v == 0 {
                match byte(rest) {
                    Err(e) => Err(e),
                    Ok((k, rest2)) => row_from(a, j + 1, k, row.push(0), rest2),
                }
            } else {
                row_from(a, j + 1, 0, row.push(v), rest)
            },
        }
    }
}

/// 256 zero frequencies.
pub open spec fn zero_row() -> Seq<u32> {
    Seq::new(256, |k: int| 0u32)
}

/// The rows from context `i` on: a normalized row for each context in the
/// alphabet, zeros for the others.
pub open spec fn rows_from(a: Seq<bool>, i: int, bits: nat, rows: Seq<Seq<u32>>, src: Seq<u8>) -> Parsed<Seq<Seq<u32>>>
    decreases 256 - i,
{
    if i >= 256 {
        Ok((rows, src))
    } else if !a[i] {
        rows_from(a, i + 1, bits, rows.push(zero_row()), src)
    } else {
        match row_from(a, 0, 0, Seq::empty(), src) {
            Err(e) => Err(e),
            Ok((raw, rest)) => match normalized(raw, pow2(bits) as int) {
                None => Err(DecodeError::InvalidData),
                Some(f) => rows_from(a, i + 1, bits, rows.push(f), rest),
            },
        }
    }
}

/// The context alphabet followed by the rows.
pub open spec fn tables(src: Seq<u8>, bits: nat) -> Parsed<Seq<Seq<u32>>> {
    match alphabet(src) {
        Err(e) => Err(e),
        Ok((a, s1)) => rows_from(a, 0, bits, Seq::empty(), s1),
    }
}

/// The order-1 header: a byte whose high nibble is the table precision and
/// whose low bit marks tables that are themselves order-0 coded (over four
/// lanes, after their decoded and coded sizes).
pub open spec fn header(src: Seq<u8>) -> Parsed<(nat, Seq<Seq<u32>>)> {
    match byte(src) {
        Err(e) => Err(e),
        Ok((comp, s1)) => {
            let bits = (comp / 16) as nat;
            if comp % 2 == 1 {
                match varint(s1) {
                    Err(e) => Err(e),
                    Ok((u_size, s2)) => match varint(s2) {
                        Err(e) => Err(e),
                        Ok((c_size, s3)) => match bytes(s3, c_size as nat) {
                            Err(e) => Err(e),
                            Ok((c, s4)) => match order0(c, u_size as nat, 4) {
                                Err(e) => Err(e),
                                Ok((u, _)) => match tables(u, bits) {
                                    Err(e) => Err(e),
                                    Ok((t, _)) => Ok(((bits, t), s4)),
                                },
                            },
                        },
                    },
                }
            } else {
                match tables(s1, bits) {
                    Err(e) => Err(e),
                    Ok((t, s2)) => Ok(((bits, t), s2)),
                }
            }
        },
    }
}

/// The lane and output position of symbol `k`: the output is cut into `n`
/// runs of `len / n` symbols, one per lane, and the last lane also decodes
/// what is left over.
pub open spec fn lane_of(k: nat, len: nat, n: nat) -> (nat, nat) {
    let x = len / n;
    if k < x * n {
        ((k % n) as nat, (k / n + (k % n) * x) as nat)
    } else {
        ((n - 1) as nat, k)
    }
}

/// The symbols after the tables and lane states; each lane's context is the
/// symbol it decoded last, 0 at the start.
pub open spec fn o1_run(
    rows: Seq<Seq<u32>>,
    bits: nat,
    states: Seq<u32>,
    ctx: Seq<u8>,
    out: Seq<u8>,
    k: nat,
    len: nat,
    src: Seq<u8>,
) -> Parsed<Seq<u8>>
    decreases len - k,
{
    if k >= len {
        Ok((out, src))
    } else {
        let (j, pos) = lane_of(k, len, states.len());
        match lane_step(rows[ctx[j as int] as int], bits, states[j as int], src) {
            Err(e) => Err(e),
            Ok(((s, r), rest)) => o1_run(
                rows,
                bits,
                states.update(j as int, r),
                ctx.update(j as int, s),
                out.update(pos as int, s),
                k + 1,
                len,
                rest,
            ),
        }
    }
}

/// An order-1 stream of `len` symbols over `n` lanes.
pub open spec fn order1(src: Seq<u8>, len: nat, n: nat) -> Parsed<Seq<u8>> {
    match header(src) {
        Err(e) => Err(e),
        Ok(((bits, rows), s1)) => match lane_states(s1, n) {
            Err(e) => Err(e),
            Ok((states, s2)) => o1_run(
                rows,
                bits,
                states,
                Seq::new(n, |j: int| 0u8),
                Seq::new(len, |i: int| 0u8),
                0,
                len,
                s2,
            ),
        },
    }
}

/// The order-1 tables as decoded: row `c` with its cumulative table.
pub open spec fn tables_ok(fs: Seq<Vec<u32>>, cs: Seq<Vec<u32>>, rows: Seq<Seq<u32>>, bits: nat) -> bool {
    &&& fs.len() == 256
    &&& cs.len() == 256
    &&& rows.len() == 256
    &&& forall|c: int|
        0 <= c < 256 ==> {
            &&& #[trigger] fs[c]@ == rows[c]
            &&& is_table(rows[c], pow2(bits) as int)
            &&& is_cumulative(rows[c], cs[c]@)
        }
}

fn zeros_u32(n: usize) -> (v: Vec<u32>)
    ensures
        v@ == Seq::new(n as nat, |k: int| 0u32),
{
    let mut v: Vec<u32> = Vec::new();
    let mut i: usize = 0;
    while i < n
        invariant
            i <= n,
            v@ == Seq::new(i as nat, |k: int| 0u32),
        decreases n - i,
    {
        v.push(0);
        i += 1;
    }
    v
}

proof fn lemma_zero_cum(k: int)
    requires
        0 <= k <= 256,
    ensures
        cum_at(zero_row(), k) == 0,
    decreases k,
{
    if k > 0 {
        lemma_zero_cum(k - 1);
    }
}

fn read_row(src: &mut &[u8], a: &Vec<bool>) -> (r: Result<Vec<u32>, DecodeError>)
    requires
        a@.len() == 256,
    ensures
        reads_bytes_u32(r, final(src)@, row_from(a@, 0, 0, Seq::empty(), old(src)@)),
        r is Ok ==> r->Ok_0@.len() == 256,
{
    let mut row: Vec<u32> = Vec::new();
    let mut run: u8 = 0;
    let mut j: usize = 0;
    while j < 256
        invariant
            a@.len() == 256,
            j <= 256,
            row@.len() == j,
            row_from(a@, j as int, run, row@, src@) == row_from(a@, 0, 0, Seq::empty(), old(src)@),
        decreases 256 - j,
    {
        if !a[j] {
            row.push(0);
        } else if run > 0 {
            run -= 1;
            row.push(0);
        } else {
            let v = next_uint7(src)?;
            if v == 0 {
                run = next_u8(src)?;
            }
            row.push(v);
        }
        j += 1;
    }
    Ok(row)
}

/// An exec vector of frequencies agrees with a spec-level read.
pub open spec fn reads_bytes_u32(r: Result<Vec<u32>, DecodeError>, rest: Seq<u8>, p: Parsed<Seq<u32>>) -> bool {
    match p {
        Ok((v, after)) => r is Ok && r->Ok_0@ == v && rest == after,
        Err(e) => r == Err::<Vec<u32>, DecodeError>(e),
    }
}

fn read_tables(src: &mut &[u8], bits: u32) -> (r: Result<(Vec<Vec<u32>>, Vec<Vec<u32>>), DecodeError>)
    requires
        bits <= 15,
    ensures
        match tables(old(src)@, bits as nat) {
            Ok((rows, after)) => r is Ok && tables_ok(r->Ok_0.0@, r->Ok_0.1@, rows, bits as nat)
                && final(src)@ == after,
            Err(e) => r == Err::<(Vec<Vec<u32>>, Vec<Vec<u32>>), DecodeError>(e),
        },
{
    proof {
        lemma2_to64();
        lemma_u32_pow2_no_overflow(bits as nat);
        lemma_zero_cum(256);
    }
    let a = read_alphabet(src)?;
    let mut fs: Vec<Vec<u32>> = Vec::new();
    let mut cs: Vec<Vec<u32>> = Vec::new();
    let ghost mut rows: Seq<Seq<u32>> = Seq::empty();
    let mut i: usize = 0;
    while i < 256
        invariant
            i <= 256,
            bits <= 15,
            0 < pow2(bits as nat) <= u32::MAX,
            cum_at(zero_row(), 256) == 0,
            a@.len() == 256,
            alphabet(old(src)@) is Ok,
            a@ == alphabet(old(src)@)->Ok_0.0,
            fs@.len() == i,
            cs@.len() == i,
            rows.len() == i,
            forall|c: int|
                0 <= c < i ==> {
                    &&& #[trigger] fs@[c]@ == rows[c]
                    &&& is_table(rows[c], pow2(bits as nat) as int)
                    &&& is_cumulative(rows[c], cs@[c]@)
                },
            rows_from(a@, i as int, bits as nat, rows, src@) == tables(old(src)@, bits as nat),
        decreases 256 - i,
    {
        if a[i] {
            let mut row = read_row(src, &a)?;
            let ghost raw = row@;
            if !normalize_frequencies(&mut row, bits) {
                return Err(DecodeError::InvalidData);
            }
            proof {
                lemma_normalized_total(raw, pow2(bits as nat) as int);
            }
            let cum = cumulative_freqs(&row);
            proof {
                rows = rows.push(row@);
            }
            fs.push(row);
            cs.push(cum);
        } else {
            let row = zeros_u32(256);
            let cum = zeros_u32(257);
            proof {
                assert(row@ =~= zero_row());
                assert forall|k: int| 0 <= k <= 256 implies #[trigger] cum@[k] == cum_at(
                    zero_row(),
                    k,
                ) by {
                    lemma_zero_cum(k);
                }
                rows = rows.push(zero_row());
            }
            fs.push(row);
            cs.push(cum);
        }
        i += 1;
    }
    Ok((fs, cs))
}

fn read_header(src: &mut &[u8]) -> (r: Result<(u32, Vec<Vec<u32>>, Vec<Vec<u32>>), DecodeError>)
    ensures
        match header(old(src)@) {
            Ok(((bits, rows), after)) => r is Ok && r->Ok_0.0 == bits && bits <= 15 && tables_ok(
                r->Ok_0.1@,
                r->Ok_0.2@,
                rows,
                bits,
            ) && final(src)@ == after,
            Err(e) => r == Err::<(u32, Vec<Vec<u32>>, Vec<Vec<u32>>), DecodeError>(e),
        },
{
    let comp = next_u8(src)?;
    let bits = (comp / 16) as u32;
    if comp % 2 == 1 {
        let u_size = next_len(src)?;
        let c_size = next_len(src)?;
        let c = match read_exact(src, c_size) {
            Some(c) => c,
            None => return Err(DecodeError::UnexpectedEof),
        };
        let mut c_reader: &[u8] = c;
        let u = order_0::decode(&mut c_reader, u_size, 4)?;
        let mut u_reader: &[u8] = u.as_slice();
        let (fs, cs) = read_tables(&mut u_reader, bits)?;
        Ok((bits, fs, cs))
    } else {
        let (fs, cs) = read_tables(src, bits)?;
        Ok((bits, fs, cs))
    }
}

pub fn decode(src: &mut &[u8], len: usize, n: usize) -> (r: Result<Vec<u8>, DecodeError>)
    requires
        n > 0,
    ensures
        reads_bytes(r, final(src)@, order1(old(src)@, len as nat, n as nat)),
{
    let (bits, fs, cs) = read_header(src)?;
    let ghost rows = fs@.map_values(|v: Vec<u32>| v@);
    let mut states = read_lane_states(src, n)?;
    let mut ctx: Vec<u8> = vec![0u8; n];
    let mut out: Vec<u8> = vec![0u8; len];
    proof {
        assert(ctx@ =~= Seq::new(n as nat, |j: int| 0u8));
        assert(out@ =~= Seq::new(len as nat, |i: int| 0u8));
    }
    let x = len / n;
    let mut k: usize = 0;
    while k < len
        invariant
            n > 0,
            x == len / n,
            k <= len,
            out@.len() == len,
            states@.len() == n,
            ctx@.len() == n,
            bits <= 15,
            exists|rows: Seq<Seq<u32>>|
                tables_ok(fs@, cs@, rows, bits as nat) && #[trigger] o1_run(
                    rows,
                    bits as nat,
                    states@,
                    ctx@,
                    out@,
                    k as nat,
                    len as nat,
                    src@,
                ) == order1(old(src)@, len as nat, n as nat),
        decreases len - k,
    {
        let ghost rows = choose|rows: Seq<Seq<u32>>|
            tables_ok(fs@, cs@, rows, bits as nat) && #[trigger] o1_run(
                rows,
                bits as nat,
                states@,
                ctx@,
                out@,
                k as nat,
                len as nat,
                src@,
            ) == order1(old(src)@, len as nat, n as nat);
        proof {
            lemma_fundamental_div_mod(len as int, n as int);
            assert(x * n <= len) by (nonlinear_arith)
                requires
                    len == n * x + len % n,
                    len % n >= 0,
            ;
        }
        let (j, pos) = if k < x * n {
            let j = k % n;
            let i = k / n;
            proof {
                lemma_fundamental_div_mod(k as int, n as int);
                assert(i + j * x < len) by (nonlinear_arith)
                    requires
                        k < x * n,
                        k == n * i + j,
                        0 <= j < n,
                        x * n <= len,
                        i >= 0,
                ;
            }
            (j, i + j * x)
        } else {
            (n - 1, k)
        };
        proof {
            assert((j as nat, pos as nat) == lane_of(k as nat, len as nat, n as nat));
        }
        let c = ctx[j] as usize;
        let ghost st0 = states@;
        let ghost cx0 = ctx@;
        let ghost out0 = out@;
        let ghost src0 = src@;
        assert(fs@[c as int]@ == rows[c as int]);
        let (s, r) = decode_symbol(src, &fs[c], &cs[c], bits, states[j])?;
        states.set(j, r);
        ctx.set(j, s);
        out.set(pos, s);
        proof {
            assert(o1_run(rows, bits as nat, st0, cx0, out0, k as nat, len as nat, src0) == o1_run(
                rows,
                bits as nat,
                states@,
                ctx@,
                out@,
                (k + 1) as nat,
                len as nat,
                src@,
            ));
        }
        k += 1;
    }
    Ok(out)
}

} // verus!
