//! The adaptive frequency model shared by the order-0 and order-1 decoders:
//! the alphabet, the normalized frequency table, symbol lookup by cumulative
//! frequency, and one step of a rANS lane.

use vstd::prelude::*;
use vstd::arithmetic::power2::{pow2, lemma_pow2_unfold, lemma_pow2_pos, lemma2_to64};
use vstd::arithmetic::div_mod::lemma_fundamental_div_mod;
use vstd::bits::{
    lemma_u32_shl_is_mul, lemma_u32_shr_is_div, lemma_u32_low_bits_mask_is_mod,
    lemma_u32_pow2_no_overflow,
};

use crate::cursor::{le16, le32, uint7, read_u8, read_u16_le, read_u32_le, read_uint7};
use super::DecodeError;

verus! {

/// A value read from the front of the input, with the unread rest.
pub type Parsed<T> = Result<(T, Seq<u8>), DecodeError>;

/// An exec result agrees with a spec-level read.
pub open spec fn reads<T>(r: Result<T, DecodeError>, rest: Seq<u8>, p: Parsed<T>) -> bool {
    match p {
        Ok((v, after)) => r == Ok::<T, DecodeError>(v) && rest == after,
        Err(e) => r == Err::<T, DecodeError>(e),
    }
}

/// An exec byte-vector result agrees with a spec-level read.
pub open spec fn reads_bytes(r: Result<Vec<u8>, DecodeError>, rest: Seq<u8>, p: Parsed<Seq<u8>>) -> bool {
    match p {
        Ok((v, after)) => r is Ok && r->Ok_0@ == v && rest == after,
        Err(e) => r == Err::<Vec<u8>, DecodeError>(e),
    }
}

pub open spec fn byte(src: Seq<u8>) -> Parsed<u8> {
    if src.len() == 0 {
        Err(DecodeError::UnexpectedEof)
    } else {
        Ok((src[0], src.skip(1)))
    }
}

pub open spec fn varint(src: Seq<u8>) -> Parsed<u32> {
    match uint7(src) {
        Some(p) => Ok(p),
        None => Err(DecodeError::UnexpectedEof),
    }
}

pub open spec fn bytes(src: Seq<u8>, n: nat) -> Parsed<Seq<u8>> {
    if src.len() < n {
        Err(DecodeError::UnexpectedEof)
    } else {
        Ok((src.take(n as int), src.skip(n as int)))
    }
}

pub fn next_u8(src: &mut &[u8]) -> (r: Result<u8, DecodeError>)
    ensures
        reads(r, final(src)@, byte(old(src)@)),
{
    match read_u8(src) {
        Some(b) => Ok(b),
        None => Err(DecodeError::UnexpectedEof),
    }
}

pub fn next_uint7(src: &mut &[u8]) -> (r: Result<u32, DecodeError>)
    ensures
        reads(r, final(src)@, varint(old(src)@)),
{
    match read_uint7(src) {
        Some(n) => Ok(n),
        None => Err(DecodeError::UnexpectedEof),
    }
}

/// Reads a base-128 length.
pub fn next_len(src: &mut &[u8]) -> (r: Result<usize, DecodeError>)
    ensures
        match varint(old(src)@) {
            Ok((v, after)) => r == Ok::<usize, DecodeError>(v as usize) && final(src)@ == after,
            Err(e) => r == Err::<usize, DecodeError>(e),
        },
{
    let n = next_uint7(src)?;
    Ok(n as usize)
}

// ---------------------------------------------------------------------------
// Alphabet

/// The alphabet block after its first symbol. `sym` has just been read,
/// `count` symbols came before it, and `run` more follow it implicitly. A
/// symbol one above the previous one is followed by a run byte; a symbol 0
/// outside a run ends the block. A block that has not ended within 256
/// symbols is malformed.
pub open spec fn alphabet_from(a: Seq<bool>, sym: u8, run: u8, count: nat, src: Seq<u8>) -> Parsed<Seq<bool>>
    decreases src.len(), run,
{
    let a = a.update(sym as int, true);
    if count >= 256 {
        Err(DecodeError::InvalidData)
    } else if run > 0 {
        if sym == 255 {
            Err(DecodeError::InvalidData)
        } else {
            alphabet_from(a, (sym + 1) as u8, (run - 1) as u8, count + 1, src)
        }
    } else if src.len() == 0 {
        Err(DecodeError::UnexpectedEof)
    } else if sym < 255 && src[0] == sym + 1 {
        if src.len() < 2 {
            Err(DecodeError::UnexpectedEof)
        } else {
            alphabet_from(a, src[0], src[1], count + 1, src.skip(2))
        }
    } else if src[0] == 0 {
        Ok((a, src.skip(1)))
    } else {
        alphabet_from(a, src[0], 0, count + 1, src.skip(1))
    }
}

/// The set of present symbols, as 256 flags.
pub open spec fn alphabet(src: Seq<u8>) -> Parsed<Seq<bool>> {
    if src.len() == 0 {
        Err(DecodeError::UnexpectedEof)
    } else {
        alphabet_from(Seq::new(256, |i: int| false), src[0], 0, 0, src.skip(1))
    }
}

pub fn read_alphabet(src: &mut &[u8]) -> (r: Result<Vec<bool>, DecodeError>)
    ensures
        match alphabet(old(src)@) {
            Ok((a, after)) => r is Ok && r->Ok_0@ == a && final(src)@ == after,
            Err(e) => r == Err::<Vec<bool>, DecodeError>(e),
        },
        r is Ok ==> r->Ok_0@.len() == 256,
{
    let mut a: Vec<bool> = Vec::new();
    let mut i: usize = 0;
    while i < 256
        invariant
            i <= 256,
            a@ == Seq::new(i as nat, |k: int| false),
        decreases 256 - i,
    {
        a.push(false);
        i += 1;
    }
    let mut sym = next_u8(src)?;
    let mut run: u8 = 0;
    let mut count: usize = 0;
    loop
        invariant
            a@.len() == 256,
            alphabet_from(a@, sym, run, count as nat, src@) == alphabet(old(src)@),
        decreases src@.len(), run,
    {
        let ghost src0 = src@;
        if count >= 256 {
            return Err(DecodeError::InvalidData);
        }
        count += 1;
        a.set(sym as usize, true);
        if run > 0 {
            if sym == 255 {
                return Err(DecodeError::InvalidData);
            }
            run -= 1;
            sym += 1;
        } else {
            let next = next_u8(src)?;
            if sym < 255 && next == sym + 1 {
                run = next_u8(src)?;
                assert(src@ =~= src0.skip(2));
                sym = next;
            } else if next == 0 {
                return Ok(a);
            } else {
                sym = next;
            }
        }
    }
}

// ---------------------------------------------------------------------------
// Frequency tables

/// Entry `k` of the cumulative table: the sum of the first `k` frequencies.
pub open spec fn cum_at(f: Seq<u32>, k: int) -> int
    decreases k,
{
    if k <= 0 {
        0
    } else {
        cum_at(f, k - 1) + f[k - 1]
    }
}

/// The number of doublings that bring a positive total up to at least `m`.
pub open spec fn norm_shift(tot: int, m: int) -> nat
    decreases (if 0 < tot < m { m - tot } else { 0 }),
{
    if tot <= 0 || tot >= m {
        0
    } else {
        1 + norm_shift(2 * tot, m)
    }
}

/// The frequencies scaled by the least power of two that brings their total
/// to at least `m`. A table whose total is 0, or whose scaled total exceeds
/// `m`, is malformed.
pub open spec fn normalized(raw: Seq<u32>, m: int) -> Option<Seq<u32>> {
    let tot = cum_at(raw, raw.len() as int);
    let k = norm_shift(tot, m);
    if tot <= 0 || tot * pow2(k) > m {
        None
    } else {
        Some(raw.map_values(|x: u32| (x * pow2(k)) as u32))
    }
}

/// A table of 256 frequencies whose total does not exceed `m`.
pub open spec fn is_table(f: Seq<u32>, m: int) -> bool {
    f.len() == 256 && cum_at(f, 256) <= m
}

/// `cum` is the 257-entry cumulative table of `f`.
pub open spec fn is_cumulative(f: Seq<u32>, cum: Seq<u32>) -> bool {
    cum.len() == 257 && forall|k: int| 0 <= k <= 256 ==> #[trigger] cum[k] == cum_at(f, k)
}

/// The symbol whose cumulative range holds `slot`: the first symbol from `s`
/// on with `slot < cum[s + 1]`, or 255.
pub open spec fn find_symbol(f: Seq<u32>, slot: int, s: int) -> int
    decreases 255 - s,
{
    if s >= 255 || slot < cum_at(f, s + 1) {
        s
    } else {
        find_symbol(f, slot, s + 1)
    }
}

pub proof fn lemma_cum_monotone(f: Seq<u32>, i: int, j: int)
    requires
        0 <= i <= j <= f.len(),
    ensures
        0 <= cum_at(f, i) <= cum_at(f, j),
    decreases j,
{
    if j > 0 {
        if i < j {
            lemma_cum_monotone(f, i, j - 1);
        } else {
            lemma_cum_monotone(f, 0, j - 1);
        }
    }
}

pub proof fn lemma_freq_bounded(f: Seq<u32>, k: int)
    requires
        0 <= k < f.len(),
    ensures
        f[k] == cum_at(f, k + 1) - cum_at(f, k),
        f[k] <= cum_at(f, f.len() as int),
{
    lemma_cum_monotone(f, 0, k);
    lemma_cum_monotone(f, k + 1, f.len() as int);
}

proof fn lemma_cum_scaled(raw: Seq<u32>, c: nat, k: int)
    requires
        0 <= k <= raw.len(),
        cum_at(raw, raw.len() as int) * c <= u32::MAX,
    ensures
        cum_at(raw.map_values(|x: u32| (x * c) as u32), k) == cum_at(raw, k) * c,
    decreases k,
{
    let g = raw.map_values(|x: u32| (x * c) as u32);
    if k > 0 {
        lemma_cum_scaled(raw, c, k - 1);
        lemma_freq_bounded(raw, k - 1);
        assert(raw[k - 1] * c <= cum_at(raw, raw.len() as int) * c) by (nonlinear_arith)
            requires
                raw[k - 1] <= cum_at(raw, raw.len() as int),
        ;
        assert(g[k - 1] == raw[k - 1] * c);
        assert((cum_at(raw, k - 1) + raw[k - 1]) * c == cum_at(raw, k - 1) * c + raw[k - 1] * c)
            by (nonlinear_arith);
    }
}

proof fn lemma_norm_shift_reaches(tot: int, m: int)
    requires
        tot > 0,
    ensures
        tot * pow2(norm_shift(tot, m)) >= m,
    decreases (if 0 < tot < m { m - tot } else { 0 }),
{
    if tot < m {
        lemma_norm_shift_reaches(2 * tot, m);
        let k = norm_shift(2 * tot, m);
        lemma_pow2_unfold(k + 1);
        assert(2 * tot * pow2(k) == tot * (2 * pow2(k))) by (nonlinear_arith);
    } else {
        lemma2_to64();
    }
}

/// A normalized table sums to exactly `m`, unless all of its frequencies
/// are zero, and it is a table for `m`.
pub proof fn lemma_normalized_total(raw: Seq<u32>, m: int)
    requires
        raw.len() == 256,
        0 < m <= u32::MAX,
        normalized(raw, m) is Some,
    ensures
        is_table(normalized(raw, m)->Some_0, m),
        cum_at(normalized(raw, m)->Some_0, 256) == m,
{
    let tot = cum_at(raw, 256);
    let k = norm_shift(tot, m);
    lemma_cum_monotone(raw, 0, 256);
    lemma_pow2_pos(k);
    lemma_cum_scaled(raw, pow2(k), 256);
    if tot > 0 {
        lemma_norm_shift_reaches(tot, m);
        assert(tot * pow2(k) > 0) by (nonlinear_arith)
            requires
                tot > 0,
                pow2(k) > 0,
        ;
    }
}

/// The cumulative table of a normalized frequency table starts at 0, never
/// decreases, and ends at the normalization total `1 << bits`. Every slot
/// below that total lies in the range
/// `[cum[s], cum[s + 1])` of the symbol `s` that lookup returns.
pub proof fn lemma_cumulative_table(raw: Seq<u32>, bits: nat)
    requires
        raw.len() == 256,
        bits <= 15,
        normalized(raw, pow2(bits) as int) is Some,
    ensures
        ({
            let f = normalized(raw, pow2(bits) as int)->Some_0;
            &&& cum_at(f, 0) == 0
            &&& forall|i: int, j: int| 0 <= i <= j <= 256 ==> #[trigger] cum_at(f, i) <= #[trigger] cum_at(f, j)
            &&& cum_at(f, 256) == pow2(bits)
            &&& forall|slot: int|
                0 <= slot < cum_at(f, 256) ==> {
                    let s = #[trigger] find_symbol(f, slot, 0);
                    &&& 0 <= s <= 255
                    &&& cum_at(f, s) <= slot < cum_at(f, s + 1)
                }
        }),
{
    let m = pow2(bits) as int;
    lemma2_to64();
    if bits < 15 {
        vstd::arithmetic::power2::lemma_pow2_strictly_increases(bits, 15);
    }
    lemma_normalized_total(raw, m);
    let f = normalized(raw, m)->Some_0;
    assert forall|i: int, j: int| 0 <= i <= j <= 256 implies #[trigger] cum_at(f, i) <= #[trigger] cum_at(
        f,
        j,
    ) by {
        lemma_cum_monotone(f, i, j);
    }
    assert forall|slot: int| 0 <= slot < cum_at(f, 256) implies {
        let s = #[trigger] find_symbol(f, slot, 0);
        &&& 0 <= s <= 255
        &&& cum_at(f, s) <= slot < cum_at(f, s + 1)
    } by {
        lemma_find_symbol_bounds(f, slot, 0);
    }
}

proof fn lemma_find_symbol_bounds(f: Seq<u32>, slot: int, s: int)
    requires
        f.len() == 256,
        0 <= s <= 255,
        cum_at(f, s) <= slot < cum_at(f, 256),
    ensures
        s <= find_symbol(f, slot, s) <= 255,
        cum_at(f, find_symbol(f, slot, s)) <= slot < cum_at(f, find_symbol(f, slot, s) + 1),
    decreases 255 - s,
{
    if !(s >= 255 || slot < cum_at(f, s + 1)) {
        lemma_find_symbol_bounds(f, slot, s + 1);
    }
}

/// Sums a frequency table into its cumulative table.
pub fn cumulative_freqs(f: &Vec<u32>) -> (cum: Vec<u32>)
    requires
        f@.len() == 256,
        cum_at(f@, 256) <= u32::MAX,
    ensures
        is_cumulative(f@, cum@),
{
    let mut cum: Vec<u32> = Vec::new();
    cum.push(0);
    let mut acc: u32 = 0;
    let mut i: usize = 0;
    while i < 256
        invariant
            f@.len() == 256,
            cum_at(f@, 256) <= u32::MAX,
            i <= 256,
            cum@.len() == i + 1,
            acc == cum_at(f@, i as int),
            forall|k: int| 0 <= k <= i ==> #[trigger] cum@[k] == cum_at(f@, k),
        decreases 256 - i,
    {
        proof {
            lemma_cum_monotone(f@, i + 1, 256);
        }
        acc = acc + f[i];
        cum.push(acc);
        i += 1;
    }
    cum
}

/// Scales `f` in place as `normalized` says, for the total `1 << bits`;
/// false when the table is malformed.
pub fn normalize_frequencies(f: &mut Vec<u32>, bits: u32) -> (ok: bool)
    requires
        old(f)@.len() == 256,
        bits <= 15,
    ensures
        ok <==> normalized(old(f)@, pow2(bits as nat) as int) is Some,
        ok ==> normalized(old(f)@, pow2(bits as nat) as int) == Some(final(f)@),
{
    proof {
        lemma2_to64();
        lemma_u32_pow2_no_overflow(bits as nat);
        lemma_u32_shl_is_mul(1, bits);
        if bits < 15 {
            vstd::arithmetic::power2::lemma_pow2_strictly_increases(bits as nat, 15);
        }
    }
    let m: u64 = (1u32 << bits) as u64;
    let ghost raw = f@;
    let mut tot: u64 = 0;
    let mut i: usize = 0;
    while i < 256
        invariant
            f@ == raw,
            raw.len() == 256,
            i <= 256,
            tot == cum_at(raw, i as int),
            tot <= i * 0xffff_ffff,
        decreases 256 - i,
    {
        tot = tot + f[i] as u64;
        i += 1;
    }
    if tot == 0 {
        return false;
    }
    let mut t: u64 = tot;
    let mut shift: u32 = 0;
    if t > 0 {
        while t < m
            invariant
                0 < t,
                m == pow2(bits as nat),
                m <= 0x8000,
                bits <= 15,
                shift <= bits,
                t == tot * pow2(shift as nat),
                norm_shift(t as int, m as int) + shift == norm_shift(tot as int, m as int),
            decreases bits - shift,
        {
            proof {
                lemma_pow2_unfold((shift + 1) as nat);
                assert(tot * (2 * pow2(shift as nat)) == 2 * (tot * pow2(shift as nat)))
                    by (nonlinear_arith);
                if shift >= bits {
                    assert(pow2(shift as nat) >= pow2(bits as nat)) by {
                        if shift > bits {
                            vstd::arithmetic::power2::lemma_pow2_strictly_increases(
                                bits as nat,
                                shift as nat,
                            );
                        }
                    }
                    assert(tot * pow2(shift as nat) >= pow2(shift as nat)) by (nonlinear_arith)
                        requires
                            tot >= 1,
                    ;
                }
            }
            t = t * 2;
            shift += 1;
        }
    }
    proof {
        lemma_pow2_pos(shift as nat);
    }
    if t > m {
        return false;
    }
    let ghost c = pow2(shift as nat);
    let mut i: usize = 0;
    while i < 256
        invariant
            raw.len() == 256,
            f@.len() == 256,
            i <= 256,
            shift <= 15,
            c == pow2(shift as nat),
            tot == cum_at(raw, 256),
            tot * c <= 0x8000,
            forall|k: int| 0 <= k < i ==> #[trigger] f@[k] == (raw[k] * c) as u32,
            forall|k: int| i <= k < 256 ==> #[trigger] f@[k] == raw[k],
        decreases 256 - i,
    {
        let x = f[i];
        proof {
            lemma_freq_bounded(raw, i as int);
            assert(x * c <= tot * c) by (nonlinear_arith)
                requires
                    x <= tot,
            ;
            lemma_u32_shl_is_mul(x, shift);
        }
        f.set(i, x << shift);
        i += 1;
    }
    assert(f@ =~= raw.map_values(|x: u32| (x * c) as u32));
    true
}

/// Reads one frequency per present symbol and normalizes the table to the
/// total `1 << bits`.
pub open spec fn freqs_from(a: Seq<bool>, i: int, raw: Seq<u32>, src: Seq<u8>) -> Parsed<Seq<u32>>
    decreases 256 - i,
{
    if i >= 256 {
        Ok((raw, src))
    } else if a[i] {
        match varint(src) {
            Ok((v, rest)) => freqs_from(a, i + 1, raw.push(v), rest),
            Err(e) => Err(e),
        }
    } else {
        freqs_from(a, i + 1, raw.push(0), src)
    }
}

/// An order-0 frequency table: an alphabet, then a frequency for each of
/// its symbols, normalized to `1 << bits`.
pub open spec fn freq_table(src: Seq<u8>, bits: nat) -> Parsed<Seq<u32>> {
    match alphabet(src) {
        Err(e) => Err(e),
        Ok((a, s1)) => match freqs_from(a, 0, Seq::empty(), s1) {
            Err(e) => Err(e),
            Ok((raw, s2)) => match normalized(raw, pow2(bits) as int) {
                None => Err(DecodeError::InvalidData),
                Some(f) => Ok((f, s2)),
            },
        },
    }
}

/// Reads an order-0 frequency table and returns it with its cumulative table.
pub fn read_freq_table(src: &mut &[u8], bits: u32) -> (r: Result<(Vec<u32>, Vec<u32>), DecodeError>)
    requires
        bits <= 15,
    ensures
        match freq_table(old(src)@, bits as nat) {
            Ok((f, after)) => r is Ok && r->Ok_0.0@ == f && is_cumulative(f, r->Ok_0.1@)
                && is_table(f, pow2(bits as nat) as int) && final(src)@ == after,
            Err(e) => r == Err::<(Vec<u32>, Vec<u32>), DecodeError>(e),
        },
{
    let a = read_alphabet(src)?;
    let mut f: Vec<u32> = Vec::new();
    let mut i: usize = 0;
    while i < 256
        invariant
            i <= 256,
            a@.len() == 256,
            alphabet(old(src)@) is Ok,
            a@ == alphabet(old(src)@)->Ok_0.0,
            f@.len() == i,
            freqs_from(a@, i as int, f@, src@) == freqs_from(a@, 0, Seq::empty(), alphabet(
                old(src)@,
            )->Ok_0.1),
        decreases 256 - i,
    {
        if a[i] {
            let v = next_uint7(src)?;
            f.push(v);
        } else {
            f.push(0);
        }
        i += 1;
    }
    let ghost raw = f@;
    if !normalize_frequencies(&mut f, bits) {
        return Err(DecodeError::InvalidData);
    }
    proof {
        lemma2_to64();
        lemma_u32_pow2_no_overflow(bits as nat);
        lemma_normalized_total(raw, pow2(bits as nat) as int);
    }
    let cum = cumulative_freqs(&f);
    Ok((f, cum))
}

// ---------------------------------------------------------------------------
// rANS lanes

/// The low `bits` bits of a lane state: its slot in the cumulative table.
pub fn rans_get_cumulative_freq_nx16(r: u32, bits: u32) -> (f: u32)
    requires
        bits < 32,
    ensures
        f == r as int % pow2(bits as nat) as int,
{
    proof {
        lemma_u32_pow2_no_overflow(bits as nat);
        lemma_u32_shl_is_mul(1, bits);
        lemma_u32_low_bits_mask_is_mod(r, bits as nat);
    }
    r & ((1 << bits) - 1)
}

/// The scan over a cumulative table from symbol `s`: it moves on while
/// `slot >= cum[s + 1]`, and stops at 255.
pub open spec fn scan_symbol(cum: Seq<u32>, slot: int, s: int) -> int
    decreases 255 - s,
{
    if s >= 255 || slot < cum[s + 1] {
        s
    } else {
        scan_symbol(cum, slot, s + 1)
    }
}

/// On the cumulative table of `f`, the scan finds `find_symbol`.
proof fn lemma_scan_symbol(f: Seq<u32>, cum: Seq<u32>, slot: int, s: int)
    requires
        is_cumulative(f, cum),
        0 <= s <= 255,
    ensures
        scan_symbol(cum, slot, s) == find_symbol(f, slot, s),
    decreases 255 - s,
{
    if s < 255 {
        assert(cum[s + 1] == cum_at(f, s + 1));
        lemma_scan_symbol(f, cum, slot, s + 1);
    }
}

/// The symbol whose cumulative range holds `freq`: the scan from symbol 0.
pub fn rans_get_symbol_from_freq(cumulative_freqs: &[u32], freq: u32) -> (sym: u8)
    requires
        cumulative_freqs@.len() >= 256,
    ensures
        sym == scan_symbol(cumulative_freqs@, freq as int, 0),
{
    let mut sym: u8 = 0;
    while sym < 255 && freq >= cumulative_freqs[(sym + 1) as usize]
        invariant
            cumulative_freqs@.len() >= 256,
            scan_symbol(cumulative_freqs@, freq as int, sym as int) == scan_symbol(
                cumulative_freqs@,
                freq as int,
                0,
            ),
        decreases 255 - sym,
    {
        sym += 1;
    }
    sym
}

/// The rANS inverse step: `f * (r >> bits) + (r & mask) - c`.
pub fn rans_advance_step_nx16(r: u32, c: u32, f: u32, bits: u32) -> (x: u32)
    requires
        bits < 32,
        f <= pow2(bits as nat),
        c <= r as int % pow2(bits as nat) as int,
    ensures
        x == f * (r as int / pow2(bits as nat) as int) + r as int % pow2(bits as nat) as int - c,
{
    let ghost m = pow2(bits as nat) as int;
    proof {
        lemma_u32_pow2_no_overflow(bits as nat);
        lemma_u32_shl_is_mul(1, bits);
        lemma_u32_low_bits_mask_is_mod(r, bits as nat);
        lemma_u32_shr_is_div(r, bits);
        lemma_fundamental_div_mod(r as int, m);
        assert(f * (r as int / m) <= m * (r as int / m)) by (nonlinear_arith)
            requires
                f <= m,
                r as int / m >= 0,
        ;
        assert(m * (r as int / m) == (r as int / m) * m) by (nonlinear_arith);
    }
    f * (r >> bits) + (r & ((1 << bits) - 1)) - c
}

/// Refills a lane state that fell below `1 << 15` with a little-endian
/// 16-bit word.
pub fn rans_renorm_nx16(reader: &mut &[u8], r: u32) -> (res: Result<u32, DecodeError>)
    ensures
        r >= 0x8000 ==> res == Ok::<u32, DecodeError>(r) && final(reader)@ == old(reader)@,
        r < 0x8000 ==> match old(reader)@.len() >= 2 {
            true => res == Ok::<u32, DecodeError>((r * 0x10000 + le16(old(reader)@)) as u32)
                && final(reader)@ == old(reader)@.skip(2),
            false => res == Err::<u32, DecodeError>(DecodeError::UnexpectedEof),
        },
{
    if r < 0x8000 {
        match read_u16_le(reader) {
            Some(w) => {
                assert(r << 16 == r * 0x10000) by (bit_vector)
                    requires
                        r < 0x8000,
                ;
                Ok((r << 16) + w as u32)
            },
            None => Err(DecodeError::UnexpectedEof),
        }
    } else {
        Ok(r)
    }
}

/// One symbol from a lane: look up the slot, advance the state and
/// renormalize it. Returns the symbol and the new state. A table whose total
/// is not `1 << bits` (a context the order-1 tables leave empty) is
/// malformed.
pub open spec fn lane_step(f: Seq<u32>, bits: nat, r: u32, src: Seq<u8>) -> Parsed<(u8, u32)> {
    let m = pow2(bits) as int;
    let slot = r as int % m;
    let s = find_symbol(f, slot, 0);
    let x = f[s] * (r as int / m) + slot - cum_at(f, s);
    if cum_at(f, 256) != m {
        Err(DecodeError::InvalidData)
    } else if x < 0x8000 {
        if src.len() < 2 {
            Err(DecodeError::UnexpectedEof)
        } else {
            Ok(((s as u8, (x * 0x10000 + le16(src)) as u32), src.skip(2)))
        }
    } else {
        Ok(((s as u8, x as u32), src))
    }
}

proof fn lemma_find_symbol(f: Seq<u32>, slot: int, s: int)
    requires
        f.len() == 256,
        0 <= s <= 255,
        cum_at(f, s) <= slot,
    ensures
        s <= find_symbol(f, slot, s) <= 255,
        cum_at(f, find_symbol(f, slot, s)) <= slot,
    decreases 255 - s,
{
    if !(s >= 255 || slot < cum_at(f, s + 1)) {
        lemma_find_symbol(f, slot, s + 1);
    }
}

/// Decodes one symbol from lane state `r`.
pub fn decode_symbol(src: &mut &[u8], f: &Vec<u32>, cum: &Vec<u32>, bits: u32, r: u32) -> (res:
    Result<(u8, u32), DecodeError>)
    requires
        bits <= 15,
        is_table(f@, pow2(bits as nat) as int),
        is_cumulative(f@, cum@),
    ensures
        reads(res, final(src)@, lane_step(f@, bits as nat, r, old(src)@)),
{
    let ghost m = pow2(bits as nat) as int;
    proof {
        lemma_u32_pow2_no_overflow(bits as nat);
        lemma_u32_shl_is_mul(1, bits);
        assert(cum@[256] == cum_at(f@, 256));
    }
    if cum[256] != (1u32 << bits) {
        return Err(DecodeError::InvalidData);
    }
    let slot = rans_get_cumulative_freq_nx16(r, bits);
    let sym = rans_get_symbol_from_freq(cum.as_slice(), slot);
    let s = sym as usize;
    proof {
        lemma_scan_symbol(f@, cum@, slot as int, 0);
        lemma_find_symbol(f@, slot as int, 0);
        lemma_freq_bounded(f@, s as int);
        lemma_cum_monotone(f@, s as int, 256);
        assert(cum@[s as int] == cum_at(f@, s as int));
    }
    let x = rans_advance_step_nx16(r, cum[s], f[s], bits);
    let r2 = rans_renorm_nx16(src, x)?;
    Ok((sym, r2))
}

/// `n` little-endian 32-bit lane states.
pub open spec fn lane_states(src: Seq<u8>, n: nat) -> Parsed<Seq<u32>> {
    if src.len() < 4 * n {
        Err(DecodeError::UnexpectedEof)
    } else {
        Ok((Seq::new(n, |j: int| le32(src.subrange(4 * j, 4 * j + 4)) as u32), src.skip(4 * n as int)))
    }
}

pub fn read_lane_states(src: &mut &[u8], n: usize) -> (r: Result<Vec<u32>, DecodeError>)
    ensures
        match lane_states(old(src)@, n as nat) {
            Ok((v, after)) => r is Ok && r->Ok_0@ == v && final(src)@ == after,
            Err(e) => r == Err::<Vec<u32>, DecodeError>(e),
        },
{
    let ghost s0 = src@;
    let mut states: Vec<u32> = Vec::new();
    let mut j: usize = 0;
    while j < n
        invariant
            j <= n,
            s0 == old(src)@,
            s0.len() >= 4 * j,
            src@ == s0.skip(4 * j),
            states@ == Seq::new(j as nat, |k: int| le32(s0.subrange(4 * k, 4 * k + 4)) as u32),
        decreases n - j,
    {
        match read_u32_le(src) {
            Some(v) => {
                assert(s0.subrange(4 * j, 4 * j + 4) =~= s0.skip(4 * j).take(4));
                states.push(v);
                assert(src@ =~= s0.skip(4 * (j + 1)));
            },
            None => {
                assert(s0.len() < 4 * n);
                return Err(DecodeError::UnexpectedEof);
            },
        }
        j += 1;
    }
    assert(states@ =~= Seq::new(n as nat, |k: int| le32(s0.subrange(4 * k, 4 * k + 4)) as u32));
    Ok(states)
}

} // verus!
