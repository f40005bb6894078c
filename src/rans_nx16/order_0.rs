//! Order-0 decoding: one adaptive frequency table for all symbols.

use vstd::prelude::*;
use vstd::arithmetic::power2::pow2;

use super::model::{
    Parsed, decode_symbol, freq_table, is_cumulative, is_table, lane_states, lane_step,
    read_freq_table, read_lane_states, reads_bytes,
};
use super::DecodeError;

verus! {

/// The symbols after the table and lane states: symbol `i` comes from lane
/// `i % n`, with tables of precision 12 bits.
pub open spec fn o0_run(f: Seq<u32>, states: Seq<u32>, out: Seq<u8>, len: nat, src: Seq<u8>) -> Parsed<Seq<u8>>
    decreases len - out.len(),
{
    if out.len() >= len {
        Ok((out, src))
    } else {
        let j = out.len() % states.len();
        match lane_step(f, 12, states[j as int], src) {
            Ok(((s, r), rest)) => o0_run(f, states.update(j as int, r), out.push(s), len, rest),
            Err(e) => Err(e),
        }
    }
}

/// An order-0 stream of `len` symbols over `n` lanes: the frequency table,
/// the lane states, then the renormalization words.
pub open spec fn order0(src: Seq<u8>, len: nat, n: nat) -> Parsed<Seq<u8>> {
    match freq_table(src, 12) {
        Err(e) => Err(e),
        Ok((f, s1)) => match lane_states(s1, n) {
            Err(e) => Err(e),
            Ok((states, s2)) => o0_run(f, states, Seq::empty(), len, s2),
        },
    }
}

pub fn decode(src: &mut &[u8], len: usize, n: usize) -> (r: Result<Vec<u8>, DecodeError>)
    requires
        n > 0,
    ensures
        reads_bytes(r, final(src)@, order0(old(src)@, len as nat, n as nat)),
{
    let (f, cum) = read_freq_table(src, 12)?;
    let mut states = read_lane_states(src, n)?;
    let mut out: Vec<u8> = Vec::new();
    let mut i: usize = 0;
    while i < len
        invariant
            n > 0,
            i <= len,
            out@.len() == i,
            states@.len() == n,
            is_table(f@, pow2(12) as int),
            is_cumulative(f@, cum@),
            o0_run(f@, states@, out@, len as nat, src@) == order0(old(src)@, len as nat, n as nat),
        decreases len - i,
    {
        let j = i % n;
        let (s, r) = decode_symbol(src, &f, &cum, 12, states[j])?;
        states.set(j, r);
        out.push(s);
        i += 1;
    }
    Ok(out)
}

} // verus!
