//! Undoing the RLE transform: a flagged symbol stands for a run whose extra
//! length is read from the RLE meta.

use vstd::prelude::*;

use crate::cursor::{uint7, read_uint7, uint7_bytes, lemma_uint7_round_trip};
use super::DecodeError;

verus! {

/// RLE expansion of the rest of `src` after `out`: a symbol flagged in `l`
/// is repeated one time more than the next base-128 integer of `meta`, any
/// other symbol is copied once. The output must come to `len` exactly.
pub open spec fn unrle_from(src: Seq<u8>, l: Seq<bool>, meta: Seq<u8>, out: Seq<u8>, len: nat) -> Result<Seq<u8>, DecodeError>
    decreases src.len(),
{
    if src.len() == 0 {
        if out.len() == len {
            Ok(out)
        } else {
            Err(DecodeError::InvalidData)
        }
    } else {
        let s = src[0];
        if l[s as int] {
            match uint7(meta) {
                None => Err(DecodeError::UnexpectedEof),
                Some((run, rest)) => if out.len() + run + 1 > len {
                    Err(DecodeError::InvalidData)
                } else {
                    unrle_from(src.skip(1), l, rest, out + Seq::new((run + 1) as nat, |k: int| s), len)
                },
            }
        } else if out.len() + 1 > len {
            Err(DecodeError::InvalidData)
        } else {
            unrle_from(src.skip(1), l, meta, out.push(s), len)
        }
    }
}

pub open spec fn unrle(src: Seq<u8>, l: Seq<bool>, meta: Seq<u8>, len: nat) -> Result<Seq<u8>, DecodeError> {
    unrle_from(src, l, meta, Seq::empty(), len)
}

/// A successful run expansion yields exactly the declared length.
pub proof fn lemma_unrle_length(src: Seq<u8>, l: Seq<bool>, meta: Seq<u8>, len: nat)
    ensures
        unrle(src, l, meta, len) matches Ok(out) ==> out.len() == len,
{
    lemma_unrle_from_length(src, l, meta, Seq::empty(), len);
}

proof fn lemma_unrle_from_length(src: Seq<u8>, l: Seq<bool>, meta: Seq<u8>, out: Seq<u8>, len: nat)
    ensures
        unrle_from(src, l, meta, out, len) matches Ok(v) ==> v.len() == len,
    decreases src.len(),
{
    if src.len() > 0 {
        let s = src[0];
        if l[s as int] {
            if let Some((run, rest)) = uint7(meta) {
                lemma_unrle_from_length(src.skip(1), l, rest, out + Seq::new((run + 1) as nat, |k: int| s), len);
            }
        } else {
            lemma_unrle_from_length(src.skip(1), l, meta, out.push(s), len);
        }
    }
}

/// Symbols that are not flagged are never run-expanded: when none of `src`
/// is flagged, expansion copies `src` unchanged (it must already have the
/// declared length) and reads no run length.
pub proof fn lemma_unrle_unflagged(src: Seq<u8>, l: Seq<bool>, meta: Seq<u8>, len: nat)
    requires
        forall|i: int| 0 <= i < src.len() ==> !l[#[trigger] src[i] as int],
    ensures
        unrle(src, l, meta, len) == if src.len() == len {
            Ok::<Seq<u8>, DecodeError>(src)
        } else {
            Err::<Seq<u8>, DecodeError>(DecodeError::InvalidData)
        },
{
    lemma_unrle_from_unflagged(src, l, meta, Seq::empty(), len);
    assert(Seq::<u8>::empty() + src =~= src);
}

proof fn lemma_unrle_from_unflagged(src: Seq<u8>, l: Seq<bool>, meta: Seq<u8>, out: Seq<u8>, len: nat)
    requires
        forall|i: int| 0 <= i < src.len() ==> !l[#[trigger] src[i] as int],
    ensures
        unrle_from(src, l, meta, out, len) == if out.len() + src.len() == len {
            Ok::<Seq<u8>, DecodeError>(out + src)
        } else {
            Err::<Seq<u8>, DecodeError>(DecodeError::InvalidData)
        },
    decreases src.len(),
{
    if src.len() == 0 {
        assert(out + src =~= out);
    } else {
        let s = src[0];
        assert(!l[src[0] as int]);
        assert forall|i: int| 0 <= i < src.skip(1).len() implies !l[#[trigger] src.skip(1)[i] as int] by {
            assert(src.skip(1)[i] == src[i + 1]);
        }
        lemma_unrle_from_unflagged(src.skip(1), l, meta, out.push(s), len);
        assert(out.push(s) + src.skip(1) =~= out + src);
    }
}

/// The symbols an RLE encoder writes for `runs`, one per run.
pub open spec fn run_symbols(runs: Seq<(u8, u32)>) -> Seq<u8> {
    Seq::new(runs.len(), |i: int| runs[i].0)
}

/// The run lengths an RLE encoder writes for `runs`: the extra length of
/// each run of a flagged symbol, as a base-128 integer.
pub open spec fn run_lengths(runs: Seq<(u8, u32)>, l: Seq<bool>) -> Seq<u8>
    decreases runs.len(),
{
    if runs.len() == 0 {
        Seq::empty()
    } else {
        (if l[runs[0].0 as int] {
            uint7_bytes(runs[0].1 as nat)
        } else {
            Seq::empty()
        }) + run_lengths(runs.skip(1), l)
    }
}

/// The bytes that `runs` stand for: each symbol repeated one time more than
/// its extra length.
pub open spec fn run_bytes(runs: Seq<(u8, u32)>) -> Seq<u8>
    decreases runs.len(),
{
    if runs.len() == 0 {
        Seq::empty()
    } else {
        Seq::new((runs[0].1 + 1) as nat, |k: int| runs[0].0) + run_bytes(runs.skip(1))
    }
}

/// Run expansion inverts RLE: for runs in which only flagged symbols repeat,
/// expanding the encoded symbols with the encoded run lengths (and anything
/// after them) gives back exactly the bytes the runs stand for.
pub proof fn lemma_unrle_of_runs(runs: Seq<(u8, u32)>, l: Seq<bool>, more: Seq<u8>)
    requires
        l.len() == 256,
        forall|i: int| 0 <= i < runs.len() && !l[runs[i].0 as int] ==> #[trigger] runs[i].1 == 0,
    ensures
        unrle(run_symbols(runs), l, run_lengths(runs, l) + more, run_bytes(runs).len())
            == Ok::<Seq<u8>, DecodeError>(run_bytes(runs)),
{
    lemma_unrle_from_runs(runs, l, more, Seq::empty(), run_bytes(runs).len());
    assert(Seq::<u8>::empty() + run_bytes(runs) =~= run_bytes(runs));
}

proof fn lemma_unrle_from_runs(runs: Seq<(u8, u32)>, l: Seq<bool>, more: Seq<u8>, out: Seq<u8>, len: nat)
    requires
        l.len() == 256,
        forall|i: int| 0 <= i < runs.len() && !l[runs[i].0 as int] ==> #[trigger] runs[i].1 == 0,
        out.len() + run_bytes(runs).len() == len,
    ensures
        unrle_from(run_symbols(runs), l, run_lengths(runs, l) + more, out, len) == Ok::<
            Seq<u8>,
            DecodeError,
        >(out + run_bytes(runs)),
    decreases runs.len(),
{
    if runs.len() == 0 {
        assert(run_symbols(runs) =~= Seq::<u8>::empty());
        assert(out + run_bytes(runs) =~= out);
    } else {
        let (s, c) = runs[0];
        let tail = runs.skip(1);
        assert forall|i: int| 0 <= i < tail.len() && !l[tail[i].0 as int] implies #[trigger] tail[i].1
            == 0 by {
            assert(tail[i] == runs[i + 1]);
        }
        assert(run_symbols(runs).skip(1) =~= run_symbols(tail));
        assert(run_symbols(runs)[0] == s);
        let run = Seq::new((c + 1) as nat, |k: int| s);
        lemma_unrle_from_runs(tail, l, more, out + run, len);
        assert(out + run + run_bytes(tail) =~= out + run_bytes(runs));
        if l[s as int] {
            assert(run_lengths(runs, l) + more =~= uint7_bytes(c as nat) + (run_lengths(tail, l)
                + more));
            lemma_uint7_round_trip(c, run_lengths(tail, l) + more);
        } else {
            assert(c == runs[0].1);
            assert(run_lengths(runs, l) + more =~= run_lengths(tail, l) + more);
            assert(out.push(s) =~= out + run);
        }
    }
}

/// Expands runs; `meta` holds the run lengths.
pub fn decode(src: &[u8], l: &Vec<bool>, meta: &mut &[u8], len: usize) -> (r: Result<Vec<u8>, DecodeError>)
    requires
        l@.len() == 256,
    ensures
        match unrle(src@, l@, old(meta)@, len as nat) {
            Ok(v) => r is Ok && r->Ok_0@ == v,
            Err(e) => r == Err::<Vec<u8>, DecodeError>(e),
        },
{
    let mut out: Vec<u8> = Vec::new();
    let mut idx: usize = 0;
    assert(src@.skip(0) =~= src@);
    while idx < src.len()
        invariant
            l@.len() == 256,
            idx <= src@.len(),
            out@.len() <= len,
            unrle_from(src@.skip(idx as int), l@, meta@, out@, len as nat) == unrle(
                src@,
                l@,
                old(meta)@,
                len as nat,
            ),
        decreases src@.len() - idx,
    {
        let s = src[idx];
        let ghost out0 = out@;
        assert(src@.skip(idx as int).skip(1) =~= src@.skip(idx + 1));
        if l[s as usize] {
            let run = match read_uint7(meta) {
                Some(run) => run as usize,
                None => return Err(DecodeError::UnexpectedEof),
            };
            if run >= len - out.len() {
                return Err(DecodeError::InvalidData);
            }
            let mut k: usize = 0;
            while k <= run
                invariant
                    k <= run + 1,
                    run < len - out0.len(),
                    out@ == out0 + Seq::new(k as nat, |t: int| s),
                decreases run + 1 - k,
            {
                out.push(s);
                k += 1;
                assert(out@ =~= out0 + Seq::new(k as nat, |t: int| s));
            }
        } else {
            if out.len() >= len {
                return Err(DecodeError::InvalidData);
            }
            out.push(s);
        }
        idx += 1;
    }
    if out.len() != len {
        return Err(DecodeError::InvalidData);
    }
    Ok(out)
}

} // verus!
