//! Undoing the PACK transform: small alphabets stored as fixed-width codes,
//! several to a byte, low bits first.

use vstd::prelude::*;
use vstd::arithmetic::power2::{pow2, lemma2_to64};
use vstd::arithmetic::div_mod::lemma_fundamental_div_mod;
use vstd::bits::{
    lemma_u32_shl_is_mul, lemma_u32_shr_is_div, lemma_u32_low_bits_mask_is_mod,
    lemma_u32_pow2_no_overflow, low_bits_mask,
};

use super::DecodeError;

verus! {

/// Bits per code for an alphabet of `n_sym` symbols (at most 16): none for
/// one symbol, then 1, 2 or 4.
pub open spec fn pack_width(n_sym: nat) -> nat {
    if n_sym <= 1 {
        0
    } else if n_sym <= 2 {
        1
    } else if n_sym <= 4 {
        2
    } else {
        4
    }
}

/// The code of symbol `i`: the `w`-bit field `i % (8 / w)` of byte
/// `i / (8 / w)`, counting fields from the low bits.
pub open spec fn pack_code(src: Seq<u8>, i: int, w: nat) -> int {
    let per = 8int / (w as int);
    (src[i / per] as int / pow2(((i % per) * w) as nat) as int) % pow2(w) as int
}

/// The number of bytes that hold `len` codes of `w` bits.
pub open spec fn packed_len(len: nat, w: nat) -> nat {
    let per = 8int / (w as int);
    (len as int / per + if len as int % per == 0 { 0int } else { 1int }) as nat
}

/// PACK expansion to `len` symbols through the symbol table `p`. It fails
/// when `p` is empty or over 16 symbols, when `src` is too short, or when a
/// code has no symbol.
pub open spec fn unpack(src: Seq<u8>, p: Seq<u8>, len: nat) -> Result<Seq<u8>, DecodeError> {
    let n_sym = p.len();
    let w = pack_width(n_sym);
    if n_sym == 0 || n_sym > 16 {
        Err(DecodeError::InvalidData)
    } else if n_sym == 1 {
        Ok(Seq::new(len, |i: int| p[0]))
    } else if src.len() < packed_len(len, w) {
        Err(DecodeError::InvalidData)
    } else if exists|i: int| 0 <= i < len && #[trigger] pack_code(src, i, w) >= n_sym {
        Err(DecodeError::InvalidData)
    } else {
        Ok(Seq::new(len, |i: int| p[pack_code(src, i, w)]))
    }
}

/// `b` is an entry of the symbol table `p`.
pub open spec fn in_table(b: u8, p: Seq<u8>) -> bool {
    exists|k: int| 0 <= k < p.len() && b == #[trigger] p[k]
}

/// A successful PACK expansion yields exactly the declared length, and each
/// of its bytes is an entry of the symbol table.
pub proof fn lemma_unpack(src: Seq<u8>, p: Seq<u8>, len: nat)
    ensures
        unpack(src, p, len) matches Ok(out) ==> {
            &&& out.len() == len
            &&& forall|i: int| 0 <= i < len ==> #[trigger] in_table(out[i], p)
        },
{
    if let Ok(out) = unpack(src, p, len) {
        let w = pack_width(p.len());
        assert forall|i: int| 0 <= i < len implies #[trigger] in_table(out[i], p) by {
            if p.len() == 1 {
                assert(out[i] == p[0]);
                assert(0 < p.len() && out[i] == p[0]);
            } else {
                lemma2_to64();
                let per = 8int / (w as int);
                assert(pack_code(src, i, w) < p.len());
                assert(pack_code(src, i, w) >= 0) by {
                    vstd::arithmetic::power2::lemma_pow2_pos(w);
                    vstd::arithmetic::power2::lemma_pow2_pos(((i % per) * w) as nat);
                    vstd::arithmetic::div_mod::lemma_mod_pos_bound(
                        src[i / per] as int / pow2(((i % per) * w) as nat) as int,
                        pow2(w) as int,
                    );
                }
                assert(out[i] == p[pack_code(src, i, w)]);
                let k = pack_code(src, i, w);
                assert(0 <= k < p.len() && out[i] == p[k]);
            }
        }
    }
}

/// Expands bit-packed codes back to one byte per symbol.
pub fn decode(src: &[u8], p: &[u8], len: usize) -> (r: Result<Vec<u8>, DecodeError>)
    ensures
        match unpack(src@, p@, len as nat) {
            Ok(v) => r is Ok && r->Ok_0@ == v,
            Err(e) => r == Err::<Vec<u8>, DecodeError>(e),
        },
{
    let n_sym = p.len();
    if n_sym == 0 || n_sym > 16 {
        return Err(DecodeError::InvalidData);
    }
    let mut dst: Vec<u8> = Vec::new();
    if n_sym == 1 {
        let mut i: usize = 0;
        while i < len
            invariant
                i <= len,
                p@.len() == 1,
                dst@ == Seq::new(i as nat, |k: int| p@[0]),
            decreases len - i,
        {
            dst.push(p[0]);
            i += 1;
        }
        return Ok(dst);
    }
    let w: u32 = if n_sym <= 2 {
        1
    } else if n_sym <= 4 {
        2
    } else {
        4
    };
    let per: usize = (8 / w) as usize;
    proof {
        lemma_fundamental_div_mod(len as int, per as int);
        assert(2 * (len / per) <= len) by (nonlinear_arith)
            requires
                len == per * (len / per) + len % per,
                len % per >= 0,
                per >= 2,
                len / per >= 0,
        ;
    }
    let need: usize = len / per + if len % per == 0 {
        0
    } else {
        1
    };
    if src.len() < need {
        return Err(DecodeError::InvalidData);
    }
    proof {
        lemma2_to64();
        lemma_u32_pow2_no_overflow(w as nat);
        lemma_u32_shl_is_mul(1, w);
        lemma_fundamental_div_mod(len as int, per as int);
    }
    let mask: u32 = (1 << w) - 1;
    let mut i: usize = 0;
    while i < len
        invariant
            i <= len,
            2 <= n_sym <= 16,
            n_sym == p@.len(),
            w == pack_width(n_sym as nat),
            per == 8int / (w as int),
            need == packed_len(len as nat, w as nat),
            src@.len() >= need,
            len == per * (len / per) + len % per,
            mask == pow2(w as nat) - 1,
            dst@.len() == i,
            forall|k: int| 0 <= k < i ==> #[trigger] pack_code(src@, k, w as nat) < n_sym,
            forall|k: int| 0 <= k < i ==> #[trigger] dst@[k] == p@[pack_code(src@, k, w as nat)],
        decreases len - i,
    {
        let q = i / per;
        let sh: u32 = (i % per) as u32 * w;
        proof {
            lemma_fundamental_div_mod(i as int, per as int);
            assert(q < need) by (nonlinear_arith)
                requires
                    i < len,
                    i == per * q + i % per,
                    0 <= i % per < per,
                    len == per * (len / per) + len % per,
                    0 <= len % per < per,
                    need == len / per + if len % per == 0 {
                        0int
                    } else {
                        1int
                    },
            ;
        }
        let b = src[q] as u32;
        proof {
            assert(sh < 8) by (nonlinear_arith)
                requires
                    sh == (i % per) * w,
                    0 <= i % per < per,
                    per * w == 8,
            ;
            lemma_u32_pow2_no_overflow(w as nat);
            lemma_u32_pow2_no_overflow(sh as nat);
            lemma_u32_shr_is_div(b, sh);
            lemma_u32_low_bits_mask_is_mod(b >> sh, w as nat);
            assert(mask == low_bits_mask(w as nat) as u32);
        }
        let code = (b >> sh) & mask;
        assert(code == (b as int / pow2(sh as nat) as int) % pow2(w as nat) as int);
        assert(code == pack_code(src@, i as int, w as nat));
        if code as usize >= n_sym {
            return Err(DecodeError::InvalidData);
        }
        dst.push(p[code as usize]);
        i += 1;
    }
    assert(dst@ =~= Seq::new(len as nat, |k: int| p@[pack_code(src@, k, w as nat)]));
    Ok(dst)
}

} // verus!
