//! BCF record components: typed values as written in the INFO fields.

use vstd::prelude::*;

verus! {

/// The type byte of a single typed value: the count 1 in the high nibble,
/// the type code in the low one (1: int8, 2: int16, 3: int32).
pub open spec fn type_byte(code: u8) -> u8 {
    (0x10 + code) as u8
}

/// Byte `k` (little-endian) of `n` as a `bits`-bit two's-complement value.
pub open spec fn le_byte(n: int, bits: nat, k: nat) -> u8 {
    ((n % vstd::arithmetic::power2::pow2(bits) as int) / vstd::arithmetic::power2::pow2(8 * k) as int
        % 256) as u8
}

/// An INFO integer as a typed value in the narrowest of int8, int16 and
/// int32 that holds it.
pub open spec fn typed_int(n: i32) -> Seq<u8> {
    if -128 <= n <= 127 {
        seq![type_byte(1), le_byte(n as int, 8, 0)]
    } else if -32768 <= n <= 32767 {
        seq![type_byte(2), le_byte(n as int, 16, 0), le_byte(n as int, 16, 1)]
    } else {
        seq![
            type_byte(3),
            le_byte(n as int, 32, 0),
            le_byte(n as int, 32, 1),
            le_byte(n as int, 32, 2),
            le_byte(n as int, 32, 3),
        ]
    }
}

/// Writes an INFO integer value.
pub fn write_info_field_integer_value(dst: &mut Vec<u8>, n: i32)
    ensures
        final(dst)@ == old(dst)@ + typed_int(n),
{
    proof {
        vstd::arithmetic::power2::lemma2_to64();
        assert(vstd::arithmetic::power2::pow2(8 * 0) == 1);
        assert(vstd::arithmetic::power2::pow2(8 * 1) == 256);
        assert(vstd::arithmetic::power2::pow2(8 * 2) == 65536);
        assert(vstd::arithmetic::power2::pow2(8 * 3) == 16777216);
    }
    if -128 <= n && n <= 127 {
        let u: u8 = if n < 0 {
            (n + 256) as u8
        } else {
            n as u8
        };
        assert(n as int % 256 == u as int);
        assert(le_byte(n as int, 8, 0) == u);
        dst.push(0x11);
        dst.push(u);
    } else if -32768 <= n && n <= 32767 {
        let u: u32 = if n < 0 {
            (n + 65536) as u32
        } else {
            n as u32
        };
        assert(n as int % 65536 == u);
        assert((n as int % 65536) / 1 % 256 == u % 256);
        assert(le_byte(n as int, 16, 0) == u % 256);
        assert(le_byte(n as int, 16, 1) == u / 256 % 256);
        dst.push(0x12);
        dst.push((u % 256) as u8);
        dst.push((u / 256) as u8);
    } else {
        let u: u64 = if n < 0 {
            (n as i64 + 0x1_0000_0000) as u64
        } else {
            n as u64
        };
        assert(n as int % 0x1_0000_0000 == u);
        assert(le_byte(n as int, 32, 0) == u % 256);
        assert(le_byte(n as int, 32, 1) == u / 256 % 256);
        assert(le_byte(n as int, 32, 2) == u / 65536 % 256);
        assert(le_byte(n as int, 32, 3) == u / 16777216 % 256);
        dst.push(0x13);
        dst.push((u % 256) as u8);
        dst.push((u / 256 % 256) as u8);
        dst.push((u / 65536 % 256) as u8);
        dst.push((u / 16777216) as u8);
    }
    assert(dst@ =~= old(dst)@ + typed_int(n));
}

} // verus!
