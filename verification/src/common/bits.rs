//! Bit fields of 8- and 16-bit integers, and numbers as big-endian bytes.

use vstd::arithmetic::power2::{lemma2_to64, lemma_pow2_strictly_increases, pow2};
use vstd::bits::{
    lemma_u16_shl_is_mul, lemma_u16_shr_is_div, lemma_u32_shl_is_mul, lemma_u8_shr_is_div,
};
use vstd::prelude::*;

verus! {

/// The `n` most significant bits of an 8-bit value, as a number.
pub open spec fn top_bits8(num: u8, n: nat) -> nat
    recommends
        n <= 8,
{
    num as nat / pow2((8 - n) as nat)
}

/// The `n` least significant bits of an 8-bit value, as a number.
pub open spec fn low_bits8(num: u8, n: nat) -> nat {
    num as nat % pow2(n)
}

/// The `n` most significant bits of a 16-bit value, as a number.
pub open spec fn top_bits16(num: u16, n: nat) -> nat
    recommends
        n <= 16,
{
    num as nat / pow2((16 - n) as nat)
}

/// The `n` least significant bits of a 16-bit value, as a number.
pub open spec fn low_bits16(num: u16, n: nat) -> nat {
    num as nat % pow2(n)
}

/// Returns the `n` most significant bits of `num`, moved down to the low end.
pub fn bits_msb(num: u8, n: u8) -> (r: u8)
    requires
        n <= 8,
    ensures
        r == top_bits8(num, n as nat),
{
    proof {
        lemma2_to64();
    }
    if n == 0 {
        assert(num as nat / 256 == 0);
        0
    } else {
        let shift: u8 = 8 - n;
        let r: u8 = num >> shift;
        proof {
            lemma_u8_shr_is_div(num, shift);
            assert(r == num as nat / pow2(shift as nat));
        }
        r
    }
}

/// Returns the `n` least significant bits of `num`.
pub fn bits_lsb(num: u8, n: u8) -> (r: u8)
    requires
        n <= 8,
    ensures
        r == low_bits8(num, n as nat),
{
    proof {
        lemma2_to64();
    }
    if n == 0 {
        0
    } else {
        let shift: u8 = 8 - n;
        let left_shift: u8 = num << shift;
        let right_shift: u8 = left_shift >> shift;
        proof {
            let wide: u16 = num as u16;
            let modulus: u16 = 1u16 << (n as u16);
            assert(((num << shift) >> shift) as u16 == wide % modulus) by (bit_vector)
                requires
                    1 <= n <= 8,
                    shift == 8 - n,
                    wide == num as u16,
                    modulus == 1u16 << (n as u16),
            ;
            lemma_pow2_strictly_increases(n as nat, 9);
            lemma_u16_shl_is_mul(1u16, n as u16);
        }
        right_shift
    }
}

/// Returns the `n` most significant bits of `num`, moved down to the low end.
pub fn bits16_msb(num: u16, n: u16) -> (r: u16)
    requires
        n <= 16,
    ensures
        r == top_bits16(num, n as nat),
{
    proof {
        lemma2_to64();
    }
    if n == 0 {
        assert(num as nat / 65536 == 0);
        0
    } else {
        let shift: u16 = 16 - n;
        let r: u16 = num >> shift;
        proof {
            lemma_u16_shr_is_div(num, shift);
            assert(r == num as nat / pow2(shift as nat));
        }
        r
    }
}

/// Returns the `n` least significant bits of `num`.
pub fn bits16_lsb(num: u16, n: u16) -> (r: u16)
    requires
        n <= 16,
    ensures
        r == low_bits16(num, n as nat),
{
    proof {
        lemma2_to64();
    }
    if n == 0 {
        0
    } else {
        let shift: u16 = 16 - n;
        let left_shift: u16 = num << shift;
        let right_shift: u16 = left_shift >> shift;
        proof {
            let wide: u32 = num as u32;
            let modulus: u32 = 1u32 << (n as u32);
            assert(((num << shift) >> shift) as u32 == wide % modulus) by (bit_vector)
                requires
                    1 <= n <= 16,
                    shift == 16 - n,
                    wide == num as u32,
                    modulus == 1u32 << (n as u32),
            ;
            lemma_pow2_strictly_increases(n as nat, 17);
            lemma_u32_shl_is_mul(1u32, n as u32);
        }
        right_shift
    }
}

/// Shifts `n` one place to the left, dropping its top bit, and puts
/// `bit_to_push` into the freed lowest place.
pub fn push_bits(n: &mut u16, bit_to_push: u8)
    requires
        bit_to_push <= 1,
    ensures
        *final(n) as int == (*old(n) as int * 2) % 0x1_0000 + bit_to_push as int,
{
    let before: u16 = *n;
    assert((before << 1u16) as int == (before as int * 2) % 0x1_0000) by (bit_vector);
    *n = *n << 1;
    if bit_to_push != 0 {
        let shifted: u16 = *n;
        assert(shifted < 0xffffu16) by (bit_vector)
            requires
                shifted == before << 1u16,
        ;
        *n = *n + 0b1;
    }
}

/// The two bytes of a 16-bit value, most significant first.
pub open spec fn be16(v: u16) -> Seq<u8> {
    seq![(v / 256) as u8, (v % 256) as u8]
}

/// The 16-bit value whose bytes, most significant first, are `hi` and `lo`.
pub open spec fn be16_value(hi: u8, lo: u8) -> u16 {
    (hi as int * 256 + lo as int) as u16
}

/// The four bytes of a 32-bit value, most significant first.
pub open spec fn be32(v: u32) -> Seq<u8> {
    seq![
        (v / 0x100_0000) as u8,
        (v / 0x1_0000 % 256) as u8,
        (v / 0x100 % 256) as u8,
        (v % 256) as u8,
    ]
}

/// The 32-bit value whose bytes, most significant first, are `b0` to `b3`.
pub open spec fn be32_value(b0: u8, b1: u8, b2: u8, b3: u8) -> u32 {
    (b0 as int * 0x100_0000 + b1 as int * 0x1_0000 + b2 as int * 0x100 + b3 as int) as u32
}

/// Splits a 16-bit value into its big-endian bytes.
pub fn u16_to_be_bytes(v: u16) -> (r: [u8; 2])
    ensures
        r@ == be16(v),
{
    let r: [u8; 2] = [(v / 256) as u8, (v % 256) as u8];
    assert(r@ =~= be16(v));
    r
}

/// Reads a 16-bit value from its big-endian bytes.
pub fn u16_from_be_bytes(bytes: [u8; 2]) -> (r: u16)
    ensures
        r == be16_value(bytes[0], bytes[1]),
{
    (bytes[0] as u16) * 256 + (bytes[1] as u16)
}

/// Splits a 32-bit value into its big-endian bytes.
pub fn u32_to_be_bytes(v: u32) -> (r: [u8; 4])
    ensures
        r@ == be32(v),
{
    let r: [u8; 4] = [
        (v / 0x100_0000) as u8,
        (v / 0x1_0000 % 256) as u8,
        (v / 0x100 % 256) as u8,
        (v % 256) as u8,
    ];
    assert(r@ =~= be32(v));
    r
}

/// Reads a 32-bit value from its big-endian bytes.
pub fn u32_from_be_bytes(bytes: [u8; 4]) -> (r: u32)
    ensures
        r == be32_value(bytes[0], bytes[1], bytes[2], bytes[3]),
{
    let high = (bytes[0] as u32) * 0x100_0000 + (bytes[1] as u32) * 0x1_0000;
    let low = (bytes[2] as u32) * 0x100 + (bytes[3] as u32);
    high + low
}

/// Reading back the bytes of a 16-bit value gives the value.
pub proof fn lemma_be16_round_trip(v: u16)
    ensures
        be16(v).len() == 2,
        be16_value(be16(v)[0], be16(v)[1]) == v,
{
}

/// Reading back the bytes of a 32-bit value gives the value.
pub proof fn lemma_be32_round_trip(v: u32)
    ensures
        be32(v).len() == 4,
        be32_value(be32(v)[0], be32(v)[1], be32(v)[2], be32(v)[3]) == v,
{
}

} // verus!
