//! Arithmetic facts about shifts and divisions shared by the codec modules.
use vstd::prelude::*;
use vstd::arithmetic::power2::{pow2, lemma_pow2_pos};

verus! {

/// Division rounding toward zero, which is what Rust's `/` computes on signed integers.
pub open spec fn trunc_div(a: int, b: int) -> int {
    if a >= 0 {
        if b > 0 { a / b } else { -(a / (-b)) }
    } else {
        if b > 0 { -((-a) / b) } else { (-a) / (-b) }
    }
}

/// An arithmetic right shift of an `i64` is a division by a power of two rounded toward minus infinity.
pub proof fn lemma_i64_shr_floor(x: i64, b: u64)
    requires
        b < 63,
    ensures
        (x >> b) as int == (x as int) / (pow2(b as nat) as int),
{
    lemma_pow2_pos(b as nat);
    if x >= 0 {
        assert(x >> b == ((x as u64) >> b) as i64) by (bit_vector)
            requires
                x >= 0,
                b < 63,
        ;
        vstd::bits::lemma_u64_shr_is_div(x as u64, b);
    } else {
        let y: i64 = !x;
        assert(y == -x - 1) by (bit_vector)
            requires
                y == !x,
        ;
        assert(x >> b == !(y >> b)) by (bit_vector)
            requires
                y == !x,
                b < 63,
        ;
        assert(y >> b == ((y as u64) >> b) as i64) by (bit_vector)
            requires
                y >= 0,
                b < 63,
        ;
        vstd::bits::lemma_u64_shr_is_div(y as u64, b);
        let d = pow2(b as nat) as int;
        let q = (y as int) / d;
        assert(!(y >> b) == -(y >> b) - 1) by (bit_vector);
        vstd::arithmetic::div_mod::lemma_fundamental_div_mod(y as int, d);
        vstd::arithmetic::div_mod::lemma_mod_bound(y as int, d);
        let r = (y as int) % d;
        assert((x as int) == (-q - 1) * d + (d - r - 1)) by (nonlinear_arith)
            requires
                x as int == -(y as int) - 1,
                y as int == d * q + r,
        ;
        vstd::arithmetic::div_mod::lemma_div_multiples_vanish_fancy(-q - 1, d - r - 1, d);
    }
}

/// The same fact for an `i32` shifted right.
pub proof fn lemma_i32_shr_floor(x: i32, b: u32)
    requires
        b < 32,
    ensures
        (x >> b) as int == (x as int) / (pow2(b as nat) as int),
{
    assert((x >> b) as i64 == (x as i64) >> (b as u64)) by (bit_vector)
        requires
            b < 32,
    ;
    lemma_i64_shr_floor(x as i64, b as u64);
}

/// `1 << b` is `pow2(b)` for a shift that stays within a `u64`.
pub proof fn lemma_u64_shl_pow2(b: u64)
    requires
        b < 64,
    ensures
        (1u64 << b) as int == pow2(b as nat),
{
    vstd::bits::lemma_u64_pow2_no_overflow(b as nat);
    vstd::bits::lemma_u64_shl_is_mul(1u64, b);
}

/// `1 << b` is `pow2(b)` for a shift that stays within a `u32`.
pub proof fn lemma_u32_shl_pow2(b: u32)
    requires
        b < 32,
    ensures
        (1u32 << b) as int == pow2(b as nat),
{
    vstd::bits::lemma_u32_pow2_no_overflow(b as nat);
    vstd::bits::lemma_u32_shl_is_mul(1u32, b);
}

/// `1 << b` is `pow2(b)` for a shift that stays within an `i64`.
pub proof fn lemma_i64_shl_pow2(b: u64)
    requires
        b < 63,
    ensures
        (1i64 << b) as int == pow2(b as nat),
{
    assert((1i64 << b) as u64 == 1u64 << b) by (bit_vector)
        requires
            b < 63,
    ;
    assert((1i64 << b) >= 0) by (bit_vector)
        requires
            b < 63,
    ;
    lemma_u64_shl_pow2(b);
}

} // verus!
