//! Facts that tie the machine operations on `u128` to the polynomial model.
use crate::poly::{lemma_eq_by_bits, lemma_pxor_split, pxor};
use vstd::arithmetic::div_mod::*;
use vstd::arithmetic::power2::*;
use vstd::bits::*;
use vstd::prelude::*;

verus! {

/// `2^128`, the modulus of `u128` arithmetic.
pub open spec fn word_mod() -> nat {
    pow2(128)
}

/// Every `u128` is below `2^128`.
pub proof fn lemma_word_mod()
    ensures
        word_mod() == u128::MAX as nat + 1,
{
    lemma2_to64();
    lemma2_to64_rest();
    lemma_pow2_adds(64, 64);
}

/// Exclusive or on `u128` is the sum of polynomials.
pub proof fn lemma_xor_is_pxor(x: u128, y: u128)
    ensures
        (x ^ y) as nat == pxor(x as nat, y as nat),
    decreases x,
{
    if x == 0 {
        assert(0u128 ^ y == y) by (bit_vector);
    } else if y == 0 {
        assert(x ^ 0u128 == x) by (bit_vector);
    } else {
        lemma_xor_is_pxor(x / 2, y / 2);
        assert((x ^ y) / 2 == (x / 2) ^ (y / 2)) by (bit_vector);
        assert((x ^ y) % 2 == (x % 2 + y % 2) % 2) by (bit_vector);
        lemma_pxor_split(x as nat, y as nat);
        lemma_eq_by_bits((x ^ y) as nat, pxor(x as nat, y as nat));
    }
}

/// Bit `i` of `x`.
pub proof fn lemma_bit_u128(x: u128, i: u32)
    requires
        i < 128,
    ensures
        ((x >> i) & 1 == 1) == ((x as nat / pow2(i as nat)) % 2 == 1),
        (x >> i) & 1 == (x as nat / pow2(i as nat)) % 2,
{
    lemma_u128_shr_is_div(x, i as u128);
    let s = x >> i;
    assert(s & 1 == s % 2) by (bit_vector);
    assert(x >> i == x >> (i as u128)) by (bit_vector)
        requires
            i < 128,
    ;
}

/// A left shift on `u128` multiplies by a power of two and wraps around.
pub proof fn lemma_shl_u128(x: u128, i: u32)
    requires
        i < 128,
    ensures
        (x << i) as nat == (x as nat * pow2(i as nat)) % word_mod(),
    decreases i,
{
    lemma2_to64();
    lemma2_to64_rest();
    lemma_pow2_adds(64, 64);
    assert(word_mod() == u128::MAX as nat + 1);
    if i == 0 {
        assert(x << 0u32 == x) by (bit_vector);
        lemma_small_mod(x as nat, word_mod());
    } else {
        let j = (i - 1) as u32;
        lemma_shl_u128(x, j);
        let y = x << j;
        assert(x << i == y << 1u32) by (bit_vector)
            requires
                y == x << j,
                j + 1 == i,
                i < 128,
        ;
        assert((y << 1u32) as nat == if y <= 0x7fff_ffff_ffff_ffff_ffff_ffff_ffff_ffffu128 {
            2 * y
        } else {
            2 * y - 0xffff_ffff_ffff_ffff_ffff_ffff_ffff_ffffu128 - 1
        }) by (bit_vector);
        let m1 = word_mod() as int;
        if y <= 0x7fff_ffff_ffff_ffff_ffff_ffff_ffff_ffffu128 {
            lemma_small_mod((2 * y) as nat, word_mod());
        } else {
            lemma_fundamental_div_mod_converse(2 * y, m1, 1, 2 * y - m1);
        }
        lemma_pow2_unfold(i as nat);
        let m = word_mod() as int;
        let v = x as nat * pow2(j as nat);
        lemma_mul_mod_noop_right(2, v as int, m);
        assert(x as nat * pow2(i as nat) == 2 * v) by (nonlinear_arith)
            requires
                pow2(i as nat) == 2 * pow2(j as nat),
                v == x as nat * pow2(j as nat),
        ;
    }
}

} // verus!
