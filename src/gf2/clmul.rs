//! Carry-less multiplication of machine words, split into a low and a high half.
use crate::poly::{
    clmul, lemma_clmul_bound, lemma_clmul_distrib_right, lemma_clmul_one, lemma_clmul_pow2,
    lemma_low_bits_next, lemma_pxor_div_pow2, lemma_pxor_mod_pow2, lemma_pxor_zero,
};
use crate::word::{lemma_bit_u128, lemma_word_mod, lemma_shl_u128, lemma_xor_is_pxor, word_mod};
use vstd::arithmetic::div_mod::*;
use vstd::arithmetic::power2::*;
use vstd::bits::*;
use vstd::prelude::*;

verus! {

/// Words that can be multiplied as binary polynomials. The full product of two
/// `W`-bit words has `2W` bits: `clmul_low` gives the lower `W` of them and
/// `clmul_high` the upper `W`.
pub trait CarryLessMultiply: Sized {
    /// The polynomial that a word stands for.
    spec fn as_poly(&self) -> nat;

    /// The number of bits of a word.
    spec fn width() -> nat;

    fn clmul_low(&self, rhs: Self) -> (r: Self)
        ensures
            r.as_poly() == clmul(self.as_poly(), rhs.as_poly()) % pow2(Self::width()),
    ;

    fn clmul_high(&self, rhs: Self) -> (r: Self)
        ensures
            r.as_poly() == clmul(self.as_poly(), rhs.as_poly()) / pow2(Self::width()),
    ;
}

/// The product with the low `i + 1` bits of `b`, from the product with its low `i` bits.
proof fn lemma_clmul_low_bits_next(a: nat, b: nat, i: nat)
    ensures
        clmul(a, b % pow2(i + 1)) == crate::poly::pxor(
            clmul(a, b % pow2(i)),
            if (b / pow2(i)) % 2 == 1 { a * pow2(i) } else { 0 },
        ),
{
    lemma_low_bits_next(b, i);
    let sel: nat = if (b / pow2(i)) % 2 == 1 { pow2(i) } else { 0 };
    lemma_clmul_distrib_right(a, b % pow2(i), sel);
    lemma_clmul_pow2(a, i);
    lemma_clmul_one(a);
}

/// Lower 128 bits of the carry-less product of two `u128`.
fn clmul_low_u128(a: u128, b: u128) -> (r: u128)
    ensures
        r as nat == clmul(a as nat, b as nat) % word_mod(),
{
    let mut output: u128 = 0;
    let mut i: u32 = 0;
    proof {
        lemma2_to64();
        lemma_pow2_pos(128);
        lemma_clmul_one(a as nat);
        assert(b as nat % 1 == 0);
        lemma_small_mod(0, word_mod());
    }
    while i < 128
        invariant
            i <= 128,
            output as nat == clmul(a as nat, b as nat % pow2(i as nat)) % word_mod(),
        decreases 128 - i,
    {
        proof {
            lemma_bit_u128(b, i);
            lemma_shl_u128(a, i);
            lemma_clmul_low_bits_next(a as nat, b as nat, i as nat);
            let x = clmul(a as nat, b as nat % pow2(i as nat));
            let s: nat = if (b as nat / pow2(i as nat)) % 2 == 1 {
                a as nat * pow2(i as nat)
            } else {
                0
            };
            lemma_pxor_mod_pow2(x, s, 128);
            lemma_xor_is_pxor(output, a << i);
            lemma_pxor_zero(output as nat);
            lemma_pow2_pos(128);
        }
        if (b >> i) & 1 == 1 {
            output = output ^ (a << i);
        }
        i = i + 1;
    }
    proof {
        lemma_word_mod();
        lemma_small_mod(b as nat, pow2(128));
    }
    output
}

/// Upper 128 bits of the carry-less product of two `u128`.
fn clmul_high_u128(a: u128, b: u128) -> (r: u128)
    ensures
        r as nat == clmul(a as nat, b as nat) / word_mod(),
{
    let mut output: u128 = 0;
    let mut i: u32 = 1;
    proof {
        lemma2_to64();
        lemma_pow2_pos(128);
        lemma_clmul_one(a as nat);
        lemma_word_mod();
        lemma_basic_div(a as int, word_mod() as int);
        lemma_basic_div(0, word_mod() as int);
    }
    while i < 128
        invariant
            1 <= i <= 128,
            output as nat == clmul(a as nat, b as nat % pow2(i as nat)) / word_mod(),
        decreases 128 - i,
    {
        proof {
            lemma_bit_u128(b, i);
            lemma_clmul_low_bits_next(a as nat, b as nat, i as nat);
            let x = clmul(a as nat, b as nat % pow2(i as nat));
            let s: nat = if (b as nat / pow2(i as nat)) % 2 == 1 {
                a as nat * pow2(i as nat)
            } else {
                0
            };
            lemma_pxor_div_pow2(x, s, 128);
            lemma_u128_shr_is_div(a, (128 - i) as u128);
            lemma_shifted_down(a as nat, i as nat);
            lemma_xor_is_pxor(output, a >> ((128 - i) as u32));
            assert(a >> ((128 - i) as u32) == a >> ((128 - i) as u128)) by (bit_vector)
                requires
                    1 <= i <= 127,
            ;
            lemma_pxor_zero(output as nat);
            lemma_pow2_pos(128);
            lemma_basic_div(0, word_mod() as int);
        }
        if (b >> i) & 1 == 1 {
            output = output ^ (a >> (128 - i));
        }
        i = i + 1;
    }
    proof {
        lemma_word_mod();
        lemma_small_mod(b as nat, pow2(128));
    }
    output
}

/// The bits of `a * 2^i` above bit 128 are `a` shifted right by `128 - i`.
proof fn lemma_shifted_down(a: nat, i: nat)
    requires
        1 <= i <= 127,
    ensures
        (a * pow2(i)) / word_mod() == a / pow2((128 - i) as nat),
{
    let j = (128 - i) as nat;
    lemma_pow2_adds(j, i);
    assert(j + i == 128);
    lemma_pow2_pos(i);
    lemma_pow2_pos(j);
    lemma_div_multiples_vanish_quotient(pow2(i) as int, a as int, pow2(j) as int);
    assert(pow2(i) * a == a * pow2(i)) by (nonlinear_arith);
    assert(pow2(i) * pow2(j) == pow2(j) * pow2(i)) by (nonlinear_arith);
}

/// For words of at most 64 bits the whole product fits in a `u128`.
proof fn lemma_narrow_product(a: nat, b: nat, w: nat)
    requires
        w <= 64,
        a < pow2(w),
        b < pow2(w),
    ensures
        clmul(a, b) % word_mod() == clmul(a, b),
        clmul(a, b) < pow2(w) * pow2(w),
{
    lemma_clmul_bound(a, b, w, w);
    lemma_pow2_adds(w, w);
    if w + w < 128 {
        lemma_pow2_strictly_increases(w + w, 128);
    }
    lemma_small_mod(clmul(a, b), word_mod());
}

impl CarryLessMultiply for u128 {
    open spec fn as_poly(&self) -> nat {
        *self as nat
    }

    open spec fn width() -> nat {
        128
    }

    fn clmul_low(&self, rhs: u128) -> (r: u128) {
        let out = clmul_low_u128(*self, rhs);
        proof {
            assert(word_mod() == pow2(128));
            assert(self.as_poly() == *self as nat);
            assert(rhs.as_poly() == rhs as nat);
            assert(out.as_poly() == out as nat);
            assert(<u128 as CarryLessMultiply>::width() == 128);
        }
        out
    }

    fn clmul_high(&self, rhs: u128) -> (r: u128) {
        let out = clmul_high_u128(*self, rhs);
        proof {
            assert(word_mod() == pow2(128));
            assert(self.as_poly() == *self as nat);
            assert(rhs.as_poly() == rhs as nat);
            assert(out.as_poly() == out as nat);
            assert(<u128 as CarryLessMultiply>::width() == 128);
        }
        out
    }
}

impl CarryLessMultiply for u8 {
    open spec fn as_poly(&self) -> nat {
        *self as nat
    }

    open spec fn width() -> nat {
        8
    }

    fn clmul_low(&self, rhs: u8) -> (r: u8) {
        let full = clmul_low_u128(*self as u128, rhs as u128);
        proof {
            lemma2_to64();
            lemma_narrow_product(*self as nat, rhs as nat, 8);
            assert(full as u8 == full % 0x100u128) by (bit_vector);
        }
        full as u8
    }

    fn clmul_high(&self, rhs: u8) -> (r: u8) {
        let full = clmul_low_u128(*self as u128, rhs as u128);
        proof {
            lemma2_to64();
            lemma_narrow_product(*self as nat, rhs as nat, 8);
            assert(full < 0x1_0000u128 ==> (full >> 8u32) as u8 == full / 0x100u128) by (bit_vector);
        }
        (full >> 8) as u8
    }
}

impl CarryLessMultiply for u16 {
    open spec fn as_poly(&self) -> nat {
        *self as nat
    }

    open spec fn width() -> nat {
        16
    }

    fn clmul_low(&self, rhs: u16) -> (r: u16) {
        let full = clmul_low_u128(*self as u128, rhs as u128);
        proof {
            lemma2_to64();
            lemma_narrow_product(*self as nat, rhs as nat, 16);
            assert(full as u16 == full % 0x1_0000u128) by (bit_vector);
        }
        full as u16
    }

    fn clmul_high(&self, rhs: u16) -> (r: u16) {
        let full = clmul_low_u128(*self as u128, rhs as u128);
        proof {
            lemma2_to64();
            lemma_narrow_product(*self as nat, rhs as nat, 16);
            assert(full < 0x1_0000_0000u128 ==> (full >> 16u32) as u16 == full / 0x1_0000u128) by (bit_vector);
        }
        (full >> 16) as u16
    }
}

impl CarryLessMultiply for u32 {
    open spec fn as_poly(&self) -> nat {
        *self as nat
    }

    open spec fn width() -> nat {
        32
    }

    fn clmul_low(&self, rhs: u32) -> (r: u32) {
        let full = clmul_low_u128(*self as u128, rhs as u128);
        proof {
            lemma2_to64();
            lemma_narrow_product(*self as nat, rhs as nat, 32);
            assert(full as u32 == full % 0x1_0000_0000u128) by (bit_vector);
        }
        full as u32
    }

    fn clmul_high(&self, rhs: u32) -> (r: u32) {
        let full = clmul_low_u128(*self as u128, rhs as u128);
        proof {
            lemma2_to64();
            lemma_narrow_product(*self as nat, rhs as nat, 32);
            assert(full < 0x1_0000_0000_0000_0000u128 ==> (full >> 32u32) as u32 == full / 0x1_0000_0000u128) by (bit_vector);
        }
        (full >> 32) as u32
    }
}

impl CarryLessMultiply for u64 {
    open spec fn as_poly(&self) -> nat {
        *self as nat
    }

    open spec fn width() -> nat {
        64
    }

    fn clmul_low(&self, rhs: u64) -> (r: u64) {
        let full = clmul_low_u128(*self as u128, rhs as u128);
        proof {
            lemma2_to64();
            lemma_narrow_product(*self as nat, rhs as nat, 64);
            assert(full as u64 == full % 0x1_0000_0000_0000_0000u128) by (bit_vector);
        }
        full as u64
    }

    fn clmul_high(&self, rhs: u64) -> (r: u64) {
        let full = clmul_low_u128(*self as u128, rhs as u128);
        proof {
            lemma2_to64();
            lemma_narrow_product(*self as nat, rhs as nat, 64);
            assert((full >> 64u32) as u64 == full / 0x1_0000_0000_0000_0000u128) by (bit_vector);
        }
        (full >> 64) as u64
    }
}

} // verus!
