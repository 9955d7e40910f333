//! Division of binary polynomials, by the shift-register long division.
use crate::calc_degree;
use crate::poly::{
    degree, lead, lemma_degree_bounds, lemma_div_by_one, lemma_pdiv_bound, lemma_pdiv_pmod,
    lemma_pdiv_unfold, lemma_pmod_bound, lemma_shift_down_bound, lemma_pmod_unfold, clmul, pdiv, pmod, pxor,
};
use crate::word::{lemma_bit_u128, lemma_shl_u128, lemma_word_mod, lemma_xor_is_pxor, word_mod};
use crate::wide::{lemma_wide_bound, WideInt};
use crate::FieldError;
use vstd::arithmetic::div_mod::*;
use vstd::arithmetic::power2::*;
use vstd::prelude::*;

verus! {

/// `2^degree(p)` as a machine word.
fn leading_term(p: u128) -> (r: u128)
    requires
        p > 0,
    ensures
        r as nat == lead(p as nat),
        r <= p,
        0 <= degree(p as nat) <= 127,
{
    let d = calc_degree(p);
    proof {
        lemma_degree_bounds(p as nat);
        lemma_shl_u128(1, d as u32);
        lemma_word_mod();
        lemma_small_mod(pow2(d as nat), word_mod());
    }
    1u128 << (d as u32)
}

/// Advances the long division of `a` by `p` by one bit: from the quotient and
/// remainder of `a / 2^(i+1)` to those of `a / 2^i`.
pub proof fn lemma_division_step(a: nat, p: nat, i: nat)
    requires
        p > 0,
    ensures
        ({
            let x = a / pow2(i);
            let t = 2 * pmod(a / pow2(i + 1), p) + x % 2;
            &&& x / 2 == a / pow2(i + 1)
            &&& pmod(x, p) == if t >= lead(p) { pxor(t as nat, p) } else { t as nat }
            &&& pdiv(x, p) == 2 * pdiv(a / pow2(i + 1), p) + if t >= lead(p) { 1int } else { 0int }
        }),
{
    lemma_pow2_pos(i);
    lemma_pow2_unfold(i + 1);
    lemma_div_denominator(a as int, pow2(i) as int, 2);
    lemma_pmod_unfold(a / pow2(i), p);
    lemma_pdiv_unfold(a / pow2(i), p);
}

/// Euclidean division of binary polynomials: `dividend == quotient * divisor + remainder`
/// with the remainder of lower degree than the divisor. A zero divisor is refused.
pub fn poly_div(dividend: u128, divisor: u128) -> (r: Result<(u128, u128), FieldError>)
    ensures
        divisor == 0 <==> r is Err,
        r is Err ==> r == Err::<(u128, u128), FieldError>(FieldError::DivisorZero),
        r is Ok ==> ({
            let (q, rem) = r->Ok_0;
            &&& q as nat == pdiv(dividend as nat, divisor as nat)
            &&& rem as nat == pmod(dividend as nat, divisor as nat)
            &&& dividend as nat == pxor(clmul(divisor as nat, q as nat), rem as nat)
            &&& degree(rem as nat) < degree(divisor as nat)
        }),
{
    if divisor == 0 {
        return Err(FieldError::DivisorZero);
    }
    proof {
        lemma_pdiv_pmod(dividend as nat, divisor as nat);
        lemma_pmod_bound(dividend as nat, divisor as nat);
        lemma_remainder_degree(dividend as nat, divisor as nat);
    }
    if divisor == 1 {
        proof {
            lemma_div_by_one(dividend as nat);
        }
        return Ok((dividend, 0));
    }
    let lead_term = leading_term(divisor);
    let top = calc_degree(dividend);
    let mut i: u32 = (top + 1) as u32;
    let mut quotient: u128 = 0;
    let mut remainder: u128 = 0;
    proof {
        lemma_word_mod();
        lemma_degree_bounds(divisor as nat);
        lemma_top_quotient_zero(dividend as nat, i as nat);
        lemma_pow2_pos((128 - i) as nat);
        lemma2_to64();
    }
    while i > 0
        invariant
            divisor > 1,
            i <= 128,
            lead_term as nat == lead(divisor as nat),
            lead_term <= divisor,
            remainder as nat == pmod(dividend as nat / pow2(i as nat), divisor as nat),
            quotient as nat == pdiv(dividend as nat / pow2(i as nat), divisor as nat),
            (quotient as nat) < pow2((128 - i) as nat),
            0 <= degree(divisor as nat) <= 127,
        decreases i,
    {
        i = i - 1;
        let bit = (dividend >> i) & 1;
        proof {
            lemma_bit_u128(dividend, i);
            lemma_division_step(dividend as nat, divisor as nat, i as nat);
            lemma_pmod_bound(dividend as nat / pow2((i + 1) as nat), divisor as nat);
            lemma_degree_bounds(divisor as nat);
            assert(remainder < 0x8000_0000_0000_0000_0000_0000_0000_0000u128) by {
                lemma2_to64();
                lemma2_to64_rest();
                lemma_pow2_adds(64, 63);
                if degree(divisor as nat) < 127 {
                    lemma_pow2_strictly_increases(degree(divisor as nat) as nat, 127);
                }
            }
            assert(bit <= 1 && remainder < 0x8000_0000_0000_0000_0000_0000_0000_0000u128 ==> ((
            remainder << 1u32) | bit) == 2 * remainder + bit) by (bit_vector);
            lemma_word_mod();
            assert(i as nat + (128 - i) as nat == 128);
            assert((dividend as nat) < pow2(128));
            lemma_shift_down_bound(dividend as nat, i as nat, (128 - i) as nat);
            lemma_pdiv_bound(dividend as nat / pow2(i as nat), divisor as nat, (128 - i) as nat);
            lemma_quotient_fits(quotient, i);
        }
        let t = (remainder << 1) | bit;
        if t >= lead_term {
            proof {
                lemma_xor_is_pxor(t, divisor);
            }
            remainder = t ^ divisor;
            quotient = (quotient << 1) | 1;
        } else {
            remainder = t;
            quotient = quotient << 1;
        }
    }
    proof {
        lemma2_to64();
        assert(dividend as nat / 1 == dividend as nat);
    }
    Ok((quotient, remainder))
}

/// Shifting a quotient that is still short does not lose bits.
proof fn lemma_quotient_fits(q: u128, i: u32)
    requires
        i < 128,
        (q as nat) < pow2((127 - i) as nat),
    ensures
        (q << 1u32) == 2 * q,
        ((q << 1u32) | 1) == 2 * q + 1,
{
    lemma2_to64();
    lemma2_to64_rest();
    lemma_pow2_adds(64, 63);
    if i > 0 {
        lemma_pow2_strictly_increases((127 - i) as nat, 127);
    }
    assert(q < 0x8000_0000_0000_0000_0000_0000_0000_0000u128 ==> (q << 1u32) == 2 * q && ((q
        << 1u32) | 1) == 2 * q + 1) by (bit_vector);
}

/// Above the top bit of `a` nothing remains to divide.
proof fn lemma_top_quotient_zero(a: nat, i: nat)
    requires
        i as int == degree(a) + 1,
    ensures
        a / pow2(i) == 0,
{
    lemma_pow2_pos(i);
    if a > 0 {
        lemma_degree_bounds(a);
    }
    lemma_basic_div(a as int, pow2(i) as int);
}

/// The remainder has a lower degree than a nonzero divisor.
pub proof fn lemma_remainder_degree(a: nat, p: nat)
    requires
        p > 0,
    ensures
        degree(pmod(a, p)) < degree(p),
{
    let r = pmod(a, p);
    lemma_pmod_bound(a, p);
    lemma_degree_bounds(p);
    if r > 0 {
        lemma_degree_bounds(r);
        if degree(r) >= degree(p) {
            lemma_pow2_strictly_increases(degree(p) as nat, degree(r) as nat);
        }
    }
}

/// Euclidean division of a 256-bit polynomial by one of at most 128 bits, as in
/// [`poly_div`]; the quotient keeps the double width.
pub fn poly_div_wide(dividend: &WideInt, divisor: u128) -> (r: Result<(WideInt, u128), FieldError>)
    ensures
        divisor == 0 <==> r is Err,
        r is Err ==> r == Err::<(WideInt, u128), FieldError>(FieldError::DivisorZero),
        r is Ok ==> ({
            let (q, rem) = r->Ok_0;
            &&& q.view_nat() == pdiv(dividend.view_nat(), divisor as nat)
            &&& rem as nat == pmod(dividend.view_nat(), divisor as nat)
            &&& dividend.view_nat() == pxor(clmul(divisor as nat, q.view_nat()), rem as nat)
            &&& degree(rem as nat) < degree(divisor as nat)
        }),
{
    if divisor == 0 {
        return Err(FieldError::DivisorZero);
    }
    let ghost a = dividend.view_nat();
    proof {
        lemma_pdiv_pmod(a, divisor as nat);
        lemma_remainder_degree(a, divisor as nat);
    }
    let lead_term = leading_term(divisor);
    let top = dividend.degree();
    let mut i: u32 = (top + 1) as u32;
    let mut quotient = WideInt::new(0, 0);
    let mut remainder: u128 = 0;
    proof {
        lemma_word_mod();
        lemma_top_quotient_zero(a, i as nat);
        lemma_pow2_pos((256 - i) as nat);
        lemma2_to64();
    }
    while i > 0
        invariant
            divisor > 0,
            i <= 256,
            a == dividend.view_nat(),
            lead_term as nat == lead(divisor as nat),
            lead_term <= divisor,
            remainder as nat == pmod(a / pow2(i as nat), divisor as nat),
            quotient.view_nat() == pdiv(a / pow2(i as nat), divisor as nat),
            quotient.view_nat() < pow2((256 - i) as nat),
            0 <= degree(divisor as nat) <= 127,
        decreases i,
    {
        i = i - 1;
        let bit = dividend.bit(i);
        proof {
            lemma_division_step(a, divisor as nat, i as nat);
            lemma_pmod_bound(a / pow2((i + 1) as nat), divisor as nat);
            lemma_degree_bounds(divisor as nat);
            lemma_register_fits(remainder, bit, divisor);
            lemma_wide_bound(*dividend);
            assert(i as nat + (256 - i) as nat == 256);
            lemma_shift_down_bound(a, i as nat, (256 - i) as nat);
            lemma_pdiv_bound(a / pow2(i as nat), divisor as nat, (256 - i) as nat);
            lemma_pow2_adds((255 - i) as nat, (i as nat));
            lemma_pow2_pos(i as nat);
            if i > 0 {
                lemma_pow2_strictly_increases((255 - i) as nat, 255);
            }
        }
        let t = (remainder << 1) | bit;
        if t >= lead_term {
            proof {
                lemma_xor_is_pxor(t, divisor);
            }
            remainder = t ^ divisor;
            quotient = quotient.push_bit(1);
        } else {
            remainder = t;
            quotient = quotient.push_bit(0);
        }
    }
    proof {
        lemma2_to64();
        assert(a / 1 == a);
    }
    Ok((quotient, remainder))
}

/// The remainder register has room for one more bit.
proof fn lemma_register_fits(remainder: u128, bit: u128, divisor: u128)
    requires
        divisor > 0,
        degree(divisor as nat) <= 127,
        (remainder as nat) < lead(divisor as nat),
        bit <= 1,
    ensures
        ((remainder << 1u32) | bit) == 2 * remainder + bit,
{
    lemma2_to64();
    lemma2_to64_rest();
    lemma_pow2_adds(64, 63);
    if degree(divisor as nat) < 127 {
        lemma_degree_bounds(divisor as nat);
        lemma_pow2_strictly_increases(degree(divisor as nat) as nat, 127);
    }
    assert(bit <= 1 && remainder < 0x8000_0000_0000_0000_0000_0000_0000_0000u128 ==> ((remainder
        << 1u32) | bit) == 2 * remainder + bit) by (bit_vector);
}

} // verus!
