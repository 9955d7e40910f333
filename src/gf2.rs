//! The computation backend: products are reduced by polynomial division and
//! inverses come from the extended Euclidean algorithm.
use crate::gf2::clmul::CarryLessMultiply;
use crate::laws::{lemma_associative, lemma_commutative, lemma_identity};
use crate::poly::{
    clmul, divides, fmul, irreducible, lead, lemma_clmul_assoc, lemma_clmul_bound,
    lemma_clmul_comm, lemma_clmul_distrib_right, lemma_clmul_one, lemma_degree_bounds,
    lemma_divides_clmul, lemma_divides_pxor, lemma_divides_trivial, lemma_pmod_bound,
    lemma_pmod_clmul, lemma_pmod_linear, lemma_pmod_small, lemma_pxor_assoc, lemma_pxor_bound,
    lemma_pxor_comm, lemma_pxor_self, lemma_pxor_zero, pmod, pxor,
};
use crate::poly_div::{poly_div, poly_div_wide};
use crate::wide::WideInt;
use crate::word::{lemma_word_mod, lemma_xor_is_pxor, word_mod};
use crate::{calc_degree, FieldElement, FieldError, GaloisField};
use vstd::arithmetic::div_mod::*;
use vstd::arithmetic::power2::*;
use vstd::prelude::*;

pub mod clmul;

verus! {

/// A field GF(2^M) defined by a binary polynomial of degree `M`, computed with
/// carry-less multiplication and polynomial division.
#[derive(Clone, Copy, Debug, PartialEq, Eq, Structural)]
pub struct Gf2 {
    poly: u128,
}

impl Gf2 {
    /// The defining polynomial.
    pub closed spec fn spec_poly(self) -> nat {
        self.poly as nat
    }

    /// The field defined by `poly`. That `poly` is irreducible is not checked:
    /// on a reducible one the operations describe a ring with zero divisors.
    pub fn new(poly: u128) -> (r: Gf2)
        requires
            poly >= 2,
        ensures
            r.spec_poly() == poly,
    {
        Gf2 { poly }
    }

    pub fn poly(&self) -> (r: u128)
        ensures
            r == self.spec_poly(),
    {
        self.poly
    }

    /// The product of two polynomials, reduced modulo the defining polynomial.
    fn mul_values(&self, a: u128, b: u128) -> (r: u128)
        requires
            self.spec_poly() >= 2,
        ensures
            r as nat == fmul(self.spec_poly(), a as nat, b as nat),
            (r as nat) < lead(self.spec_poly()),
    {
        let lo = a.clmul_low(b);
        let hi = a.clmul_high(b);
        let product = WideInt::new(lo, hi);
        proof {
            let c = clmul(a as nat, b as nat);
            lemma_word_mod();
            lemma_clmul_bound(a as nat, b as nat, 128, 128);
            lemma_pow2_adds(128, 128);
            lemma_pow2_pos(128);
            lemma_fundamental_div_mod(c as int, word_mod() as int);
            assert(product.view_nat() == c) by (nonlinear_arith)
                requires
                    product.lower == c % word_mod(),
                    product.upper == c / word_mod(),
                    product.view_nat() == product.lower as nat + product.upper as nat * word_mod(),
                    c == word_mod() * (c / word_mod()) + c % word_mod(),
            ;
            lemma_pmod_bound(c, self.poly as nat);
        }
        let division = poly_div_wide(&product, self.poly);
        match division {
            Ok((_, remainder)) => remainder,
            Err(_) => {
                proof {
                    assert(false);
                }
                0
            },
        }
    }
}

/// Every common divisor of `x` and `y` divides `p`.
spec fn divisors_divide(p: nat, x: nat, y: nat) -> bool {
    forall|g: nat| #[trigger] divides(g, x) && divides(g, y) ==> divides(g, p)
}

/// One Euclidean step, `x = y * q + r`, keeps the common divisors.
proof fn lemma_euclid_step(p: nat, x: nat, y: nat, q: nat, r: nat)
    requires
        divisors_divide(p, x, y),
        x == pxor(clmul(y, q), r),
    ensures
        divisors_divide(p, y, r),
{
    assert forall|g: nat| #[trigger] divides(g, y) && divides(g, r) implies divides(g, p) by {
        lemma_divides_clmul(g, y, q);
        lemma_divides_pxor(g, clmul(y, q), r);
    }
}

/// The first Euclidean step, `p = a * q + r`.
proof fn lemma_euclid_first(p: nat, a: nat, q: nat, r: nat)
    requires
        p == pxor(clmul(a, q), r),
    ensures
        divisors_divide(p, a, r),
{
    assert forall|g: nat| #[trigger] divides(g, a) && divides(g, r) implies divides(g, p) by {
        lemma_divides_clmul(g, a, q);
        lemma_divides_pxor(g, clmul(a, q), r);
    }
}

/// When the remainders run out, the last nonzero one divides `p`; for an
/// irreducible `p` it is `1`.
proof fn lemma_euclid_end(p: nat, x: nat)
    requires
        irreducible(p),
        divisors_divide(p, x, 0),
        0 < x < lead(p),
    ensures
        x == 1,
{
    lemma_divides_trivial(x);
    assert(divides(x, p));
    let k = choose|k: nat| clmul(x, k) == p;
    lemma_clmul_one(x);
    lemma_degree_bounds(p);
}

/// `t * a = r (mod p)` carries over one Euclidean step.
proof fn lemma_bezout_step(p: nat, a: nat, t: nat, nt: nat, x: nat, y: nat, q: nat, r: nat)
    requires
        p >= 2,
        fmul(p, a, t) == pmod(x, p),
        fmul(p, a, nt) == pmod(y, p),
        x == pxor(clmul(y, q), r),
    ensures
        fmul(p, a, pxor(t, fmul(p, q, nt))) == pmod(r, p),
{
    let f = fmul(p, q, nt);
    let c = clmul(y, q);
    lemma_clmul_distrib_right(a, t, f);
    lemma_pmod_linear(clmul(a, t), clmul(a, f), p);
    lemma_clmul_comm(a, f);
    lemma_pmod_clmul(clmul(q, nt), a, p);
    lemma_clmul_assoc(q, nt, a);
    lemma_clmul_comm(q, clmul(nt, a));
    lemma_clmul_comm(nt, a);
    lemma_pmod_clmul(clmul(a, nt), q, p);
    lemma_pmod_clmul(y, q, p);
    lemma_pxor_assoc(c, r, c);
    lemma_pxor_comm(r, c);
    lemma_pxor_assoc(c, c, r);
    lemma_pxor_self(c);
    lemma_pxor_zero(r);
    lemma_pxor_comm(c, r);
    lemma_pmod_linear(x, c, p);
}

impl GaloisField for Gf2 {
    open spec fn field_poly(&self) -> nat {
        self.spec_poly()
    }

    open spec fn wf(&self) -> bool {
        self.spec_poly() >= 2
    }

    fn degree(&self) -> (r: u32) {
        let d = calc_degree(self.poly);
        proof {
            lemma_degree_bounds(self.poly as nat);
            if d == 0 {
                assert(pow2(1) == 2) by {
                    lemma2_to64();
                }
            }
        }
        d as u32
    }

    fn num_elem(&self) -> (r: u128) {
        let d = self.degree();
        proof {
            crate::word::lemma_shl_u128(1, d);
            lemma_word_mod();
            lemma_pow2_strictly_increases(d as nat, 128);
            lemma_small_mod(pow2(d as nat), word_mod());
        }
        1u128 << d
    }

    fn zero(&self) -> (r: FieldElement) {
        FieldElement { value: 0 }
    }

    fn one(&self) -> (r: FieldElement) {
        FieldElement { value: 1 }
    }

    fn validate(&self, a: &FieldElement) -> (r: bool) {
        a.value >= self.num_elem()
    }

    fn add(&self, a: FieldElement, b: FieldElement) -> (r: FieldElement) {
        proof {
            lemma_xor_is_pxor(a.value, b.value);
        }
        FieldElement { value: a.value ^ b.value }
    }

    fn sub(&self, a: FieldElement, b: FieldElement) -> (r: FieldElement) {
        proof {
            lemma_xor_is_pxor(a.value, b.value);
        }
        FieldElement { value: a.value ^ b.value }
    }

    fn mul(&self, a: FieldElement, b: FieldElement) -> (r: FieldElement) {
        FieldElement { value: self.mul_values(a.value, b.value) }
    }

    fn div(&self, a: FieldElement, b: FieldElement) -> (r: Result<FieldElement, FieldError>) {
        let inv = self.inverse(b);
        match inv {
            Ok(t) => {
                let r = self.mul(a, t);
                proof {
                    let p = self.spec_poly();
                    if irreducible(p) {
                        lemma_associative(p, a.value as nat, t.value as nat, b.value as nat);
                        lemma_commutative(p, t.value as nat, b.value as nat);
                        lemma_identity(p, a.value as nat);
                    }
                    assert(irreducible(p) && a.value == b.value ==> r.value == 1);
                    lemma_pmod_bound(clmul(a.value as nat, t.value as nat), p);
                }
                Ok(r)
            },
            Err(e) => Err(e),
        }
    }

    fn inverse(&self, a: FieldElement) -> (r: Result<FieldElement, FieldError>) {
        let ghost p = self.spec_poly();
        if a.value == 0 {
            return Err(FieldError::DivideByZero);
        }
        proof {
            lemma_degree_bounds(p);
            lemma_pow2_pos(crate::poly::degree(p) as nat);
            if crate::poly::degree(p) == 0 {
                assert(pow2(1) == 2) by {
                    lemma2_to64();
                }
            }
            assert(lead(p) >= 2) by {
                if crate::poly::degree(p) >= 1 {
                    lemma_pow2_unfold(crate::poly::degree(p) as nat);
                    lemma_pow2_pos((crate::poly::degree(p) - 1) as nat);
                }
            }
        }
        if a.value == 1 {
            proof {
                lemma_identity(p, 1);
            }
            return Ok(FieldElement { value: 1 });
        }
        let first = poly_div(self.poly, a.value);
        let (quotient, first_remainder) = match first {
            Ok(qr) => qr,
            Err(_) => {
                proof {
                    assert(false);
                }
                return Err(FieldError::DivideByZero);
            },
        };
        let mut remainder: u128 = a.value;
        let mut new_remainder: u128 = first_remainder;
        let mut t: u128 = 1;
        let mut new_t: u128 = self.mul_values(quotient, t);
        proof {
            let a0 = a.value as nat;
            lemma_degree_bounds(a0);
            lemma_pmod_bound(p, a0);
            lemma_euclid_first(p, a0, quotient as nat, first_remainder as nat);
            lemma_identity(p, a0);
            lemma_pmod_small(a0, p);
            assert(fmul(p, a0, 0) == pmod(p, p)) by {
                crate::poly::lemma_pmod_self(p);
                lemma_clmul_one(a0);
            }
            lemma_bezout_step(p, a0, 0, 1, p, a0, quotient as nat, first_remainder as nat);
            
            lemma_pxor_zero(fmul(p, quotient as nat, 1));
            lemma_pmod_small(first_remainder as nat, p);
        }
        while new_remainder != 0
            invariant
                p == self.spec_poly(),
                p >= 2,
                lead(p) >= 2,
                0 < remainder,
                (remainder as nat) < lead(p),
                (new_remainder as nat) < lead(p),
                (t as nat) < lead(p),
                (new_t as nat) < lead(p),
                fmul(p, a.value as nat, t as nat) == pmod(remainder as nat, p),
                fmul(p, a.value as nat, new_t as nat) == pmod(new_remainder as nat, p),
                divisors_divide(p, remainder as nat, new_remainder as nat),
            decreases new_remainder,
        {
            let step = poly_div(remainder, new_remainder);
            let (quotient, next_remainder) = match step {
                Ok(qr) => qr,
                Err(_) => {
                    proof {
                        assert(false);
                    }
                    return Err(FieldError::DivideByZero);
                },
            };
            let product = self.mul_values(quotient, new_t);
            proof {
                lemma_euclid_step(
                    p,
                    remainder as nat,
                    new_remainder as nat,
                    quotient as nat,
                    next_remainder as nat,
                );
                lemma_bezout_step(
                    p,
                    a.value as nat,
                    t as nat,
                    new_t as nat,
                    remainder as nat,
                    new_remainder as nat,
                    quotient as nat,
                    next_remainder as nat,
                );
                lemma_xor_is_pxor(t, product);
                lemma_degree_bounds(new_remainder as nat);
                lemma_pmod_bound(remainder as nat, new_remainder as nat);
                lemma_pxor_bound(t as nat, product as nat, crate::poly::degree(p) as nat);
            }
            let previous_t = t;
            t = new_t;
            new_t = previous_t ^ product;
            remainder = new_remainder;
            new_remainder = next_remainder;
        }
        proof {
            if irreducible(p) {
                lemma_euclid_end(p, remainder as nat);
                lemma_pmod_small(1, p);
            }
        }
        Ok(FieldElement { value: t })
    }
}

} // verus!
