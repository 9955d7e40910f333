//! Arithmetic over the finite fields GF(2^M) of characteristic two.
//!
//! A field is given by an irreducible binary polynomial of degree `M`, encoded as
//! an integer whose bit `i` is the coefficient of `x^i` (so `x^3 + x + 1` is
//! `0xB`). Two backends implement the same contract: [`gf2::Gf2`] multiplies by
//! carry-less multiplication and polynomial division, [`gf2_lut::Gf2Lut`] by
//! exponent and logarithm tables.
use vstd::prelude::*;

pub mod gf2;
pub mod gf2_lut;
pub mod laws;
pub mod poly;
pub mod poly_div;
pub mod wide;
pub mod word;

use crate::poly::{degree, fmul, irreducible, lead, lemma_degree_bounds, pxor};
use crate::word::lemma_xor_is_pxor;
use vstd::arithmetic::power2::*;

verus! {

/// Why an operation has no result.
#[derive(Clone, Copy, Debug, PartialEq, Eq, Structural)]
pub enum FieldError {
    /// Division by the additive identity, or its inverse.
    DivideByZero,
    /// Polynomial division by the zero polynomial.
    DivisorZero,
    /// The polynomial cannot define the requested field.
    InvalidPolynomial,
}

/// An element of a field GF(2^M): a binary polynomial of degree below `M`, held
/// as an integer. Which field it belongs to is given by the field value that
/// operates on it.
#[derive(Clone, Copy, Debug, PartialEq, Eq, Structural)]
pub struct FieldElement {
    pub value: u128,
}

impl FieldElement {
    /// An element with the given value; whether it lies in a field is told by
    /// that field's `validate`.
    pub fn new(value: u128) -> (r: FieldElement)
        ensures
            r.value == value,
    {
        FieldElement { value }
    }
}

/// A field GF(2^M) given by its defining polynomial, with the operations on its
/// elements. Elements are the polynomials of degree below `M`; sum is exclusive
/// or, product is the carry-less product reduced modulo the polynomial.
pub trait GaloisField: Sized {
    /// The defining polynomial.
    spec fn field_poly(&self) -> nat;

    /// The field is ready for use.
    spec fn wf(&self) -> bool;

    /// The degree `M` of the defining polynomial.
    fn degree(&self) -> (r: u32)
        requires
            self.wf(),
        ensures
            r as int == degree(self.field_poly()),
            1 <= r <= 127,
    ;

    /// The number of elements, `2^M`.
    fn num_elem(&self) -> (r: u128)
        requires
            self.wf(),
        ensures
            r as nat == lead(self.field_poly()),
    ;

    /// The additive identity.
    fn zero(&self) -> (r: FieldElement)
        ensures
            r.value == 0,
    ;

    /// The multiplicative identity.
    fn one(&self) -> (r: FieldElement)
        ensures
            r.value == 1,
    ;

    /// True when `a` is outside the field, that is `a.value >= 2^M`.
    fn validate(&self, a: &FieldElement) -> (r: bool)
        requires
            self.wf(),
        ensures
            r == (a.value >= lead(self.field_poly())),
    ;

    fn add(&self, a: FieldElement, b: FieldElement) -> (r: FieldElement)
        ensures
            r.value == a.value ^ b.value,
            r.value as nat == pxor(a.value as nat, b.value as nat),
    ;

    /// Subtraction, which in characteristic two is addition.
    fn sub(&self, a: FieldElement, b: FieldElement) -> (r: FieldElement)
        ensures
            r.value == a.value ^ b.value,
            r.value as nat == pxor(a.value as nat, b.value as nat),
    ;

    fn mul(&self, a: FieldElement, b: FieldElement) -> (r: FieldElement)
        requires
            self.wf(),
            a.value < lead(self.field_poly()),
            b.value < lead(self.field_poly()),
        ensures
            r.value == fmul(self.field_poly(), a.value as nat, b.value as nat),
    ;

    /// `a / b`, refused when `b` is zero.
    fn div(&self, a: FieldElement, b: FieldElement) -> (r: Result<FieldElement, FieldError>)
        requires
            self.wf(),
            a.value < lead(self.field_poly()),
            b.value < lead(self.field_poly()),
        ensures
            b.value == 0 <==> r is Err,
            r is Err ==> r == Err::<FieldElement, FieldError>(FieldError::DivideByZero),
            r is Ok ==> r->Ok_0.value < lead(self.field_poly()),
            r is Ok ==> irreducible(self.field_poly()) ==> fmul(
                self.field_poly(),
                r->Ok_0.value as nat,
                b.value as nat,
            ) == a.value,
            r is Ok ==> irreducible(self.field_poly()) ==> a.value == b.value ==> r->Ok_0.value
                == 1,
    ;

    /// The multiplicative inverse, refused for zero.
    fn inverse(&self, a: FieldElement) -> (r: Result<FieldElement, FieldError>)
        requires
            self.wf(),
            a.value < lead(self.field_poly()),
        ensures
            a.value == 0 <==> r is Err,
            r is Err ==> r == Err::<FieldElement, FieldError>(FieldError::DivideByZero),
            r is Ok ==> r->Ok_0.value < lead(self.field_poly()),
            r is Ok ==> irreducible(self.field_poly()) ==> fmul(
                self.field_poly(),
                a.value as nat,
                r->Ok_0.value as nat,
            ) == 1,
    ;

    /// `a` as `0x` and `ceil(M/4)` upper-case hexadecimal digits: all the digits of
    /// an element of the field, zero-padded.
    fn to_hex_string(&self, a: &FieldElement) -> (r: String)
        requires
            self.wf(),
        ensures
            r@ == seq!['0', 'x'] + hex_digits(a.value as nat, hex_width(degree(self.field_poly()) as nat)),
    {
        let m = self.degree();
        let width = (m + 3) / 4;
        let mut s = String::new();
        push_char(&mut s, '0');
        push_char(&mut s, 'x');
        let mut k: u32 = width;
        let ghost head = seq!['0', 'x'];
        assert(s@ =~= head);
        while k > 0
            invariant
                k <= width <= 32,
                width == hex_width(degree(self.field_poly()) as nat),
                s@ + hex_digits(a.value as nat, k as nat) == head + hex_digits(
                    a.value as nat,
                    width as nat,
                ),
            decreases k,
        {
            let shift = 4 * (k - 1);
            let value = a.value;
            let digit = (value >> shift) & 0xF;
            proof {
                vstd::bits::lemma_u128_shr_is_div(value, shift as u128);
                let y = value >> shift;
                assert(y & 0xF == y % 16) by (bit_vector);
                assert(value >> shift == value >> (shift as u128)) by (bit_vector)
                    requires
                        shift < 128,
                ;
                assert(shift as nat == 4 * (k - 1) as nat);
            }
            let c = hex_char_exec(digit);
            let ghost before = s@;
            push_char(&mut s, c);
            proof {
                assert(hex_digits(a.value as nat, k as nat) == seq![c] + hex_digits(
                    a.value as nat,
                    (k - 1) as nat,
                ));
                assert(s@ + hex_digits(a.value as nat, (k - 1) as nat) =~= before + hex_digits(
                    a.value as nat,
                    k as nat,
                ));
            }
            k = k - 1;
        }
        assert(s@ + hex_digits(a.value as nat, 0) =~= s@);
        s
    }

    /// `*a = *a + b`.
    fn add_assign(&self, a: &mut FieldElement, b: FieldElement)
        ensures
            final(a).value as nat == pxor(old(a).value as nat, b.value as nat),
    {
        *a = self.add(*a, b);
    }

    /// `*a = *a - b`.
    fn sub_assign(&self, a: &mut FieldElement, b: FieldElement)
        ensures
            final(a).value as nat == pxor(old(a).value as nat, b.value as nat),
    {
        *a = self.sub(*a, b);
    }

    /// `*a = *a * b`.
    fn mul_assign(&self, a: &mut FieldElement, b: FieldElement)
        requires
            self.wf(),
            old(a).value < lead(self.field_poly()),
            b.value < lead(self.field_poly()),
        ensures
            final(a).value == fmul(self.field_poly(), old(a).value as nat, b.value as nat),
    {
        *a = self.mul(*a, b);
    }

    /// `*a = *a / b`; on a zero `b` the error is returned and `*a` is kept.
    fn div_assign(&self, a: &mut FieldElement, b: FieldElement) -> (r: Result<(), FieldError>)
        requires
            self.wf(),
            old(a).value < lead(self.field_poly()),
            b.value < lead(self.field_poly()),
        ensures
            b.value == 0 <==> r is Err,
            r is Err ==> r == Err::<(), FieldError>(FieldError::DivideByZero) && *final(a) == *old(a),
            r is Ok ==> final(a).value < lead(self.field_poly()),
            r is Ok ==> irreducible(self.field_poly()) ==> fmul(
                self.field_poly(),
                final(a).value as nat,
                b.value as nat,
            ) == old(a).value,
    {
        match self.div(*a, b) {
            Ok(q) => {
                *a = q;
                Ok(())
            },
            Err(e) => Err(e),
        }
    }
}

/// The number of hexadecimal digits for a field of degree `m`: `ceil(m / 4)`.
pub open spec fn hex_width(m: nat) -> nat {
    (m + 3) / 4
}

/// The upper-case hexadecimal digit of `d < 16` (`'0'` is 48, `'A'` is 65).
pub open spec fn hex_char(d: nat) -> char {
    if d < 10 {
        ((48 + d) as u8) as char
    } else {
        ((55 + d) as u8) as char
    }
}

/// The lowest `w` hexadecimal digits of `v`, most significant first.
pub open spec fn hex_digits(v: nat, w: nat) -> Seq<char>
    decreases w,
{
    if w == 0 {
        seq![]
    } else {
        seq![hex_char((v / pow2(4 * (w - 1) as nat)) % 16)] + hex_digits(v, (w - 1) as nat)
    }
}

fn hex_char_exec(d: u128) -> (r: char)
    requires
        d < 16,
    ensures
        r == hex_char(d as nat),
{
    if d < 10 {
        (48 + d as u8) as char
    } else {
        (55 + d as u8) as char
    }
}

/// Relies on `String::push`: appends `c` to the end of `s`.
#[verifier::external_body]
fn push_char(s: &mut String, c: char)
    ensures
        final(s)@ == old(s)@.push(c),
{
    s.push(c)
}

/// Index of the highest set bit of `x`, or -1 for zero.
pub fn calc_degree(x: u128) -> (r: i16)
    ensures
        r as int == degree(x as nat),
        -1 <= r <= 127,
{
    let mut rest: u128 = x;
    let mut d: i16 = -1;
    proof {
        crate::word::lemma_word_mod();
        if x > 0 {
            lemma_degree_bounds(x as nat);
            if degree(x as nat) > 127 {
                lemma_pow2_strictly_increases(128, degree(x as nat) as nat);
            }
        }
    }
    while rest != 0
        invariant
            degree(x as nat) == d + 1 + degree(rest as nat),
            -1 <= d,
            degree(x as nat) <= 127,
        decreases rest,
    {
        proof {
            assert(rest >> 1u32 == rest / 2) by (bit_vector);
            assert(degree(rest as nat) == 1 + degree(rest as nat / 2));
            if rest > 1 {
                lemma_degree_bounds(rest as nat / 2);
            }
        }
        rest = rest >> 1;
        d = d + 1;
    }
    d
}

} // verus!
