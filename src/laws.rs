//! The field laws of GF(2^M), over the model that both backends' contracts use:
//! sum is `pxor`, product is `fmul(p, _, _)`, elements are the polynomials of
//! degree below that of `p`.
use crate::poly::{
    clmul, fmul, lead, lemma_clmul_assoc, lemma_clmul_comm, lemma_clmul_distrib_right,
    lemma_clmul_one, lemma_degree_bounds, lemma_pmod_bound, lemma_pmod_clmul, lemma_pmod_linear,
    lemma_pmod_small, lemma_pxor_assoc, lemma_pxor_bound, lemma_pxor_comm, lemma_pxor_self,
    lemma_pxor_zero, pxor,
};
use crate::gf2_lut::{
    alpha_pow_spec, group_order, is_power, lemma_alpha_pow_add, lemma_alpha_pow_bound,
    lemma_alpha_pow_period, lut_valid,
};
use crate::poly::{
    degree, irreducible, lemma_clmul_degree, lemma_clmul_zero_left, lemma_degree_unique,
    lemma_pmod_self,
};
use vstd::arithmetic::power2::*;
use vstd::prelude::*;

verus! {

/// Sums and products of elements are elements.
pub proof fn lemma_closure(p: nat, a: nat, b: nat)
    requires
        p >= 2,
        a < lead(p),
        b < lead(p),
    ensures
        pxor(a, b) < lead(p),
        fmul(p, a, b) < lead(p),
{
    lemma_degree_bounds(p);
    lemma_pxor_bound(a, b, crate::poly::degree(p) as nat);
    lemma_pmod_bound(clmul(a, b), p);
}

/// Addition and multiplication are commutative.
pub proof fn lemma_commutative(p: nat, a: nat, b: nat)
    ensures
        pxor(a, b) == pxor(b, a),
        fmul(p, a, b) == fmul(p, b, a),
{
    lemma_pxor_comm(a, b);
    lemma_clmul_comm(a, b);
}

/// Addition and multiplication are associative.
pub proof fn lemma_associative(p: nat, a: nat, b: nat, c: nat)
    requires
        p >= 2,
    ensures
        pxor(pxor(a, b), c) == pxor(a, pxor(b, c)),
        fmul(p, fmul(p, a, b), c) == fmul(p, a, fmul(p, b, c)),
{
    lemma_pxor_assoc(a, b, c);
    lemma_pmod_clmul(clmul(a, b), c, p);
    lemma_clmul_assoc(a, b, c);
    lemma_clmul_comm(a, fmul(p, b, c));
    lemma_pmod_clmul(clmul(b, c), a, p);
    lemma_clmul_comm(clmul(b, c), a);
}

/// Zero is the additive identity and one the multiplicative identity.
pub proof fn lemma_identity(p: nat, a: nat)
    requires
        p >= 2,
        a < lead(p),
    ensures
        pxor(a, 0) == a,
        fmul(p, a, 1) == a,
{
    lemma_pxor_zero(a);
    lemma_clmul_one(a);
    lemma_pmod_small(a, p);
}

/// Every element is its own additive inverse: the characteristic is two.
pub proof fn lemma_additive_inverse(a: nat)
    ensures
        pxor(a, a) == 0,
{
    lemma_pxor_self(a);
}

/// Multiplication distributes over addition.
pub proof fn lemma_distributive(p: nat, a: nat, b: nat, c: nat)
    requires
        p >= 2,
    ensures
        fmul(p, a, pxor(b, c)) == pxor(fmul(p, a, b), fmul(p, a, c)),
{
    lemma_clmul_distrib_right(a, b, c);
    lemma_pmod_linear(clmul(a, b), clmul(a, c), p);
}

/// The degree of `x^k` is `k`; the degree of zero is -1.
pub proof fn lemma_degree_of_power(k: nat)
    ensures
        degree(pow2(k)) == k,
        degree(0) == -1,
{
    lemma_pow2_strictly_increases(k, k + 1);
    lemma_degree_unique(pow2(k), k);
}

/// A polynomial that passes the table validation has degree at least one.
pub proof fn lemma_valid_poly_bounds(p: nat)
    requires
        lut_valid(p),
    ensures
        p >= 2,
{
    if p > 0 {
        lemma_degree_bounds(p);
        lemma_pow2_strictly_increases(0, degree(p) as nat);
        vstd::arithmetic::power2::lemma2_to64();
    }
}

/// In a field whose polynomial is primitive (where both backends apply), a
/// product with a nonzero `b` determines the other factor. Such a polynomial is
/// irreducible (`lemma_primitive_is_irreducible`), so the contracts of `div`
/// and `inverse` of both backends give `q * b == a` and `a * q == 1`: the
/// quotients and inverses are the same whichever backend computed them, as the
/// products are by the contracts of `mul`.
pub proof fn lemma_backends_agree(p: nat, a: nat, b: nat, x: nat, y: nat)
    requires
        lut_valid(p),
        0 < b < lead(p),
        x < lead(p),
        y < lead(p),
        fmul(p, x, b) == a,
        fmul(p, y, b) == a,
    ensures
        x == y,
{
    lemma_valid_poly_bounds(p);
    assert(is_power(p, b));
    let n = group_order(p);
    let j = choose|i: nat| i < n && #[trigger] alpha_pow_spec(p, i) == b;
    let b_inv = alpha_pow_spec(p, (n - j) as nat);
    lemma_alpha_pow_add(p, j, (n - j) as nat);
    assert(j + (n - j) as nat == n);
    lemma_alpha_pow_bound(p, (n - j) as nat);
    lemma_associative(p, x, b, b_inv);
    lemma_associative(p, y, b, b_inv);
    lemma_identity(p, x);
    lemma_identity(p, y);
}

/// A polynomial that passes the table validation is irreducible: a field that
/// the table backend accepts is a field for the computation backend too.
pub proof fn lemma_primitive_is_irreducible(p: nat)
    requires
        lut_valid(p),
    ensures
        irreducible(p),
{
    lemma_valid_poly_bounds(p);
    assert forall|f: nat, g: nat| #[trigger] clmul(f, g) == p implies f == 1 || g == 1 by {
        if f != 1 && g != 1 {
            lemma_clmul_zero_left(g);
            lemma_clmul_one(f);
            lemma_factor_is_element(p, f, g);
            lemma_clmul_comm(f, g);
            lemma_factor_is_element(p, g, f);
            let n = group_order(p);
            assert(is_power(p, f));
            assert(is_power(p, g));
            let i = choose|i: nat| i < n && #[trigger] alpha_pow_spec(p, i) == f;
            let j = choose|j: nat| j < n && #[trigger] alpha_pow_spec(p, j) == g;
            lemma_alpha_pow_add(p, i, j);
            lemma_alpha_pow_period(p, n, i + j);
            vstd::arithmetic::div_mod::lemma_mod_bound((i + j) as int, n as int);
            lemma_pmod_self(p);
            assert(alpha_pow_spec(p, (i + j) % n) != 0);
        }
    }
}

/// A factor `f != 1` of `p = f * g` with `g != 1` is a nonzero element of the field.
proof fn lemma_factor_is_element(p: nat, f: nat, g: nat)
    requires
        p >= 2,
        clmul(f, g) == p,
        f != 1,
        g != 1,
        f != 0,
        g != 0,
    ensures
        0 < f < lead(p),
{
    lemma_clmul_degree(f, g);
    lemma_degree_bounds(f);
    lemma_degree_bounds(g);
    vstd::arithmetic::power2::lemma2_to64();
    if degree(g) == 0 {
        assert(g < 2);
    }
    if degree(f) + 1 < degree(p) {
        lemma_pow2_strictly_increases((degree(f) + 1) as nat, degree(p) as nat);
    }
}

} // verus!
