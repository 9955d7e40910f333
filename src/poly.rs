//! The model that every contract of the crate speaks in: a binary polynomial is
//! a natural number whose bit `i` is the coefficient of `x^i`.
use vstd::arithmetic::div_mod::*;
use vstd::arithmetic::power2::*;
use vstd::prelude::*;

verus! {

/// Sum of two binary polynomials: the bitwise exclusive or of their coefficients.
pub open spec fn pxor(a: nat, b: nat) -> nat
    decreases a,
{
    if a == 0 {
        b
    } else if b == 0 {
        a
    } else {
        (2 * pxor(a / 2, b / 2) + (a % 2 + b % 2) % 2) as nat
    }
}

/// Carry-less product of two binary polynomials.
pub open spec fn clmul(a: nat, b: nat) -> nat
    decreases b,
{
    if b == 0 {
        0
    } else {
        pxor(2 * clmul(a, b / 2), if b % 2 == 1 { a } else { 0 })
    }
}

/// Index of the highest set bit of `x`; -1 for zero.
pub open spec fn degree(x: nat) -> int
    decreases x,
{
    if x == 0 {
        -1
    } else {
        1 + degree(x / 2)
    }
}

/// `2^degree(p)`: the value of the leading term of a nonzero polynomial.
pub open spec fn lead(p: nat) -> nat {
    pow2(degree(p) as nat)
}

/// One step of long division: shift the remainder register left and feed in `bit`,
/// cancelling the leading term of `p` when it reaches it.
pub open spec fn reduce_step(r: nat, bit: nat, p: nat) -> nat {
    let t = 2 * r + bit;
    if t >= lead(p) {
        pxor(t as nat, p)
    } else {
        t as nat
    }
}

/// Remainder of the division of `a` by `p` (for `p != 0`).
pub open spec fn pmod(a: nat, p: nat) -> nat
    decreases a,
{
    if a == 0 {
        0
    } else {
        reduce_step(pmod(a / 2, p), a % 2, p)
    }
}

/// Quotient of the division of `a` by `p` (for `p != 0`).
pub open spec fn pdiv(a: nat, p: nat) -> nat
    decreases a,
{
    if a == 0 {
        0
    } else {
        let t = 2 * pmod(a / 2, p) + a % 2;
        (2 * pdiv(a / 2, p) + if t >= lead(p) { 1int } else { 0int }) as nat
    }
}

/// Product of two elements of the field defined by `p`.
pub open spec fn fmul(p: nat, a: nat, b: nat) -> nat {
    pmod(clmul(a, b), p)
}

/// Bits 0 and 1.. of `pxor(a, b)`.
pub proof fn lemma_pxor_split(a: nat, b: nat)
    ensures
        pxor(a, b) / 2 == pxor(a / 2, b / 2),
        pxor(a, b) % 2 == (a % 2 + b % 2) % 2,
    decreases a,
{
    if a == 0 {
        assert(pxor(0nat, b / 2) == b / 2);
    } else if b == 0 {
        assert(pxor(a / 2, 0nat) == a / 2) by {
            lemma_pxor_zero(a / 2);
        }
    }
}

pub proof fn lemma_pxor_zero(a: nat)
    ensures
        pxor(a, 0) == a,
        pxor(0, a) == a,
{
}

/// Two naturals with the same halves and the same low bit are equal.
pub proof fn lemma_eq_by_bits(x: nat, y: nat)
    requires
        x / 2 == y / 2,
        x % 2 == y % 2,
    ensures
        x == y,
{
}

pub proof fn lemma_pxor_comm(a: nat, b: nat)
    ensures
        pxor(a, b) == pxor(b, a),
    decreases a,
{
    if a != 0 && b != 0 {
        lemma_pxor_comm(a / 2, b / 2);
    }
}

pub proof fn lemma_pxor_self(a: nat)
    ensures
        pxor(a, a) == 0,
    decreases a,
{
    if a != 0 {
        lemma_pxor_self(a / 2);
    }
}

pub proof fn lemma_pxor_assoc(a: nat, b: nat, c: nat)
    ensures
        pxor(pxor(a, b), c) == pxor(a, pxor(b, c)),
    decreases a,
{
    if a != 0 {
        lemma_pxor_assoc(a / 2, b / 2, c / 2);
        lemma_pxor_split(a, b);
        lemma_pxor_split(pxor(a, b), c);
        lemma_pxor_split(b, c);
        lemma_pxor_split(a, pxor(b, c));
        lemma_eq_by_bits(pxor(pxor(a, b), c), pxor(a, pxor(b, c)));
    }
}

/// Shifting both operands left by one shifts the sum.
pub proof fn lemma_pxor_double(a: nat, b: nat)
    ensures
        pxor(2 * a, 2 * b) == 2 * pxor(a, b),
{
    lemma_pxor_split(2 * a, 2 * b);
    lemma_pxor_split(a, b);
    assert((2 * a) / 2 == a);
    assert((2 * b) / 2 == b);
    lemma_eq_by_bits(pxor(2 * a, 2 * b), 2 * pxor(a, b));
}

/// Adding a constant term to an even polynomial.
pub proof fn lemma_pxor_low_bit(a: nat, bit: nat)
    requires
        bit < 2,
    ensures
        pxor(2 * a, bit) == 2 * a + bit,
{
    lemma_pxor_split(2 * a, bit);
    assert(pxor(a, 0) == a);
    lemma_eq_by_bits(pxor(2 * a, bit), 2 * a + bit);
}


/// Dividing by `2^k` is halving, then dividing by `2^(k-1)`; likewise for the remainder.
pub proof fn lemma_pow2_succ_split(x: nat, k: nat)
    requires
        k > 0,
    ensures
        pow2(k) == 2 * pow2((k - 1) as nat),
        x / pow2(k) == (x / 2) / pow2((k - 1) as nat),
        x % pow2(k) == 2 * ((x / 2) % pow2((k - 1) as nat)) + x % 2,
{
    let j = (k - 1) as nat;
    lemma_pow2_unfold(k);
    lemma_pow2_pos(j);
    lemma_div_denominator(x as int, 2, pow2(j) as int);
    lemma_mod_breakdown(x as int, 2, pow2(j) as int);
}

pub proof fn lemma_pxor_div_pow2(a: nat, b: nat, k: nat)
    ensures
        pxor(a, b) / pow2(k) == pxor(a / pow2(k), b / pow2(k)),
    decreases k,
{
    if k > 0 {
        let j = (k - 1) as nat;
        lemma_pxor_div_pow2(a / 2, b / 2, j);
        lemma_pxor_split(a, b);
        lemma_pow2_succ_split(a, k);
        lemma_pow2_succ_split(b, k);
        lemma_pow2_succ_split(pxor(a, b), k);
    } else {
        lemma2_to64();
        assert(a / 1 == a && b / 1 == b && pxor(a, b) / 1 == pxor(a, b));
    }
}

pub proof fn lemma_pxor_mod_pow2(a: nat, b: nat, k: nat)
    ensures
        pxor(a, b) % pow2(k) == pxor(a % pow2(k), b % pow2(k)),
    decreases k,
{
    if k > 0 {
        let j = (k - 1) as nat;
        lemma_pxor_mod_pow2(a / 2, b / 2, j);
        lemma_pxor_split(a, b);
        lemma_pow2_succ_split(a, k);
        lemma_pow2_succ_split(b, k);
        lemma_pow2_succ_split(pxor(a, b), k);
        let x = a % pow2(k);
        let y = b % pow2(k);
        lemma_pxor_split(x, y);
        lemma_pow2_pos(j);
        lemma_fundamental_div_mod_converse(x as int, 2, ((a / 2) % pow2(j)) as int, (a % 2) as int);
        lemma_fundamental_div_mod_converse(y as int, 2, ((b / 2) % pow2(j)) as int, (b % 2) as int);
        lemma_eq_by_bits(pxor(a, b) % pow2(k), pxor(x, y));
    } else {
        lemma2_to64();
        assert(a % 1 == 0 && b % 1 == 0 && pxor(a, b) % 1 == 0);
    }
}

/// The sum of two polynomials of degree below `k` has degree below `k`.
pub proof fn lemma_pxor_bound(a: nat, b: nat, k: nat)
    requires
        a < pow2(k),
        b < pow2(k),
    ensures
        pxor(a, b) < pow2(k),
{
    lemma_pow2_pos(k);
    lemma_pxor_div_pow2(a, b, k);
    lemma_basic_div(a as int, pow2(k) as int);
    lemma_basic_div(b as int, pow2(k) as int);
    assert(pxor(0, 0) == 0);
    lemma_quotient_zero(pxor(a, b), k);
}



/// Regrouping a sum of four terms.
pub proof fn lemma_pxor_swap4(w: nat, x: nat, y: nat, z: nat)
    ensures
        pxor(pxor(w, x), pxor(y, z)) == pxor(pxor(w, y), pxor(x, z)),
{
    lemma_pxor_assoc(w, x, pxor(y, z));
    lemma_pxor_assoc(x, y, z);
    lemma_pxor_comm(x, y);
    lemma_pxor_assoc(y, x, z);
    lemma_pxor_assoc(w, y, pxor(x, z));
}

/// The defining recursion of `clmul`, for every `b` including zero.
pub proof fn lemma_clmul_unfold(a: nat, b: nat)
    ensures
        clmul(a, b) == pxor(2 * clmul(a, b / 2), if b % 2 == 1 { a } else { 0 }),
{
}

pub proof fn lemma_clmul_one(a: nat)
    ensures
        clmul(a, 1) == a,
        clmul(a, 0) == 0,
{
    assert(clmul(a, 0) == 0);
}

pub proof fn lemma_clmul_shift_right(a: nat, b: nat)
    ensures
        clmul(a, 2 * b) == 2 * clmul(a, b),
{
    lemma_clmul_unfold(a, 2 * b);
    assert((2 * b) / 2 == b);
    lemma_pxor_zero(2 * clmul(a, b));
}

pub proof fn lemma_clmul_zero_left(b: nat)
    ensures
        clmul(0, b) == 0,
    decreases b,
{
    if b > 0 {
        lemma_clmul_zero_left(b / 2);
    }
}

pub proof fn lemma_clmul_one_left(b: nat)
    ensures
        clmul(1, b) == b,
    decreases b,
{
    if b > 0 {
        lemma_clmul_one_left(b / 2);
        lemma_pxor_low_bit(b / 2, b % 2);
    }
}

pub proof fn lemma_clmul_shift_left(a: nat, b: nat)
    ensures
        clmul(2 * a, b) == 2 * clmul(a, b),
    decreases b,
{
    if b > 0 {
        lemma_clmul_shift_left(a, b / 2);
        lemma_pxor_double(2 * clmul(a, b / 2), if b % 2 == 1 { a } else { 0 });
    }
}

/// `clmul` distributes over the sum in its second argument.
pub proof fn lemma_clmul_distrib_right(a: nat, b: nat, c: nat)
    ensures
        clmul(a, pxor(b, c)) == pxor(clmul(a, b), clmul(a, c)),
    decreases b,
{
    if b == 0 {
        lemma_pxor_zero(c);
        lemma_pxor_zero(clmul(a, c));
    } else {
        let x = pxor(b, c);
        lemma_pxor_split(b, c);
        lemma_clmul_distrib_right(a, b / 2, c / 2);
        lemma_clmul_unfold(a, x);
        lemma_clmul_unfold(a, b);
        lemma_clmul_unfold(a, c);
        let cb = clmul(a, b / 2);
        let cc = clmul(a, c / 2);
        lemma_pxor_double(cb, cc);
        let sb: nat = if b % 2 == 1 { a } else { 0 };
        let sc: nat = if c % 2 == 1 { a } else { 0 };
        let sx: nat = if x % 2 == 1 { a } else { 0 };
        assert(sx == pxor(sb, sc)) by {
            lemma_pxor_self(a);
            lemma_pxor_zero(a);
        }
        lemma_pxor_swap4(2 * cb, 2 * cc, sb, sc);
    }
}

/// `clmul` distributes over the sum in its first argument.
pub proof fn lemma_clmul_distrib_left(a1: nat, a2: nat, b: nat)
    ensures
        clmul(pxor(a1, a2), b) == pxor(clmul(a1, b), clmul(a2, b)),
    decreases b,
{
    if b > 0 {
        lemma_clmul_distrib_left(a1, a2, b / 2);
        lemma_pxor_double(clmul(a1, b / 2), clmul(a2, b / 2));
        if b % 2 == 1 {
            lemma_pxor_swap4(2 * clmul(a1, b / 2), 2 * clmul(a2, b / 2), a1, a2);
        } else {
            lemma_pxor_zero(2 * clmul(a1, b / 2));
            lemma_pxor_zero(2 * clmul(a2, b / 2));
            lemma_pxor_zero(2 * clmul(pxor(a1, a2), b / 2));
        }
    }
}

pub proof fn lemma_clmul_comm(a: nat, b: nat)
    ensures
        clmul(a, b) == clmul(b, a),
    decreases a,
{
    if a > 0 {
        lemma_clmul_comm(a / 2, b);
        lemma_pxor_low_bit(a / 2, a % 2);
        lemma_clmul_distrib_left(2 * (a / 2), a % 2, b);
        lemma_clmul_shift_left(a / 2, b);
        lemma_clmul_one_left(b);
        lemma_clmul_zero_left(b);
        lemma_clmul_unfold(b, a);
    } else {
        lemma_clmul_zero_left(b);
    }
}

pub proof fn lemma_clmul_assoc(a: nat, b: nat, c: nat)
    ensures
        clmul(clmul(a, b), c) == clmul(a, clmul(b, c)),
    decreases c,
{
    if c == 0 {
        lemma_clmul_one(a);
    } else {
        lemma_clmul_assoc(a, b, c / 2);
        let y = clmul(b, c / 2);
        let z: nat = if c % 2 == 1 { b } else { 0 };
        lemma_clmul_unfold(b, c);
        lemma_clmul_distrib_right(a, 2 * y, z);
        lemma_clmul_shift_right(a, y);
        lemma_clmul_one(a);
        lemma_clmul_unfold(clmul(a, b), c);
    }
}


/// A nonzero `x` lies between `2^degree(x)` and `2^(degree(x)+1)`.
pub proof fn lemma_degree_bounds(x: nat)
    requires
        x > 0,
    ensures
        degree(x) >= 0,
        pow2(degree(x) as nat) <= x < pow2((degree(x) + 1) as nat),
    decreases x,
{
    lemma2_to64();
    if x == 1 {
        assert(degree(1) == 1 + degree(0));
    } else {
        lemma_degree_bounds(x / 2);
        let e = degree(x / 2);
        assert(degree(x) == e + 1);
        lemma_pow2_unfold((e + 1) as nat);
        lemma_pow2_unfold((e + 2) as nat);
        assert(pow2((e + 1) as nat) == 2 * pow2(e as nat));
        assert(pow2((e + 2) as nat) == 2 * pow2((e + 1) as nat));
    }
}

/// The degree is the exponent of the power of two just below `x`.
pub proof fn lemma_degree_unique(x: nat, k: nat)
    requires
        pow2(k) <= x < pow2(k + 1),
    ensures
        degree(x) == k,
    decreases k,
{
    lemma2_to64();
    lemma_pow2_unfold(k + 1);
    if k > 0 {
        lemma_pow2_unfold(k);
        lemma_degree_unique(x / 2, (k - 1) as nat);
        assert(degree(x) == 1 + degree(x / 2));
    } else {
        assert(x == 1);
        assert(degree(1) == 1 + degree(0));
    }
}

/// For `x < 2^(k+1)`: whether `x` reaches `2^k` is its quotient by `2^k`.
pub proof fn lemma_top_bit(x: nat, k: nat)
    requires
        x < 2 * pow2(k),
    ensures
        x >= pow2(k) ==> x / pow2(k) == 1,
        x < pow2(k) ==> x / pow2(k) == 0,
{
    lemma_pow2_pos(k);
    if x >= pow2(k) {
        lemma_fundamental_div_mod_converse(x as int, pow2(k) as int, 1, x - pow2(k));
    } else {
        lemma_fundamental_div_mod_converse(x as int, pow2(k) as int, 0, x as int);
    }
}

/// A natural whose quotient by `2^k` is zero is below `2^k`.
pub proof fn lemma_quotient_zero(x: nat, k: nat)
    requires
        x / pow2(k) == 0,
    ensures
        x < pow2(k),
{
    lemma_pow2_pos(k);
    lemma_fundamental_div_mod(x as int, pow2(k) as int);
    lemma_mod_bound(x as int, pow2(k) as int);
    assert(pow2(k) * (x / pow2(k)) == 0) by (nonlinear_arith)
        requires
            x / pow2(k) == 0,
    ;
}

/// Cancelling the leading term of `p` from `t` of the same degree leaves a lower degree.
pub proof fn lemma_cancel_lead(t: nat, p: nat)
    requires
        p > 0,
        lead(p) <= t < 2 * lead(p),
    ensures
        pxor(t, p) < lead(p),
{
    let d = degree(p) as nat;
    lemma_degree_bounds(p);
    lemma_pow2_unfold(d + 1);
    lemma_top_bit(t, d);
    lemma_top_bit(p, d);
    lemma_pxor_div_pow2(t, p, d);
    lemma_pxor_self(1);
    lemma_quotient_zero(pxor(t, p), d);
}

/// The remainder has a lower degree than the divisor.
pub proof fn lemma_pmod_bound(a: nat, p: nat)
    requires
        p > 0,
    ensures
        pmod(a, p) < lead(p),
    decreases a,
{
    lemma_degree_bounds(p);
    lemma_pow2_pos(degree(p) as nat);
    if a > 0 {
        lemma_pmod_bound(a / 2, p);
        let t = 2 * pmod(a / 2, p) + a % 2;
        if t >= lead(p) {
            assert(t < 2 * lead(p));
            lemma_cancel_lead(t as nat, p);
        }
    }
}

/// A polynomial of lower degree than the divisor is its own remainder.
pub proof fn lemma_pmod_small(a: nat, p: nat)
    requires
        p > 0,
        a < lead(p),
    ensures
        pmod(a, p) == a,
    decreases a,
{
    if a > 0 {
        lemma_pmod_small(a / 2, p);
    }
}

/// The defining recursion of `pmod`, for every `a` including zero.
pub proof fn lemma_pmod_unfold(a: nat, p: nat)
    requires
        p > 0,
    ensures
        pmod(a, p) == reduce_step(pmod(a / 2, p), a % 2, p),
{
    lemma_degree_bounds(p);
    lemma_pow2_pos(degree(p) as nat);
}

/// Sum of two register values after feeding one bit each.
pub proof fn lemma_pxor_feed(x: nat, y: nat, bx: nat, by: nat)
    requires
        bx < 2,
        by < 2,
    ensures
        pxor(2 * x + bx, 2 * y + by) == 2 * pxor(x, y) + (bx + by) % 2,
{
    let u = 2 * x + bx;
    let v = 2 * y + by;
    lemma_pxor_split(u as nat, v as nat);
    lemma_eq_by_bits(pxor(u as nat, v as nat), (2 * pxor(x, y) + (bx + by) % 2) as nat);
}

/// Taking the remainder commutes with addition.
pub proof fn lemma_pmod_linear(a: nat, b: nat, p: nat)
    requires
        p > 0,
    ensures
        pmod(pxor(a, b), p) == pxor(pmod(a, p), pmod(b, p)),
    decreases a,
{
    if a == 0 {
        lemma_pxor_zero(b);
        lemma_pxor_zero(pmod(b, p));
    } else {
        let x = pxor(a, b);
        lemma_pxor_split(a, b);
        lemma_pmod_linear(a / 2, b / 2, p);
        lemma_pmod_unfold(x, p);
        lemma_pmod_unfold(a, p);
        lemma_pmod_unfold(b, p);
        let ra = pmod(a / 2, p);
        let rb = pmod(b / 2, p);
        let ta = (2 * ra + a % 2) as nat;
        let tb = (2 * rb + b % 2) as nat;
        lemma_pxor_feed(ra, rb, a % 2, b % 2);
        let l = lead(p);
        let d = degree(p) as nat;
        lemma_degree_bounds(p);
        lemma_pow2_unfold(d + 1);
        lemma_pmod_bound(a / 2, p);
        lemma_pmod_bound(b / 2, p);
        lemma_top_bit(ta, d);
        lemma_top_bit(tb, d);
        lemma_pxor_div_pow2(ta, tb, d);
        let t = pxor(ta, tb);
        lemma_pxor_bound(ta, tb, d + 1);
        lemma_top_bit(t, d);
        lemma_pxor_self(1);
        lemma_pxor_zero(1);
        if ta >= l && tb >= l {
            lemma_pxor_swap4(ta, p, tb, p);
            lemma_pxor_self(p);
            lemma_pxor_zero(t);
        } else if ta >= l {
            lemma_pxor_assoc(ta, tb, p);
            lemma_pxor_comm(tb, p);
            lemma_pxor_assoc(ta, p, tb);
        } else if tb >= l {
            lemma_pxor_assoc(ta, tb, p);
        }
    }
}

/// The remainder of the divisor itself is zero.
pub proof fn lemma_pmod_self(p: nat)
    requires
        p > 0,
    ensures
        pmod(p, p) == 0,
{
    lemma_degree_bounds(p);
    lemma_pow2_unfold((degree(p) + 1) as nat);
    lemma_pmod_small(p / 2, p);
    lemma_pxor_self(p);
}

/// The remainder of a multiple of the divisor is zero.
pub proof fn lemma_pmod_multiple(p: nat, q: nat)
    requires
        p > 0,
    ensures
        pmod(clmul(p, q), p) == 0,
    decreases q,
{
    if q > 0 {
        lemma_pmod_multiple(p, q / 2);
        let x = clmul(p, q / 2);
        let s: nat = if q % 2 == 1 { p } else { 0 };
        lemma_pmod_linear(2 * x, s, p);
        lemma_pmod_unfold(2 * x, p);
        assert((2 * x) / 2 == x);
        lemma_degree_bounds(p);
        lemma_pow2_pos(degree(p) as nat);
        lemma_pmod_self(p);
        assert(reduce_step(0, 0, p) == 0);
        lemma_pmod_small(0, p);
        lemma_pxor_self(0);
    }
}

/// Euclidean division: `a` is the quotient times `p`, plus the remainder.
pub proof fn lemma_pdiv_pmod(a: nat, p: nat)
    requires
        p > 0,
    ensures
        a == pxor(clmul(p, pdiv(a, p)), pmod(a, p)),
    decreases a,
{
    if a > 0 {
        lemma_pdiv_pmod(a / 2, p);
        let q1 = pdiv(a / 2, p);
        let r1 = pmod(a / 2, p);
        let x = clmul(p, q1);
        let t = (2 * r1 + a % 2) as nat;
        lemma_pxor_double(x, r1);
        lemma_pxor_low_bit(a / 2, a % 2);
        lemma_pxor_low_bit(r1, a % 2);
        lemma_pxor_assoc(2 * x, 2 * r1, a % 2);
        let q = pdiv(a, p);
        if t >= lead(p) {
            assert(q / 2 == q1 && q % 2 == 1);
            lemma_clmul_unfold(p, q);
            lemma_pxor_swap4(2 * x, p, t, p);
            lemma_pxor_self(p);
            lemma_pxor_zero(pxor(2 * x, t));
        } else {
            assert(q == 2 * q1);
            lemma_clmul_shift_right(p, q1);
        }
    }
}

/// Reducing a factor before multiplying does not change the reduced product.
pub proof fn lemma_pmod_clmul(x: nat, c: nat, p: nat)
    requires
        p > 0,
    ensures
        pmod(clmul(pmod(x, p), c), p) == pmod(clmul(x, c), p),
{
    let q = pdiv(x, p);
    let r = pmod(x, p);
    lemma_pdiv_pmod(x, p);
    lemma_clmul_distrib_left(clmul(p, q), r, c);
    lemma_clmul_assoc(p, q, c);
    lemma_pmod_multiple(p, clmul(q, c));
    lemma_pmod_linear(clmul(clmul(p, q), c), clmul(r, c), p);
    lemma_pxor_zero(pmod(clmul(r, c), p));
}


/// Multiplying by `x^i` is a shift.
pub proof fn lemma_clmul_pow2(a: nat, i: nat)
    ensures
        clmul(a, pow2(i)) == a * pow2(i),
    decreases i,
{
    lemma2_to64();
    if i == 0 {
        lemma_clmul_one(a);
    } else {
        lemma_clmul_pow2(a, (i - 1) as nat);
        lemma_pow2_unfold(i);
        lemma_clmul_shift_right(a, pow2((i - 1) as nat));
        assert(2 * (a * pow2((i - 1) as nat)) == a * (2 * pow2((i - 1) as nat))) by (nonlinear_arith);
    }
}

/// Adding a term above the degree of `x`.
pub proof fn lemma_pxor_add_top(x: nat, i: nat)
    requires
        x < pow2(i),
    ensures
        pxor(x, pow2(i)) == x + pow2(i),
{
    lemma_pow2_pos(i);
    let k = pow2(i);
    lemma_pxor_div_pow2(x, k, i);
    lemma_pxor_mod_pow2(x, k, i);
    lemma_basic_div(x as int, k as int);
    lemma_small_mod(x, k);
    lemma_fundamental_div_mod_converse(k as int, k as int, 1, 0);
    lemma_pxor_zero(x);
    lemma_pxor_zero(1);
    let y = pxor(x, k);
    assert(y / k == 1 && y % k == x);
    lemma_fundamental_div_mod(y as int, k as int);
}

/// The low `i+1` bits of `b` are its low `i` bits plus bit `i`.
pub proof fn lemma_low_bits_next(b: nat, i: nat)
    ensures
        b % pow2(i + 1) == pxor(
            b % pow2(i),
            if (b / pow2(i)) % 2 == 1 { pow2(i) } else { 0 },
        ),
{
    lemma_pow2_pos(i);
    lemma_pow2_unfold(i + 1);
    lemma_mod_breakdown(b as int, pow2(i) as int, 2);
    assert(pow2(i) * 2 == pow2(i + 1));
    lemma_mod_bound(b as int, pow2(i) as int);
    if (b / pow2(i)) % 2 == 1 {
        lemma_pxor_add_top(b % pow2(i), i);
    } else {
        lemma_pxor_zero(b % pow2(i));
    }
}

/// The product of polynomials below `x^m` and `x^n` is below `x^(m+n)`.
pub proof fn lemma_clmul_bound(a: nat, b: nat, m: nat, n: nat)
    requires
        a < pow2(m),
        b < pow2(n),
    ensures
        clmul(a, b) < pow2(m + n),
    decreases n,
{
    lemma2_to64();
    lemma_pow2_pos(m + n);
    if b > 0 {
        assert(n > 0);
        lemma_pow2_unfold(n);
        lemma_pow2_unfold(m + n);
        lemma_clmul_bound(a, b / 2, m, (n - 1) as nat);
        assert(((m + n) - 1) as nat == m + (n - 1) as nat);
        lemma_pow2_strictly_increases(m, m + n);
        if b % 2 == 1 {
            lemma_pxor_bound(2 * clmul(a, b / 2), a, m + n);
        } else {
            lemma_pxor_zero(2 * clmul(a, b / 2));
        }
    }
}


/// The defining recursion of `pdiv`, for every `a` including zero.
pub proof fn lemma_pdiv_unfold(a: nat, p: nat)
    requires
        p > 0,
    ensures
        pdiv(a, p) == 2 * pdiv(a / 2, p) + if 2 * pmod(a / 2, p) + a % 2 >= lead(p) {
            1int
        } else {
            0int
        },
{
    lemma_degree_bounds(p);
    lemma_pow2_pos(degree(p) as nat);
}

/// A quotient is no longer than its dividend.
pub proof fn lemma_pdiv_bound(a: nat, p: nat, k: nat)
    requires
        p > 0,
        a < pow2(k),
    ensures
        pdiv(a, p) < pow2(k),
    decreases k,
{
    lemma2_to64();
    if a > 0 {
        assert(k > 0);
        lemma_pow2_unfold(k);
        lemma_pdiv_bound(a / 2, p, (k - 1) as nat);
    }
}

/// Dividing by the polynomial `1` leaves nothing over.
pub proof fn lemma_div_by_one(a: nat)
    ensures
        pdiv(a, 1) == a,
        pmod(a, 1) == 0,
    decreases a,
{
    lemma2_to64();
    assert(degree(1) == 1 + degree(0));
    if a > 0 {
        lemma_div_by_one(a / 2);
        lemma_pxor_self(1);
    }
}


/// Dropping the low `i` bits of a number below `2^(i+k)` leaves one below `2^k`.
pub proof fn lemma_shift_down_bound(a: nat, i: nat, k: nat)
    requires
        a < pow2(i + k),
    ensures
        a / pow2(i) < pow2(k),
{
    lemma_pow2_adds(i, k);
    lemma_pow2_pos(i);
    lemma_pow2_pos(k);
    lemma_fundamental_div_mod(a as int, pow2(i) as int);
    lemma_mod_bound(a as int, pow2(i) as int);
    let q = a / pow2(i);
    if q >= pow2(k) {
        assert(pow2(i) * q >= pow2(i) * pow2(k)) by (nonlinear_arith)
            requires
                q >= pow2(k),
        ;
    }
}


/// `g` divides `x`.
pub open spec fn divides(g: nat, x: nat) -> bool {
    exists|k: nat| clmul(g, k) == x
}

/// `p` has no factors but itself and `1`.
pub open spec fn irreducible(p: nat) -> bool {
    &&& p >= 2
    &&& forall|f: nat, g: nat| #[trigger] clmul(f, g) == p ==> f == 1 || g == 1
}

/// A common divisor of `x` and `y` divides their sum.
pub proof fn lemma_divides_pxor(g: nat, x: nat, y: nat)
    requires
        divides(g, x),
        divides(g, y),
    ensures
        divides(g, pxor(x, y)),
{
    let kx = choose|k: nat| clmul(g, k) == x;
    let ky = choose|k: nat| clmul(g, k) == y;
    lemma_clmul_distrib_right(g, kx, ky);
    assert(clmul(g, pxor(kx, ky)) == pxor(x, y));
}

/// A divisor of `y` divides its multiples.
pub proof fn lemma_divides_clmul(g: nat, y: nat, q: nat)
    requires
        divides(g, y),
    ensures
        divides(g, clmul(y, q)),
{
    let k = choose|k: nat| clmul(g, k) == y;
    lemma_clmul_assoc(g, k, q);
    assert(clmul(g, clmul(k, q)) == clmul(y, q));
}

/// Every polynomial divides itself and zero.
pub proof fn lemma_divides_trivial(g: nat)
    ensures
        divides(g, g),
        divides(g, 0),
{
    lemma_clmul_one(g);
    assert(clmul(g, 1) == g);
    assert(clmul(g, 0) == 0);
}

/// Adding a polynomial of lower degree keeps the leading term.
pub proof fn lemma_pxor_keeps_top(x: nat, y: nat, k: nat)
    requires
        pow2(k) <= x < 2 * pow2(k),
        y < pow2(k),
    ensures
        pow2(k) <= pxor(x, y) < 2 * pow2(k),
{
    lemma_pow2_pos(k);
    lemma_top_bit(x, k);
    lemma_basic_div(y as int, pow2(k) as int);
    lemma_pxor_div_pow2(x, y, k);
    lemma_pxor_zero(1);
    let z = pxor(x, y);
    lemma_fundamental_div_mod(z as int, pow2(k) as int);
    lemma_mod_bound(z as int, pow2(k) as int);
}

/// The degree of a product of nonzero polynomials is the sum of their degrees.
pub proof fn lemma_clmul_degree(f: nat, g: nat)
    requires
        f > 0,
        g > 0,
    ensures
        degree(clmul(f, g)) == degree(f) + degree(g),
{
    lemma_degree_bounds(f);
    lemma_degree_bounds(g);
    lemma_clmul_top(f, g, degree(f) as nat, degree(g) as nat);
    lemma_pow2_unfold((degree(f) + degree(g) + 1) as nat);
    lemma_degree_unique(clmul(f, g), (degree(f) + degree(g)) as nat);
}

/// `x^(a+b) <= clmul(f, g) < x^(a+b+1)` for `f` of degree `a` and `g` of degree `b`.
proof fn lemma_clmul_top(f: nat, g: nat, a: nat, b: nat)
    requires
        pow2(a) <= f < pow2(a + 1),
        pow2(b) <= g < pow2(b + 1),
    ensures
        pow2(a + b) <= clmul(f, g) < 2 * pow2(a + b),
    decreases g,
{
    lemma2_to64();
    lemma_pow2_unfold(a + 1);
    if b == 0 {
        assert(g == 1);
        lemma_clmul_one(f);
    } else {
        lemma_pow2_unfold(b);
        lemma_pow2_unfold(b + 1);
        lemma_clmul_top(f, g / 2, a, (b - 1) as nat);
        let k = a + b;
        lemma_pow2_unfold(k);
        assert((a + (b - 1) as nat) as nat == (k - 1) as nat);
        let x = 2 * clmul(f, g / 2);
        if g % 2 == 1 {
            lemma_pow2_strictly_increases(a + 1, k + 1);
            if a + 1 < k {
                lemma_pow2_strictly_increases(a + 1, k);
            }
            lemma_pxor_keeps_top(x, f, k);
        } else {
            lemma_pxor_zero(x);
        }
    }
}

} // verus!
