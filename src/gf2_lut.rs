//! The table backend: products and quotients through discrete logarithms.
//!
//! The element `x` (value 2) generates the multiplicative group of a field whose
//! polynomial is primitive. A table of its powers, built by a linear-feedback
//! shift register, and the inverse table of logarithms turn multiplication and
//! division into addition and subtraction of exponents modulo `2^M - 1`.
use crate::laws::{
    lemma_associative, lemma_commutative, lemma_identity, lemma_primitive_is_irreducible,
};
use crate::poly::{
    clmul, degree, fmul, irreducible, lead, lemma_clmul_one, lemma_clmul_shift_right, lemma_clmul_zero_left,
    lemma_degree_bounds, lemma_pmod_small, lemma_pmod_unfold, pmod, reduce_step,
};
use crate::word::lemma_xor_is_pxor;
use crate::{calc_degree, FieldElement, FieldError, GaloisField};
use vstd::arithmetic::div_mod::*;
use vstd::arithmetic::power2::*;
use vstd::prelude::*;

verus! {

/// `x^i` in the field defined by `p`.
pub open spec fn alpha_pow_spec(p: nat, i: nat) -> nat
    decreases i,
{
    if i == 0 {
        1
    } else {
        fmul(p, alpha_pow_spec(p, (i - 1) as nat), 2)
    }
}

/// Parity of the number of set bits.
pub open spec fn ones_parity(x: nat) -> nat
    decreases x,
{
    if x == 0 {
        0
    } else {
        (x % 2 + ones_parity(x / 2)) % 2
    }
}

/// The number of nonzero elements, `2^M - 1`.
pub open spec fn group_order(p: nat) -> nat {
    (lead(p) - 1) as nat
}

/// `p` defines a field whose nonzero elements are exactly the powers
/// `x^0 .. x^(2^M - 2)`, all distinct, with `x^(2^M - 1) = 1`: `p` is primitive.
/// Such a `p` is odd (0 is no root) and, above degree one, has an odd number of
/// terms (1 is no root; `x + 1` itself is the one primitive polynomial with root 1).
pub open spec fn lut_valid(p: nat) -> bool {
    let n = group_order(p);
    &&& 1 <= degree(p) <= 16
    &&& p % 2 == 1
    &&& degree(p) >= 2 ==> ones_parity(p) == 1
    &&& forall|i: nat| i < n ==> #[trigger] alpha_pow_spec(p, i) != 0
    &&& forall|i: nat, j: nat|
        i < n && j < n && i != j ==> #[trigger] alpha_pow_spec(p, i) != #[trigger] alpha_pow_spec(
            p,
            j,
        )
    &&& alpha_pow_spec(p, n) == 1
    &&& forall|v: nat| 1 <= v < lead(p) ==> #[trigger] is_power(p, v)
}

/// `v` is one of `x^0 .. x^(2^M - 2)`.
pub open spec fn is_power(p: nat, v: nat) -> bool {
    exists|i: nat| i < group_order(p) && #[trigger] alpha_pow_spec(p, i) == v
}

/// Powers of `x` are elements.
pub proof fn lemma_alpha_pow_bound(p: nat, i: nat)
    requires
        p >= 2,
    ensures
        alpha_pow_spec(p, i) < lead(p),
    decreases i,
{
    lemma_lead_at_least_two(p);
    if i > 0 {
        lemma_alpha_pow_bound(p, (i - 1) as nat);
        crate::poly::lemma_pmod_bound(clmul(alpha_pow_spec(p, (i - 1) as nat), 2), p);
    }
}

/// A polynomial of degree at least one has at least two elements below its leading term.
pub proof fn lemma_lead_at_least_two(p: nat)
    requires
        p >= 2,
    ensures
        lead(p) >= 2,
        degree(p) >= 1,
{
    lemma_degree_bounds(p);
    lemma2_to64();
    if degree(p) == 0 {
        assert(pow2(1) == 2);
    } else {
        lemma_pow2_unfold(degree(p) as nat);
        lemma_pow2_pos((degree(p) - 1) as nat);
    }
}

/// `x^i * x^j = x^(i+j)`.
pub proof fn lemma_alpha_pow_add(p: nat, i: nat, j: nat)
    requires
        p >= 2,
    ensures
        fmul(p, alpha_pow_spec(p, i), alpha_pow_spec(p, j)) == alpha_pow_spec(p, i + j),
    decreases j,
{
    lemma_alpha_pow_bound(p, i);
    if j == 0 {
        lemma_identity(p, alpha_pow_spec(p, i));
    } else {
        let j1 = (j - 1) as nat;
        lemma_alpha_pow_add(p, i, j1);
        lemma_associative(p, alpha_pow_spec(p, i), alpha_pow_spec(p, j1), 2);
        assert(alpha_pow_spec(p, i + j) == fmul(p, alpha_pow_spec(p, (i + j1) as nat), 2));
    }
}

/// Powers repeat with the period `n` once `x^n = 1`.
pub proof fn lemma_alpha_pow_period(p: nat, n: nat, k: nat)
    requires
        p >= 2,
        n > 0,
        alpha_pow_spec(p, n) == 1,
    ensures
        alpha_pow_spec(p, k) == alpha_pow_spec(p, k % n),
    decreases k,
{
    if k >= n {
        let k1 = (k - n) as nat;
        lemma_alpha_pow_period(p, n, k1);
        lemma_alpha_pow_add(p, n, k1);
        lemma_alpha_pow_bound(p, k1);
        lemma_commutative(p, 1, alpha_pow_spec(p, k1));
        lemma_identity(p, alpha_pow_spec(p, k1));
        lemma_mod_sub_multiple(k as int, n as int);
    } else {
        lemma_small_mod(k, n);
    }
}

proof fn lemma_mod_sub_multiple(k: int, n: int)
    requires
        n > 0,
        k >= n,
    ensures
        (k - n) % n == k % n,
{
    lemma_fundamental_div_mod(k, n);
    lemma_mod_bound(k, n);
    assert(k - n == (k / n - 1) * n + k % n) by (nonlinear_arith)
        requires
            k == n * (k / n) + k % n,
    ;
    lemma_fundamental_div_mod_converse(k - n, n, k / n - 1, k % n);
}

/// One step of the shift register multiplies by `x`.
pub proof fn lemma_shift_register_step(p: nat, v: nat)
    requires
        p >= 2,
        v < lead(p),
    ensures
        fmul(p, v, 2) == reduce_step(v, 0, p),
{
    lemma_clmul_one(v);
    lemma_clmul_shift_right(v, 1);
    lemma_pmod_unfold(2 * v, p);
    assert((2 * v) / 2 == v);
    lemma_pmod_small(v, p);
}

/// Parity of the number of set bits of `x`.
fn parity(x: u128) -> (r: u128)
    ensures
        r as nat == ones_parity(x as nat),
{
    let mut rest: u128 = x;
    let mut acc: u128 = 0;
    while rest != 0
        invariant
            acc <= 1,
            (acc + ones_parity(rest as nat)) % 2 == ones_parity(x as nat),
        decreases rest,
    {
        proof {
            assert(acc <= 1 ==> acc ^ (rest & 1) == (acc + rest % 2) % 2) by (bit_vector);
            assert(rest >> 1u32 == rest / 2) by (bit_vector);
            assert(ones_parity(rest as nat) == (rest as nat % 2 + ones_parity(rest as nat / 2)) % 2);
            assert(ones_parity(rest as nat / 2) < 2) by {
                lemma_mod_bound(((rest / 2) as nat / 2) as int, 2);
                if rest / 2 != 0 {
                    assert(ones_parity(rest as nat / 2) == (((rest / 2) as nat) % 2 + ones_parity(
                        (rest / 2) as nat / 2,
                    )) % 2);
                }
            }
        }
        acc = acc ^ (rest & 1);
        rest = rest >> 1;
    }
    acc
}

/// A field GF(2^M), `M <= 16`, defined by a primitive polynomial and computed
/// with tables of powers and logarithms of `x`.
pub struct Gf2Lut {
    poly: u128,
    m: u32,
    exp_tbl: Vec<u16>,
    log_tbl: Vec<i32>,
}

impl Gf2Lut {
    /// The defining polynomial.
    pub closed spec fn spec_poly(&self) -> nat {
        self.poly as nat
    }

    /// The tables hold the powers of `x` and their logarithms.
    pub closed spec fn tables_ok(&self) -> bool {
        let p = self.poly as nat;
        let n = group_order(p);
        &&& lut_valid(p)
        &&& p >= 2
        &&& lead(p) <= 0x1_0000
        &&& self.m as int == degree(p)
        &&& self.exp_tbl@.len() == n
        &&& self.log_tbl@.len() == lead(p)
        &&& forall|i: int| 0 <= i < n ==> #[trigger] self.exp_tbl@[i] as nat == alpha_pow_spec(p, i as nat)
        &&& self.log_tbl@[0] == -1
        &&& forall|v: int|
            1 <= v < lead(p) ==> 0 <= #[trigger] self.log_tbl@[v] < n && self.exp_tbl@[self.log_tbl@[v] as int] == v
    }

    /// The polynomial of a built table passes the validation, so it is also
    /// irreducible: the contracts that speak of an irreducible polynomial hold.
    pub proof fn lemma_tables_valid(&self)
        requires
            self.tables_ok(),
        ensures
            lut_valid(self.spec_poly()),
            irreducible(self.spec_poly()),
    {
        lemma_primitive_is_irreducible(self.poly as nat);
    }

    /// The field of the primitive polynomial `poly`, with its tables built.
    /// Refused unless `poly` has degree 1 to 16, is odd, has an odd number of
    /// terms when of degree 2 or more, and the powers of `x` run through every
    /// nonzero element before coming back to `1`.
    pub fn new(poly: u128) -> (r: Result<Gf2Lut, FieldError>)
        ensures
            lut_valid(poly as nat) <==> r is Ok,
            r is Err ==> r == Err::<Gf2Lut, FieldError>(FieldError::InvalidPolynomial),
            r is Ok ==> r->Ok_0.spec_poly() == poly && r->Ok_0.tables_ok(),
    {
        let ghost p = poly as nat;
        let d = calc_degree(poly);
        if d < 1 || d > 16 {
            return Err(FieldError::InvalidPolynomial);
        }
        if poly % 2 == 0 {
            return Err(FieldError::InvalidPolynomial);
        }
        if d >= 2 && parity(poly) == 0 {
            return Err(FieldError::InvalidPolynomial);
        }
        let m = d as u32;
        proof {
            crate::word::lemma_shl_u128(1, m);
            crate::word::lemma_word_mod();
            lemma_pow2_strictly_increases(m as nat, 128);
            lemma_pow2_strictly_increases(m as nat, 17);
            lemma2_to64();
            lemma_small_mod(pow2(m as nat), crate::word::word_mod());
            lemma_degree_bounds(p);
            lemma_pow2_strictly_increases(0, m as nat);
            lemma_lead_at_least_two(p);
        }
        let size = (1u128 << m) as usize;
        let n: usize = size - 1;
        let mut log_tbl: Vec<i32> = Vec::new();
        let mut k: usize = 0;
        while k < size
            invariant
                k <= size,
                log_tbl@.len() == k,
                forall|j: int| 0 <= j < k ==> log_tbl@[j] == -1,
            decreases size - k,
        {
            log_tbl.push(-1);
            k = k + 1;
        }
        let mut exp_tbl: Vec<u16> = Vec::new();
        let mut value: u128 = 1;
        let mut i: usize = 0;
        while i < n
            invariant
                p == poly,
                p >= 2,
                degree(p) == m,
                size as nat == lead(p),
                size <= 0x1_0000,
                n == size - 1,
                i <= n,
                log_tbl@.len() == size,
                exp_tbl@.len() == i,
                value as nat == alpha_pow_spec(p, i as nat),
                (value as nat) < lead(p),
                forall|j: int| 0 <= j < i ==> #[trigger] exp_tbl@[j] as nat == alpha_pow_spec(p, j as nat),
                forall|j: nat| j < i ==> #[trigger] alpha_pow_spec(p, j) != 0,
                forall|j: int| 0 <= j < i ==> #[trigger] exp_tbl@[j] < size,
                forall|j: int| 0 <= j < i ==> log_tbl@[#[trigger] exp_tbl@[j] as int] == j,
                forall|v: int|
                    0 <= v < size ==> #[trigger] log_tbl@[v] == -1 || (0 <= log_tbl@[v] < i
                        && exp_tbl@[log_tbl@[v] as int] == v),
                log_tbl@[0] == -1,
            decreases n - i,
        {
            if value == 0 {
                proof {
                    assert(alpha_pow_spec(p, i as nat) == 0);
                }
                return Err(FieldError::InvalidPolynomial);
            }
            if log_tbl[value as usize] != -1 {
                proof {
                    let j = log_tbl@[value as int];
                    assert(alpha_pow_spec(p, j as nat) == alpha_pow_spec(p, i as nat));
                    assert(!lut_valid(p));
                }
                return Err(FieldError::InvalidPolynomial);
            }
            proof {
                assert forall|j: int| 0 <= j < i implies exp_tbl@[j] != value by {
                    assert(log_tbl@[exp_tbl@[j] as int] == j);
                }
            }
            exp_tbl.push(value as u16);
            log_tbl.set(value as usize, i as i32);
            let shifted = value << 1;
            proof {
                assert(value < 0x1_0000 ==> shifted == 2 * value) by (bit_vector)
                    requires
                        shifted == value << 1u32,
                ;
                lemma_xor_is_pxor(shifted, poly);
                lemma_shift_register_step(p, value as nat);
                lemma_alpha_pow_bound(p, (i + 1) as nat);
                assert(alpha_pow_spec(p, (i + 1) as nat) == fmul(p, alpha_pow_spec(p, i as nat), 2));
            }
            value = if shifted >= size as u128 {
                shifted ^ poly
            } else {
                shifted
            };
            i = i + 1;
        }
        if value != 1 {
            proof {
                assert(i == group_order(p));
                assert(alpha_pow_spec(p, group_order(p)) != 1);
            }
            return Err(FieldError::InvalidPolynomial);
        }
        let mut v: usize = 1;
        while v < size
            invariant
                1 <= v <= size,
                p == poly,
                size as nat == lead(p),
                n == size - 1,
                log_tbl@.len() == size,
                exp_tbl@.len() == n,
                forall|w: int| 1 <= w < v ==> #[trigger] log_tbl@[w] != -1,
                forall|j: int| 0 <= j < n ==> #[trigger] exp_tbl@[j] as nat == alpha_pow_spec(p, j as nat),
                forall|j: int| 0 <= j < n ==> #[trigger] exp_tbl@[j] < size,
                forall|j: int| 0 <= j < n ==> log_tbl@[#[trigger] exp_tbl@[j] as int] == j,
            decreases size - v,
        {
            if log_tbl[v] == -1 {
                proof {
                    assert forall|j: nat| j < group_order(p) implies #[trigger] alpha_pow_spec(p, j)
                        != v by {
                        assert(exp_tbl@[j as int] as nat == alpha_pow_spec(p, j));
                        assert(exp_tbl@[j as int] < size);
                        assert(log_tbl@[exp_tbl@[j as int] as int] == j as int);
                    }
                    assert(!is_power(p, v as nat));
                }
                return Err(FieldError::InvalidPolynomial);
            }
            v = v + 1;
        }
        let lut = Gf2Lut { poly, m, exp_tbl, log_tbl };
        proof {
            lemma_pow2_strictly_increases(m as nat, 17);
            assert(lead(p) <= 0x1_0000) by {
                if m < 16 {
                    lemma_pow2_strictly_increases(m as nat, 16);
                }
            }
            assert forall|a: nat, b: nat|
                a < group_order(p) && b < group_order(p) && a != b implies #[trigger] alpha_pow_spec(p, a)
                != #[trigger] alpha_pow_spec(p, b) by {
                assert(lut.exp_tbl@[a as int] as nat == alpha_pow_spec(p, a));
                assert(lut.exp_tbl@[b as int] as nat == alpha_pow_spec(p, b));
            }
            assert forall|w: nat| 1 <= w < lead(p) implies #[trigger] is_power(p, w) by {
                let j = lut.log_tbl@[w as int];
                assert(log_tbl@[w as int] != -1);
                assert(lut.exp_tbl@[j as int] as nat == alpha_pow_spec(p, j as nat));
            }
            assert(lut_valid(p));
        }
        Ok(lut)
    }
}

/// A field computed with tables of the powers of its generator `x`.
pub trait GaloisFieldLut: GaloisField {
    /// The generator `x`, of value 2.
    fn alpha(&self) -> (r: FieldElement)
        ensures
            r.value == 2,
    ;

    /// `x^power`; the exponent is taken modulo `2^M - 1`, so it may be negative.
    fn alpha_pow(&self, power: isize) -> (r: FieldElement)
        requires
            self.wf(),
        ensures
            r.value as nat == alpha_pow_spec(
                self.field_poly(),
                (power as int % group_order(self.field_poly()) as int) as nat,
            ),
    ;

    /// The exponent `i < 2^M - 1` with `x^i == a`, or -1 for zero.
    fn log_alpha(&self, a: &FieldElement) -> (r: isize)
        requires
            self.wf(),
            a.value < lead(self.field_poly()),
        ensures
            a.value == 0 ==> r == -1,
            a.value != 0 ==> 0 <= r < group_order(self.field_poly()) && alpha_pow_spec(
                self.field_poly(),
                r as nat,
            ) == a.value,
    ;
}

impl Gf2Lut {
    /// `x^k` from the table, `k < 2^M - 1`.
    fn exp_at(&self, k: usize) -> (r: u128)
        requires
            self.tables_ok(),
            k < group_order(self.spec_poly()),
        ensures
            r as nat == alpha_pow_spec(self.spec_poly(), k as nat),
    {
        self.exp_tbl[k] as u128
    }

    /// The logarithm of a nonzero element, from the table.
    fn log_at(&self, v: u128) -> (r: usize)
        requires
            self.tables_ok(),
            1 <= v < lead(self.spec_poly()),
        ensures
            r < group_order(self.spec_poly()),
            alpha_pow_spec(self.spec_poly(), r as nat) == v,
    {
        let l = self.log_tbl[v as usize];
        proof {
            assert(0 <= self.log_tbl@[v as int] < group_order(self.poly as nat));
            assert(self.exp_tbl@[l as int] == v);
            assert(self.exp_tbl@[l as int] as nat == alpha_pow_spec(self.poly as nat, l as nat));
        }
        l as usize
    }

    /// The number of nonzero elements, `2^M - 1`.
    fn order(&self) -> (r: usize)
        requires
            self.tables_ok(),
        ensures
            r == group_order(self.spec_poly()),
            r < 0x1_0000,
            r >= 1,
    {
        proof {
            lemma_lead_at_least_two(self.poly as nat);
            lemma_pow2_strictly_increases(self.m as nat, 17);
            lemma2_to64();
        }
        self.exp_tbl.len()
    }
}

/// The product of two powers of `x`, through the exponents.
proof fn lemma_product_by_logs(p: nat, i: nat, j: nat)
    requires
        p >= 2,
        group_order(p) > 0,
        alpha_pow_spec(p, group_order(p)) == 1,
    ensures
        alpha_pow_spec(p, (i + j) % group_order(p)) == fmul(p, alpha_pow_spec(p, i), alpha_pow_spec(p, j)),
{
    lemma_alpha_pow_add(p, i, j);
    lemma_alpha_pow_period(p, group_order(p), i + j);
}

/// Zero times anything is zero.
proof fn lemma_mul_zero(p: nat, a: nat)
    ensures
        fmul(p, 0, a) == 0,
        fmul(p, a, 0) == 0,
{
    lemma_clmul_zero_left(a);
    lemma_clmul_one(a);
    assert(pmod(0, p) == 0);
}

impl GaloisField for Gf2Lut {
    open spec fn field_poly(&self) -> nat {
        self.spec_poly()
    }

    open spec fn wf(&self) -> bool {
        self.tables_ok()
    }

    fn degree(&self) -> (r: u32) {
        self.m
    }

    fn num_elem(&self) -> (r: u128) {
        proof {
            crate::word::lemma_shl_u128(1, self.m);
            crate::word::lemma_word_mod();
            lemma_pow2_strictly_increases(self.m as nat, 128);
            lemma_small_mod(pow2(self.m as nat), crate::word::word_mod());
        }
        1u128 << self.m
    }

    fn zero(&self) -> (r: FieldElement) {
        FieldElement { value: 0 }
    }

    fn one(&self) -> (r: FieldElement) {
        FieldElement { value: 1 }
    }

    fn validate(&self, a: &FieldElement) -> (r: bool) {
        a.value >= self.num_elem()
    }

    fn add(&self, a: FieldElement, b: FieldElement) -> (r: FieldElement) {
        proof {
            lemma_xor_is_pxor(a.value, b.value);
        }
        FieldElement { value: a.value ^ b.value }
    }

    fn sub(&self, a: FieldElement, b: FieldElement) -> (r: FieldElement) {
        proof {
            lemma_xor_is_pxor(a.value, b.value);
        }
        FieldElement { value: a.value ^ b.value }
    }

    fn mul(&self, a: FieldElement, b: FieldElement) -> (r: FieldElement) {
        let ghost p = self.poly as nat;
        if a.value == 0 || b.value == 0 {
            proof {
                lemma_mul_zero(p, a.value as nat);
                lemma_mul_zero(p, b.value as nat);
            }
            return FieldElement { value: 0 };
        }
        let n = self.order();
        let i = self.log_at(a.value);
        let j = self.log_at(b.value);
        proof {
            lemma_lead_at_least_two(p);
            lemma_product_by_logs(p, i as nat, j as nat);
        }
        FieldElement { value: self.exp_at((i + j) % n) }
    }

    fn div(&self, a: FieldElement, b: FieldElement) -> (r: Result<FieldElement, FieldError>) {
        let ghost p = self.poly as nat;
        if b.value == 0 {
            return Err(FieldError::DivideByZero);
        }
        proof {
            lemma_lead_at_least_two(p);
        }
        if a.value == 0 {
            proof {
                lemma_mul_zero(p, b.value as nat);
            }
            return Ok(FieldElement { value: 0 });
        }
        let n = self.order();
        let i = self.log_at(a.value);
        let j = self.log_at(b.value);
        let k = (i + n - j) % n;
        proof {
            lemma_alpha_pow_period(p, n as nat, (i + n - j) as nat);
            lemma_alpha_pow_add(p, (i + n - j) as nat, j as nat);
            lemma_alpha_pow_period(p, n as nat, (i + n) as nat);
            lemma_mod_sub_multiple((i + n) as int, n as int);
            lemma_small_mod(i as nat, n as nat);
            if i == j {
                lemma_mod_sub_multiple(n as int, n as int);
                lemma_small_mod(0, n as nat);
            }
            lemma_alpha_pow_bound(p, k as nat);
        }
        Ok(FieldElement { value: self.exp_at(k) })
    }

    fn inverse(&self, a: FieldElement) -> (r: Result<FieldElement, FieldError>) {
        let ghost p = self.poly as nat;
        if a.value == 0 {
            return Err(FieldError::DivideByZero);
        }
        let n = self.order();
        let i = self.log_at(a.value);
        let k = (n - i) % n;
        proof {
            lemma_lead_at_least_two(p);
            lemma_alpha_pow_period(p, n as nat, (n - i) as nat);
            lemma_alpha_pow_add(p, i as nat, (n - i) as nat);
            lemma_alpha_pow_bound(p, k as nat);
        }
        Ok(FieldElement { value: self.exp_at(k) })
    }
}

impl GaloisFieldLut for Gf2Lut {
    fn alpha(&self) -> (r: FieldElement) {
        FieldElement { value: 2 }
    }

    fn alpha_pow(&self, power: isize) -> (r: FieldElement) {
        let n = self.order();
        let k: usize = if power >= 0 {
            (power as usize) % n
        } else {
            let below = (-(power + 1)) as usize;
            let r = below % n;
            proof {
                let q = below as int / n as int;
                lemma_fundamental_div_mod(below as int, n as int);
                lemma_mod_bound(below as int, n as int);
                assert(power as int == (-q - 1) * n + (n - 1 - r)) by (nonlinear_arith)
                    requires
                        below as int == n * q + r,
                        below as int == -(power + 1),
                ;
                lemma_fundamental_div_mod_converse(power as int, n as int, -q - 1, n - 1 - r);
            }
            n - 1 - r
        };
        FieldElement { value: self.exp_at(k) }
    }

    fn log_alpha(&self, a: &FieldElement) -> (r: isize) {
        if a.value == 0 {
            return -1;
        }
        self.log_at(a.value) as isize
    }
}

} // verus!
