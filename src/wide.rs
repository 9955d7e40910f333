//! Unsigned integers of 256 bits, as two `u128` halves.
use crate::calc_degree;
use crate::poly::{
    degree, lemma_degree_bounds, lemma_degree_unique, lemma_pxor_div_pow2, lemma_pxor_mod_pow2, pxor,
};
use crate::word::{lemma_bit_u128, lemma_shl_u128, lemma_word_mod, lemma_xor_is_pxor, word_mod};
use vstd::bits::lemma_u128_shr_is_div;
use vstd::arithmetic::div_mod::*;
use vstd::arithmetic::power2::*;
use vstd::prelude::*;

verus! {

/// A 256-bit unsigned integer: `lower + upper * 2^128`.
#[derive(Clone, Copy, Debug, PartialEq, Eq, Structural)]
pub struct WideInt {
    pub lower: u128,
    pub upper: u128,
}

impl WideInt {
    /// The number that the two halves stand for.
    pub open spec fn view_nat(self) -> nat {
        self.lower as nat + self.upper as nat * word_mod()
    }

    pub fn new(lower: u128, upper: u128) -> (r: WideInt)
        ensures
            r.lower == lower,
            r.upper == upper,
    {
        WideInt { lower, upper }
    }

    /// Bitwise exclusive or: the sum of the two polynomials.
    pub fn bitxor(&self, other: &WideInt) -> (r: WideInt)
        ensures
            r.lower == self.lower ^ other.lower,
            r.upper == self.upper ^ other.upper,
            r.view_nat() == pxor(self.view_nat(), other.view_nat()),
    {
        proof {
            lemma_xor_is_pxor(self.lower, other.lower);
            lemma_xor_is_pxor(self.upper, other.upper);
            lemma_pxor_halves(*self, *other);
        }
        WideInt { lower: self.lower ^ other.lower, upper: self.upper ^ other.upper }
    }

    /// Bitwise and.
    pub fn bitand(&self, other: &WideInt) -> (r: WideInt)
        ensures
            r.lower == self.lower & other.lower,
            r.upper == self.upper & other.upper,
    {
        WideInt { lower: self.lower & other.lower, upper: self.upper & other.upper }
    }

    /// Bitwise or.
    pub fn bitor(&self, other: &WideInt) -> (r: WideInt)
        ensures
            r.lower == self.lower | other.lower,
            r.upper == self.upper | other.upper,
    {
        WideInt { lower: self.lower | other.lower, upper: self.upper | other.upper }
    }

    /// Bitwise complement: `2^256 - 1 - self`.
    pub fn not(&self) -> (r: WideInt)
        ensures
            r.lower == !self.lower,
            r.upper == !self.upper,
            r.view_nat() == pow2(256) - 1 - self.view_nat(),
    {
        proof {
            let l = self.lower;
            let u = self.upper;
            assert(!l == 0xffff_ffff_ffff_ffff_ffff_ffff_ffff_ffffu128 - l) by (bit_vector);
            assert(!u == 0xffff_ffff_ffff_ffff_ffff_ffff_ffff_ffffu128 - u) by (bit_vector);
            lemma_word_mod();
            lemma_pow2_adds(128, 128);
            assert(pow2(256) == word_mod() * word_mod());
            assert((word_mod() - 1 - l) + (word_mod() - 1 - u) * word_mod() == word_mod() * word_mod()
                - 1 - (l + u * word_mod())) by (nonlinear_arith);
        }
        WideInt { lower: !self.lower, upper: !self.upper }
    }

    /// Shift left by `n` bits; bits past 256 are lost.
    pub fn shl(&self, n: u32) -> (r: WideInt)
        ensures
            n < 256 ==> r.view_nat() == (self.view_nat() * pow2(n as nat)) % pow2(256),
            n >= 256 ==> r.view_nat() == 0,
    {
        let lower = self.lower;
        let upper = self.upper;
        proof {
            lemma_word_mod();
            lemma_pow2_adds(128, 128);
            lemma_pow2_pos(n as nat);
        }
        if n >= 256 {
            WideInt { lower: 0, upper: 0 }
        } else if n >= 128 {
            let k = n - 128;
            let r = WideInt { lower: 0, upper: lower << k };
            proof {
                lemma_shl_u128(lower, k);
                lemma_shl_high(*self, n as nat);
            }
            r
        } else if n == 0 {
            proof {
                lemma_wide_bound(*self);
                lemma2_to64();
                lemma_small_mod(self.view_nat(), pow2(256));
            }
            *self
        } else {
            let r = WideInt { lower: lower << n, upper: (upper << n) | (lower >> (128 - n)) };
            proof {
                lemma_shl_u128(lower, n);
                lemma_shl_u128(upper, n);
                lemma_u128_shr_is_div(lower, (128 - n) as u128);
                assert(lower >> (128 - n) as u32 == lower >> (128 - n) as u128) by (bit_vector)
                    requires
                        0 < n < 128,
                ;
                assert((upper << n) | (lower >> (128 - n) as u32) == (upper << n) + (lower >> (128
                    - n) as u32)) by (bit_vector)
                    requires
                        0 < n < 128,
                ;
                lemma_wide_bound(r);
                lemma_shl_low(*self, r, n as nat);
            }
            r
        }
    }

    /// Shift right by `n` bits.
    pub fn shr(&self, n: u32) -> (r: WideInt)
        ensures
            r.view_nat() == self.view_nat() / pow2(n as nat),
    {
        let lower = self.lower;
        let upper = self.upper;
        proof {
            lemma_word_mod();
            lemma_pow2_adds(128, 128);
            lemma_pow2_pos(n as nat);
            lemma_wide_bound(*self);
        }
        if n >= 256 {
            proof {
                if n > 256 {
                    lemma_pow2_strictly_increases(256, n as nat);
                }
                lemma_basic_div(self.view_nat() as int, pow2(n as nat) as int);
            }
            WideInt { lower: 0, upper: 0 }
        } else if n >= 128 {
            let k = n - 128;
            proof {
                lemma_u128_shr_is_div(upper, k as u128);
                assert(upper >> k == upper >> k as u128) by (bit_vector)
                    requires
                        k < 128,
                ;
                lemma_pow2_adds(128, k as nat);
                lemma_pow2_pos(k as nat);
                lemma_div_denominator(self.view_nat() as int, word_mod() as int, pow2(k as nat) as int);
                lemma_fundamental_div_mod_converse(
                    self.view_nat() as int,
                    word_mod() as int,
                    upper as int,
                    lower as int,
                );
                assert(pow2(n as nat) == word_mod() * pow2(k as nat));
                assert(self.view_nat() / word_mod() == upper);
            }
            WideInt { lower: upper >> k, upper: 0 }
        } else if n == 0 {
            proof {
                lemma2_to64();
                assert(self.view_nat() / 1 == self.view_nat());
            }
            *self
        } else {
            let r = WideInt { lower: (lower >> n) | (upper << (128 - n)), upper: upper >> n };
            proof {
                lemma_shl_u128(upper, (128 - n) as u32);
                lemma_u128_shr_is_div(lower, n as u128);
                lemma_u128_shr_is_div(upper, n as u128);
                assert(lower >> n == lower >> n as u128 && upper >> n == upper >> n as u128) by (
                bit_vector)
                    requires
                        0 < n < 128,
                ;
                assert((lower >> n) | (upper << (128 - n) as u32) == (lower >> n) + (upper << (128
                    - n) as u32)) by (bit_vector)
                    requires
                        0 < n < 128,
                ;
                lemma_shr_low(*self, r, n as nat);
            }
            r
        }
    }

    /// `v * 2^shift` in 256 bits; zero once `shift` reaches 256.
    pub fn widen(v: u128, shift: u32) -> (r: WideInt)
        ensures
            shift < 256 ==> r.view_nat() == (v as nat * pow2(shift as nat)) % pow2(256),
            shift >= 256 ==> r.view_nat() == 0,
    {
        let w = WideInt { lower: v, upper: 0 };
        w.shl(shift)
    }

    /// Index of the highest set bit, or -1 for zero.
    pub fn degree(&self) -> (r: i32)
        ensures
            r as int == degree(self.view_nat()),
            -1 <= r <= 255,
    {
        if self.upper != 0 {
            let d = calc_degree(self.upper);
            proof {
                lemma_degree_of_halves(*self);
            }
            128 + d as i32
        } else {
            let d = calc_degree(self.lower);
            d as i32
        }
    }

    /// Bit `k` of the number.
    pub fn bit(&self, k: u32) -> (r: u128)
        requires
            k < 256,
        ensures
            r as nat == (self.view_nat() / pow2(k as nat)) % 2,
    {
        proof {
            lemma_bit_of_halves(self.lower, self.upper, k as nat);
        }
        if k >= 128 {
            proof {
                lemma_bit_u128(self.upper, (k - 128) as u32);
            }
            (self.upper >> (k - 128)) & 1
        } else {
            proof {
                lemma_bit_u128(self.lower, k);
            }
            (self.lower >> k) & 1
        }
    }

    /// Shifts the number left by one bit and sets bit 0 to `b`.
    pub fn push_bit(&self, b: u128) -> (r: WideInt)
        requires
            b <= 1,
            self.view_nat() < pow2(255),
        ensures
            r.view_nat() == 2 * self.view_nat() + b,
    {
        let lower = self.lower;
        let upper = self.upper;
        proof {
            lemma_word_mod();
            lemma_upper_bound(lower, upper);
            assert(lower == (lower >> 127u32) * 0x8000_0000_0000_0000_0000_0000_0000_0000u128 + (lower
                & 0x7fff_ffff_ffff_ffff_ffff_ffff_ffff_ffffu128)) by (bit_vector);
            assert(b <= 1 ==> ((lower << 1u32) | b) == 2 * (lower
                & 0x7fff_ffff_ffff_ffff_ffff_ffff_ffff_ffffu128) + b) by (bit_vector);
            assert(lower >> 127u32 <= 1) by (bit_vector);
            let h = lower >> 127u32;
            assert(upper < 0x8000_0000_0000_0000_0000_0000_0000_0000u128 && h <= 1 ==> ((upper
                << 1u32) | h) == 2 * upper + h) by (bit_vector);
        }
        WideInt { lower: (lower << 1) | b, upper: (upper << 1) | (lower >> 127) }
    }
}

/// With a nonzero upper half, the degree is 128 more than that of the upper half.
proof fn lemma_degree_of_halves(w: WideInt)
    requires
        w.upper != 0,
    ensures
        degree(w.view_nat()) == 128 + degree(w.upper as nat),
{
    let u = w.upper as nat;
    let m = word_mod();
    let d = degree(u) as nat;
    lemma_word_mod();
    lemma_degree_bounds(u);
    lemma_pow2_adds(128, d);
    lemma_pow2_adds(128, d + 1);
    assert(pow2(d) * m <= w.view_nat() < pow2(d + 1) * m) by (nonlinear_arith)
        requires
            pow2(d) <= u < pow2(d + 1),
            w.view_nat() == w.lower + u * m,
            w.lower < m,
    ;
    lemma_degree_unique(w.view_nat(), 128 + d);
}

/// The sum of two 256-bit polynomials is the sum of their halves.
proof fn lemma_pxor_halves(a: WideInt, b: WideInt)
    ensures
        pxor(a.view_nat(), b.view_nat()) == pxor(a.lower as nat, b.lower as nat) + pxor(
            a.upper as nat,
            b.upper as nat,
        ) * word_mod(),
{
    lemma_word_mod();
    let m = word_mod();
    lemma_pxor_div_pow2(a.view_nat(), b.view_nat(), 128);
    lemma_pxor_mod_pow2(a.view_nat(), b.view_nat(), 128);
    lemma_fundamental_div_mod_converse(a.view_nat() as int, m as int, a.upper as int, a.lower as int);
    lemma_fundamental_div_mod_converse(b.view_nat() as int, m as int, b.upper as int, b.lower as int);
    let x = pxor(a.view_nat(), b.view_nat());
    lemma_fundamental_div_mod(x as int, m as int);
}

/// Left shift by `n` in `128..256`: the lower half moves into the upper half.
proof fn lemma_shl_high(w: WideInt, n: nat)
    requires
        128 <= n < 256,
    ensures
        (w.lower as nat * pow2((n - 128) as nat)) % word_mod() * word_mod() == (w.view_nat() * pow2(n))
            % pow2(256),
{
    let m = word_mod() as int;
    let k = (n - 128) as nat;
    let e = pow2(k) as int;
    lemma_word_mod();
    lemma_pow2_adds(128, k);
    lemma_pow2_adds(128, 128);
    lemma_pow2_pos(k);
    let x = w.lower * e;
    let q = x / m;
    let r = x % m;
    lemma_fundamental_div_mod(x, m);
    lemma_mod_bound(x, m);
    assert(w.view_nat() * pow2(n) == (q + w.upper * e) * (m * m) + r * m) by (nonlinear_arith)
        requires
            w.view_nat() == w.lower + w.upper * m,
            pow2(n) == m * e,
            x == w.lower * e,
            x == m * q + r,
    ;
    assert(0 <= r * m < m * m) by (nonlinear_arith)
        requires
            0 <= r < m,
    ;
    lemma_fundamental_div_mod_converse(
        (w.view_nat() * pow2(n)) as int,
        m * m,
        q + w.upper * e,
        r * m,
    );
}

/// Left shift by `n` in `1..128`, from the shifted halves.
proof fn lemma_shl_low(w: WideInt, r: WideInt, n: nat)
    requires
        0 < n < 128,
        r.lower as nat == (w.lower as nat * pow2(n)) % word_mod(),
        r.upper as nat == (w.upper as nat * pow2(n)) % word_mod() + w.lower as nat / pow2(
            (128 - n) as nat,
        ),
        r.view_nat() < pow2(256),
    ensures
        r.view_nat() == (w.view_nat() * pow2(n)) % pow2(256),
{
    let m = word_mod() as int;
    let e = pow2(n) as int;
    let f = pow2((128 - n) as nat) as int;
    lemma_word_mod();
    lemma_pow2_adds(n, (128 - n) as nat);
    lemma_pow2_adds(128, 128);
    lemma_pow2_pos(n);
    lemma_pow2_pos((128 - n) as nat);
    let lo = w.lower as int;
    let up = w.upper as int;
    lemma_div_multiples_vanish_quotient(e, lo, f);
    assert(e * lo == lo * e && e * f == m) by (nonlinear_arith)
        requires
            e * f == m,
    ;
    lemma_fundamental_div_mod(lo * e, m);
    lemma_fundamental_div_mod(up * e, m);
    let qu = (up * e) / m;
    let x = (up * e) % m;
    let y = (lo * e) % m;
    let h = lo / f;
    assert((lo + up * m) * e == lo * e + (up * e) * m) by (nonlinear_arith);
    assert((up * e) * m == qu * (m * m) + x * m) by (nonlinear_arith)
        requires
            up * e == m * qu + x,
    ;
    assert(m * h == h * m) by (nonlinear_arith);
    assert((x + h) * m == x * m + h * m) by (nonlinear_arith);
    assert(w.view_nat() * e == r.view_nat() + qu * (m * m));
    lemma_fundamental_div_mod_converse(w.view_nat() * e, m * m, qu, r.view_nat() as int);
}

/// Right shift by `n` in `1..128`, from the shifted halves.
proof fn lemma_shr_low(w: WideInt, r: WideInt, n: nat)
    requires
        0 < n < 128,
        r.lower as nat == w.lower as nat / pow2(n) + (w.upper as nat * pow2((128 - n) as nat))
            % word_mod(),
        r.upper as nat == w.upper as nat / pow2(n),
    ensures
        r.view_nat() == w.view_nat() / pow2(n),
{
    let m = word_mod() as int;
    let e = pow2(n) as int;
    let f = pow2((128 - n) as nat) as int;
    lemma_word_mod();
    lemma_pow2_adds((128 - n) as nat, n);
    lemma_pow2_pos(n);
    lemma_pow2_pos((128 - n) as nat);
    let lo = w.lower as int;
    let up = w.upper as int;
    lemma_div_multiples_vanish_quotient(f, up, e);
    assert(f * up == up * f && f * e == m) by (nonlinear_arith)
        requires
            f * e == m,
    ;
    lemma_fundamental_div_mod(up * f, m);
    lemma_fundamental_div_mod(lo, e);
    lemma_mod_bound(lo, e);
    assert(r.view_nat() == lo / e + up * f) by (nonlinear_arith)
        requires
            r.view_nat() == r.lower + r.upper * m,
            r.lower == lo / e + (up * f) % m,
            r.upper == up / e,
            up * f == m * (up / e) + (up * f) % m,
    ;
    assert(w.view_nat() == (lo / e + up * f) * e + lo % e) by (nonlinear_arith)
        requires
            w.view_nat() == lo + up * m,
            lo == e * (lo / e) + lo % e,
            f * e == m,
    ;
    lemma_fundamental_div_mod_converse(w.view_nat() as int, e, lo / e + up * f, lo % e);
}

/// Bit `k` of `lower + upper * 2^128` is bit `k` of `lower`, or bit `k - 128` of `upper`.
proof fn lemma_bit_of_halves(lower: u128, upper: u128, k: nat)
    requires
        k < 256,
    ensures
        k >= 128 ==> ((lower as nat + upper as nat * word_mod()) / pow2(k)) % 2 == (upper as nat
            / pow2((k - 128) as nat)) % 2,
        k < 128 ==> ((lower as nat + upper as nat * word_mod()) / pow2(k)) % 2 == (lower as nat
            / pow2(k)) % 2,
{
    let v = lower as nat + upper as nat * word_mod();
    lemma_word_mod();
    lemma_pow2_pos(k);
    if k >= 128 {
        let j = (k - 128) as nat;
        lemma_pow2_adds(128, j);
        lemma_pow2_pos(j);
        lemma_div_denominator(v as int, word_mod() as int, pow2(j) as int);
        lemma_fundamental_div_mod_converse(v as int, word_mod() as int, upper as int, lower as int);
    } else {
        let j = (128 - k) as nat;
        lemma_pow2_adds(k, j);
        lemma_pow2_pos(j);
        lemma_pow2_unfold(j);
        let d = pow2(k);
        let q = lower as nat / d;
        let r = lower as nat % d;
        lemma_fundamental_div_mod(lower as int, d as int);
        lemma_mod_bound(lower as int, d as int);
        let e = pow2((j - 1) as nat);
        assert(v == (2 * (upper * e) + q) * d + r) by (nonlinear_arith)
            requires
                v == lower as nat + upper as nat * word_mod(),
                word_mod() == d * pow2(j),
                pow2(j) == 2 * e,
                lower == d * q + r,
        ;
        lemma_fundamental_div_mod_converse(v as int, d as int, 2 * (upper * e) + q, r as int);
    }
}

/// Two halves hold less than `2^256`.
pub proof fn lemma_wide_bound(w: WideInt)
    ensures
        w.view_nat() < pow2(256),
{
    lemma_word_mod();
    lemma_pow2_adds(128, 128);
    assert(w.view_nat() < word_mod() * word_mod()) by (nonlinear_arith)
        requires
            w.lower < word_mod(),
            w.upper < word_mod(),
            w.view_nat() == w.lower as nat + w.upper as nat * word_mod(),
    ;
}

/// A number below `2^255` has its upper half below `2^127`.
proof fn lemma_upper_bound(lower: u128, upper: u128)
    requires
        lower as nat + upper as nat * word_mod() < pow2(255),
    ensures
        upper < 0x8000_0000_0000_0000_0000_0000_0000_0000u128,
{
    lemma_word_mod();
    lemma2_to64();
    lemma2_to64_rest();
    lemma_pow2_adds(64, 63);
    lemma_pow2_adds(127, 128);
    if upper >= 0x8000_0000_0000_0000_0000_0000_0000_0000u128 {
        assert(upper as nat * word_mod() >= pow2(127) * word_mod()) by (nonlinear_arith)
            requires
                upper as nat >= pow2(127),
        ;
    }
}

} // verus!
