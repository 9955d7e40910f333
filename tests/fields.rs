use galois_field_2pm::gf2::Gf2;
use galois_field_2pm::gf2_lut::{Gf2Lut, GaloisFieldLut};
use galois_field_2pm::{FieldElement, FieldError, GaloisField};

const SMALL_POLYS: [u128; 4] = [0x3, 0x7, 0xB, 0x13];
const BYTE_POLYS: [u128; 4] = [0x25, 0x43, 0x83, 0x11D];

fn el(v: u128) -> FieldElement {
    FieldElement::new(v)
}

/// Deterministic values spread over `1..n`.
fn spread(n: u128, count: usize, seed: u128) -> Vec<FieldElement> {
    let mut out = Vec::new();
    let mut s = seed;
    for _ in 0..count {
        s = s.wrapping_mul(6364136223846793005).wrapping_add(1442695040888963407);
        out.push(el(1 + (s >> 64) % (n - 1)));
    }
    out
}

fn check_field_exhaustive<F: GaloisField>(f: &F) {
    let n = f.num_elem();
    let zero = f.zero();
    let one = f.one();
    for i in 0..n {
        let a = el(i);
        assert!(!f.validate(&a));
        assert_eq!(f.add(a, zero), a);
        assert_eq!(f.mul(a, one), a);
        assert_eq!(f.add(a, a), zero);
        assert_eq!(f.sub(a, a), zero);
        if i != 0 {
            let inv = f.inverse(a).unwrap();
            assert_eq!(f.mul(a, inv), one);
            assert_eq!(f.div(a, a), Ok(one));
        }
        for j in 0..n {
            let b = el(j);
            assert!(f.add(a, b).value < n);
            assert!(f.mul(a, b).value < n);
            assert_eq!(f.add(a, b), f.add(b, a));
            assert_eq!(f.mul(a, b), f.mul(b, a));
            for k in 0..n {
                let c = el(k);
                assert_eq!(f.add(f.add(a, b), c), f.add(a, f.add(b, c)));
                assert_eq!(f.mul(f.mul(a, b), c), f.mul(a, f.mul(b, c)));
                assert_eq!(f.mul(a, f.add(b, c)), f.add(f.mul(a, b), f.mul(a, c)));
            }
        }
    }
    assert!(f.validate(&el(n)));
}

fn check_field_spot<F: GaloisField>(f: &F, seed: u128) {
    let n = f.num_elem();
    let a = spread(n, 12, seed);
    let b = spread(n, 12, seed + 1);
    let c = spread(n, 12, seed + 2);
    for x in &a {
        assert_eq!(f.add(*x, f.zero()), *x);
        assert_eq!(f.mul(*x, f.one()), *x);
        assert_eq!(f.add(*x, *x), f.zero());
        let inv = f.inverse(*x).unwrap();
        assert_eq!(f.mul(*x, inv), f.one());
        assert_eq!(f.div(*x, *x), Ok(f.one()));
        for y in &b {
            assert_eq!(f.mul(*x, *y), f.mul(*y, *x));
            assert!(f.mul(*x, *y).value < n);
            for z in &c {
                assert_eq!(f.mul(f.mul(*x, *y), *z), f.mul(*x, f.mul(*y, *z)));
                assert_eq!(f.mul(*x, f.add(*y, *z)), f.add(f.mul(*x, *y), f.mul(*x, *z)));
            }
        }
    }
}

#[test]
fn gf2_small_fields_exhaustive() {
    for p in SMALL_POLYS {
        check_field_exhaustive(&Gf2::new(p));
    }
}

#[test]
fn gf2_lut_small_fields_exhaustive() {
    for p in SMALL_POLYS {
        check_field_exhaustive(&Gf2Lut::new(p).unwrap());
    }
}

#[test]
fn gf2_lut_byte_fields_exhaustive() {
    for p in BYTE_POLYS {
        check_field_exhaustive(&Gf2Lut::new(p).unwrap());
    }
}

#[test]
fn gf2_byte_fields_spot() {
    for p in BYTE_POLYS {
        check_field_spot(&Gf2::new(p), p);
    }
}

#[test]
fn gf2_wide_fields_spot() {
    for p in [
        0x211u128,
        0x409,
        0x805,
        0x1053,
        0x20009,
        0x2_0000_2001,
        0x2_0000_0000_0004_0001,
        0x8000_0000_0000_0000_0000_0000_0000_0003,
    ] {
        check_field_spot(&Gf2::new(p), p);
    }
}

#[test]
fn gf2_lut_wide_fields_spot() {
    for p in [0x211u128, 0x409, 0x805, 0x1053] {
        check_field_spot(&Gf2Lut::new(p).unwrap(), p);
    }
}

#[test]
fn known_aes_products() {
    // The field of AES, x^8 + x^4 + x^3 + x + 1.
    let f = Gf2::new(0x11B);
    assert_eq!(f.mul(el(0x57), el(0x83)), el(0xC1));
    assert_eq!(f.mul(el(0x57), el(0x13)), el(0xFE));
    assert_eq!(f.inverse(el(0x53)), Ok(el(0xCA)));
    assert_eq!(f.div(el(0xC1), el(0x83)), Ok(el(0x57)));
}

#[test]
fn known_products_in_gf8() {
    // x^3 + x + 1: x * x^2 = x^3 = x + 1, and x^2 * x^2 = x^4 = x^2 + x.
    for f in [Gf2Lut::new(0xB).unwrap()] {
        assert_eq!(f.mul(el(2), el(4)), el(3));
        assert_eq!(f.mul(el(4), el(4)), el(6));
        assert_eq!(f.inverse(el(2)), Ok(el(5)));
    }
    let g = Gf2::new(0xB);
    assert_eq!(g.mul(el(2), el(4)), el(3));
    assert_eq!(g.mul(el(4), el(4)), el(6));
    assert_eq!(g.inverse(el(2)), Ok(el(5)));
}

#[test]
fn largest_field_products() {
    // x^127 + x + 1: x^126 * x = x^127 = x + 1.
    let f = Gf2::new(0x8000_0000_0000_0000_0000_0000_0000_0003);
    let top = el(0x4000_0000_0000_0000_0000_0000_0000_0000);
    assert_eq!(f.mul(top, el(2)), el(3));
    assert_eq!(f.num_elem(), 0x8000_0000_0000_0000_0000_0000_0000_0000);
    assert_eq!(f.degree(), 127);
    let inv = f.inverse(top).unwrap();
    assert_eq!(f.mul(top, inv), f.one());
}

#[test]
fn divide_by_zero_fails() {
    let f = Gf2::new(0x11D);
    assert_eq!(f.div(f.one(), f.zero()), Err(FieldError::DivideByZero));
    assert_eq!(f.inverse(f.zero()), Err(FieldError::DivideByZero));
    let g = Gf2Lut::new(0x11D).unwrap();
    assert_eq!(g.div(g.one(), g.zero()), Err(FieldError::DivideByZero));
    assert_eq!(g.inverse(g.zero()), Err(FieldError::DivideByZero));
    assert_eq!(g.div(g.zero(), el(7)), Ok(g.zero()));
}

#[test]
fn backends_agree_on_byte_fields() {
    for p in BYTE_POLYS {
        let f = Gf2::new(p);
        let g = Gf2Lut::new(p).unwrap();
        let n = f.num_elem();
        assert_eq!(n, g.num_elem());
        for i in 0..n {
            let a = el(i);
            assert_eq!(f.inverse(a), g.inverse(a));
            for j in 0..n {
                let b = el(j);
                assert_eq!(f.mul(a, b), g.mul(a, b));
            }
        }
        for a in spread(n, 16, p) {
            for j in 0..n {
                assert_eq!(f.div(a, el(j)), g.div(a, el(j)));
            }
        }
    }
}

#[test]
fn assign_operators() {
    let f = Gf2::new(0x11B);
    let mut a = el(0x57);
    f.mul_assign(&mut a, el(0x83));
    assert_eq!(a, el(0xC1));
    f.add_assign(&mut a, el(0x01));
    assert_eq!(a, el(0xC0));
    f.sub_assign(&mut a, el(0xC0));
    assert_eq!(a, el(0));
    let mut b = el(0xC1);
    assert_eq!(f.div_assign(&mut b, el(0x83)), Ok(()));
    assert_eq!(b, el(0x57));
    assert_eq!(f.div_assign(&mut b, el(0)), Err(FieldError::DivideByZero));
    assert_eq!(b, el(0x57));
}

#[test]
fn field_constants() {
    let f = Gf2::new(0x11D);
    assert_eq!(f.degree(), 8);
    assert_eq!(f.num_elem(), 256);
    assert_eq!(f.zero().value, 0);
    assert_eq!(f.one().value, 1);
    assert!(f.validate(&el(256)));
    assert!(!f.validate(&el(255)));
    assert_eq!(f.poly(), 0x11D);
    let g = Gf2Lut::new(0x13).unwrap();
    assert_eq!(g.degree(), 4);
    assert_eq!(g.num_elem(), 16);
    assert_eq!(g.alpha(), el(2));
}

#[test]
fn hex_formatting_is_fixed_width() {
    assert_eq!(Gf2::new(0x11D).to_hex_string(&el(0x1D)), "0x1D");
    assert_eq!(Gf2::new(0x11D).to_hex_string(&el(0x7)), "0x07");
    assert_eq!(Gf2::new(0xB).to_hex_string(&el(5)), "0x5");
    assert_eq!(Gf2Lut::new(0x13).unwrap().to_hex_string(&el(0xA)), "0xA");
    assert_eq!(Gf2Lut::new(0x211).unwrap().to_hex_string(&el(0x1F)), "0x01F");
    let big = Gf2::new(0x8000_0000_0000_0000_0000_0000_0000_0003);
    assert_eq!(big.to_hex_string(&el(1)), format!("0x{}1", "0".repeat(31)));
}
