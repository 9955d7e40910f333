use galois_field_2pm::gf2_lut::{Gf2Lut, GaloisFieldLut};
use galois_field_2pm::{FieldElement, FieldError, GaloisField};

const PRIMITIVE: [u128; 8] = [0x3, 0x7, 0xB, 0x13, 0x25, 0x43, 0x83, 0x11D];

#[test]
fn alpha_pow_log_alpha() {
    for p in PRIMITIVE {
        let f = Gf2Lut::new(p).unwrap();
        let n = (f.num_elem() - 1) as isize;
        assert_eq!(f.log_alpha(&f.zero()), -1);
        for i in 1..n {
            assert_eq!(f.log_alpha(&f.alpha_pow(i)), i);
        }
    }
}

#[test]
fn alpha_pow_wraps_both_ways() {
    let f = Gf2Lut::new(0x11D).unwrap();
    assert_eq!(f.alpha_pow(0), f.one());
    assert_eq!(f.alpha_pow(1), f.alpha());
    assert_eq!(f.alpha_pow(255), f.one());
    assert_eq!(f.alpha_pow(256), f.alpha());
    assert_eq!(f.alpha_pow(-1), f.alpha_pow(254));
    assert_eq!(f.alpha_pow(-255), f.one());
    assert_eq!(f.alpha_pow(-256), f.alpha_pow(254));
    assert_eq!(f.alpha_pow(isize::MIN), f.alpha_pow(isize::MIN % 255 + 255));
    assert_eq!(f.alpha_pow(8), FieldElement::new(0x1D));
}

#[test]
fn validation_rejects_roots_at_zero_and_one() {
    assert_eq!(Gf2Lut::new(0x4).err(), Some(FieldError::InvalidPolynomial));
    assert_eq!(Gf2Lut::new(0x5).err(), Some(FieldError::InvalidPolynomial));
}

#[test]
fn validation_rejects_non_primitive() {
    // x^4 + x^2 + 1 = (x^2 + x + 1)^2
    assert_eq!(Gf2Lut::new(0x15).err(), Some(FieldError::InvalidPolynomial));
    // x^4 + x^3 + x^2 + x + 1 is irreducible, but x has order 5, not 15.
    assert_eq!(Gf2Lut::new(0x1F).err(), Some(FieldError::InvalidPolynomial));
    // x^8 + x^4 + x^3 + x + 1 (AES) is irreducible, but x has order 51.
    assert_eq!(Gf2Lut::new(0x11B).err(), Some(FieldError::InvalidPolynomial));
}

#[test]
fn validation_rejects_degree_out_of_range() {
    assert_eq!(Gf2Lut::new(0).err(), Some(FieldError::InvalidPolynomial));
    assert_eq!(Gf2Lut::new(1).err(), Some(FieldError::InvalidPolynomial));
    assert_eq!(Gf2Lut::new(0x2_0000_0009).err(), Some(FieldError::InvalidPolynomial));
}

#[test]
fn validation_accepts_primitive_with_bijective_logs() {
    for p in PRIMITIVE {
        let f = Gf2Lut::new(p).unwrap();
        let n = f.num_elem();
        let mut seen = vec![false; (n - 1) as usize];
        for v in 1..n {
            let l = f.log_alpha(&FieldElement::new(v));
            assert!(l >= 0 && (l as u128) < n - 1);
            assert!(!seen[l as usize]);
            seen[l as usize] = true;
            assert_eq!(f.alpha_pow(l), FieldElement::new(v));
        }
        assert!(seen.iter().all(|s| *s));
    }
}

#[test]
fn validation_accepts_sixteen_bit_field() {
    // x^16 + x^12 + x^3 + x + 1 is primitive.
    let f = Gf2Lut::new(0x1100B).unwrap();
    assert_eq!(f.num_elem(), 0x1_0000);
    let a = FieldElement::new(0xBEEF);
    let inv = f.inverse(a).unwrap();
    assert_eq!(f.mul(a, inv), f.one());
}
