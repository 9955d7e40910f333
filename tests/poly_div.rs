use galois_field_2pm::poly_div::{poly_div, poly_div_wide};
use galois_field_2pm::wide::WideInt;
use galois_field_2pm::FieldError;

#[test]
fn poly_div_small() {
    // x^3 + x + 1 = (x + 1)(x^2 + x) + 1
    assert_eq!(poly_div(0b1011, 0b11), Ok((0b110, 0b1)));
    // x^4 + 1 = (x + 1)(x^3 + x^2 + x + 1)
    assert_eq!(poly_div(0b10001, 0b11), Ok((0b1111, 0)));
}

#[test]
fn poly_div_by_one_and_zero() {
    assert_eq!(poly_div(0x1234, 1), Ok((0x1234, 0)));
    assert_eq!(poly_div(0x1234, 0), Err(FieldError::DivisorZero));
    assert_eq!(poly_div(0, 0x11D), Ok((0, 0)));
}

#[test]
fn poly_div_lower_degree_dividend() {
    assert_eq!(poly_div(0x5, 0x11D), Ok((0, 0x5)));
}

#[test]
fn poly_div_top_degree() {
    let p: u128 = 0x8000_0000_0000_0000_0000_0000_0000_0003;
    assert_eq!(poly_div(p, p), Ok((1, 0)));
    assert_eq!(poly_div(u128::MAX, p), Ok((1, u128::MAX ^ p)));
}

#[test]
fn poly_div_wide_reduces_product() {
    // x^128 = x + 1 modulo x^128 + x + 1, which does not fit; use x^127 + x + 1 instead:
    // x^128 = x^2 + x modulo x^127 + x + 1.
    let p: u128 = 0x8000_0000_0000_0000_0000_0000_0000_0003;
    let x128 = WideInt::new(0, 1);
    let (q, r) = poly_div_wide(&x128, p).unwrap();
    assert_eq!(r, 0b110);
    assert_eq!(q, WideInt::new(0b10, 0));
    assert_eq!(poly_div_wide(&x128, 0), Err(FieldError::DivisorZero));
}

#[test]
fn poly_div_wide_small_dividend() {
    let w = WideInt::new(0b1011, 0);
    let (q, r) = poly_div_wide(&w, 0b11).unwrap();
    assert_eq!(q, WideInt::new(0b110, 0));
    assert_eq!(r, 1);
}
