use galois_field_2pm::wide::WideInt;

#[test]
fn wide_bits() {
    let w = WideInt::new(0b101, 0x8000_0000_0000_0000_0000_0000_0000_0001);
    assert_eq!(w.bit(0), 1);
    assert_eq!(w.bit(1), 0);
    assert_eq!(w.bit(2), 1);
    assert_eq!(w.bit(128), 1);
    assert_eq!(w.bit(129), 0);
    assert_eq!(w.bit(255), 1);
}

#[test]
fn wide_push_bit_crosses_halves() {
    let w = WideInt::new(0x8000_0000_0000_0000_0000_0000_0000_0000, 0x1);
    assert_eq!(w.push_bit(1), WideInt::new(1, 0x3));
    assert_eq!(WideInt::new(0, 0).push_bit(0), WideInt::new(0, 0));
}

const TOP: u128 = 0x8000_0000_0000_0000_0000_0000_0000_0000;

#[test]
fn wide_shift_left() {
    assert_eq!(WideInt::new(1, 0).shl(128), WideInt::new(0, 1));
    assert_eq!(WideInt::new(1, 0).shl(255), WideInt::new(0, TOP));
    assert_eq!(WideInt::new(1, 0).shl(256), WideInt::new(0, 0));
    assert_eq!(WideInt::new(TOP, 0).shl(1), WideInt::new(0, 1));
    assert_eq!(WideInt::new(3, 0).shl(127), WideInt::new(TOP, 1));
    assert_eq!(WideInt::new(5, 7).shl(0), WideInt::new(5, 7));
    assert_eq!(WideInt::new(0, TOP | 1).shl(1), WideInt::new(0, 2));
}

#[test]
fn wide_shift_right() {
    assert_eq!(WideInt::new(0, 1).shr(128), WideInt::new(1, 0));
    assert_eq!(WideInt::new(0, 1).shr(1), WideInt::new(TOP, 0));
    assert_eq!(WideInt::new(0, TOP).shr(255), WideInt::new(1, 0));
    assert_eq!(WideInt::new(u128::MAX, u128::MAX).shr(300), WideInt::new(0, 0));
    assert_eq!(WideInt::new(5, 7).shr(0), WideInt::new(5, 7));
    assert_eq!(WideInt::new(0b1100, 0b11).shr(2), WideInt::new(0b11 | (0b11 << 126), 0));
}

#[test]
fn wide_widen() {
    assert_eq!(WideInt::widen(0xF, 124), WideInt::new(0xF << 124, 0));
    assert_eq!(WideInt::widen(0xF, 126), WideInt::new(0xC000_0000_0000_0000_0000_0000_0000_0000, 0x3));
    assert_eq!(WideInt::widen(0xF, 200), WideInt::new(0, 0xF << 72));
    assert_eq!(WideInt::widen(1, 256), WideInt::new(0, 0));
}

#[test]
fn wide_bitwise() {
    let a = WideInt::new(0b1100, 0b1010);
    let b = WideInt::new(0b1010, 0b0110);
    assert_eq!(a.bitxor(&b), WideInt::new(0b0110, 0b1100));
    assert_eq!(a.bitand(&b), WideInt::new(0b1000, 0b0010));
    assert_eq!(a.bitor(&b), WideInt::new(0b1110, 0b1110));
    assert_eq!(WideInt::new(0, u128::MAX).not(), WideInt::new(u128::MAX, 0));
    assert_eq!(a, WideInt::new(0b1100, 0b1010));
    assert_ne!(a, b);
}

#[test]
fn wide_degree() {
    assert_eq!(WideInt::new(0, 0).degree(), -1);
    assert_eq!(WideInt::new(1, 0).degree(), 0);
    assert_eq!(WideInt::new(u128::MAX, 0).degree(), 127);
    assert_eq!(WideInt::new(0, 1).degree(), 128);
    assert_eq!(WideInt::new(5, TOP).degree(), 255);
}
