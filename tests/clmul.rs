use galois_field_2pm::gf2::clmul::CarryLessMultiply;

#[test]
fn clmul_u8_splits_product() {
    assert_eq!(0xFu8.clmul_low(0x81), 0x8F);
    assert_eq!(0xFu8.clmul_high(0x81), 0x07);
}

#[test]
fn clmul_u16_splits_product() {
    assert_eq!(0xFu16.clmul_low(0x8001), 0x800F);
    assert_eq!(0xFu16.clmul_high(0x8001), 0x7);
}

#[test]
fn clmul_u32_and_u64() {
    assert_eq!(0xFu32.clmul_low(0x8000_0001), 0x8000_000F);
    assert_eq!(0xFu32.clmul_high(0x8000_0001), 0x7);
    assert_eq!(0xFu64.clmul_low(0x8000_0000_0000_0001), 0x8000_0000_0000_000F);
    assert_eq!(0xFu64.clmul_high(0x8000_0000_0000_0001), 0x7);
}

#[test]
fn clmul_u128_splits_product() {
    let a: u128 = 0xF;
    let b: u128 = 0x8000_0000_0000_0000_0000_0000_0000_0001;
    assert_eq!(a.clmul_low(b), 0x8000_0000_0000_0000_0000_0000_0000_000F);
    assert_eq!(a.clmul_high(b), 0x7);
}

#[test]
fn clmul_has_no_carries() {
    // (x + 1)^2 = x^2 + 1 over GF(2), where an integer product would give 9.
    assert_eq!(3u8.clmul_low(3), 5);
    assert_eq!(3u8.clmul_high(3), 0);
    assert_eq!(0xFFu8.clmul_low(0xFF), 0x55);
    assert_eq!(0xFFu8.clmul_high(0xFF), 0x55);
}
