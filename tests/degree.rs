use galois_field_2pm::calc_degree;

#[test]
fn calc_degree_test() {
    assert_eq!(calc_degree(0), -1);
    for i in 0..=127 {
        assert_eq!(calc_degree(1u128 << i), i);
    }
}

#[test]
fn calc_degree_of_mixed_bits() {
    assert_eq!(calc_degree(1), 0);
    assert_eq!(calc_degree(0xB), 3);
    assert_eq!(calc_degree(0x11D), 8);
    assert_eq!(calc_degree(u128::MAX), 127);
}
