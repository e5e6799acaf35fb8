use pyarraypool::decimal::u64_to_string;

#[test]
fn test_decimal_rendering() {
    assert_eq!(u64_to_string(0), "0");
    assert_eq!(u64_to_string(7), "7");
    assert_eq!(u64_to_string(10), "10");
    assert_eq!(u64_to_string(42), "42");
    assert_eq!(u64_to_string(10240), "10240");
    assert_eq!(u64_to_string(u64::MAX), "18446744073709551615");
}
