use snap_wallet::amount::parse_amount;

#[test]
fn whole_number_scales_to_nano() {
    assert_eq!(parse_amount("5"), Some(500_000_000));
    assert_eq!(parse_amount("0"), Some(0));
    assert_eq!(parse_amount("42"), Some(4_200_000_000));
}

#[test]
fn decimal_fraction_scales_to_nano() {
    assert_eq!(parse_amount("5.0"), Some(500_000_000));
    assert_eq!(parse_amount("0.1"), Some(10_000_000));
    assert_eq!(parse_amount("4.0"), Some(400_000_000));
    assert_eq!(parse_amount("1.23456789"), Some(123_456_789));
    assert_eq!(parse_amount("0.00000001"), Some(1));
}

#[test]
fn bare_dot_forms() {
    assert_eq!(parse_amount("5."), Some(500_000_000));
    assert_eq!(parse_amount(".5"), Some(50_000_000));
    assert_eq!(parse_amount("."), None);
}

#[test]
fn malformed_amounts_are_rejected() {
    assert_eq!(parse_amount(""), None);
    assert_eq!(parse_amount("abc"), None);
    assert_eq!(parse_amount("1.2.3"), None);
    assert_eq!(parse_amount("-5"), None);
    assert_eq!(parse_amount("+5"), None);
    assert_eq!(parse_amount("1e3"), None);
    assert_eq!(parse_amount("5 "), None);
    assert_eq!(parse_amount("1.234567891"), None); // nine fractional digits
}

#[test]
fn amounts_at_the_u64_boundary() {
    assert_eq!(parse_amount("184467440737.09551615"), Some(u64::MAX));
    assert_eq!(parse_amount("184467440737.09551616"), None);
    assert_eq!(parse_amount("184467440738"), None);
    assert_eq!(parse_amount("184467440737"), Some(18_446_744_073_700_000_000));
}
