use ledger::Amount;
use ledger::AmountParseError;

#[test]
fn test_round_trip_cases() {
    for s in ["1234.5678", "1234.0001", "1234.1000", "0.5678"] {
        assert_eq!(Amount::parse(s).unwrap().format(), s);
    }
}

#[test]
fn test_fewer_decimal_digits() {
    // All four decimal digits are always written out, even when the input
    // had fewer.
    assert_eq!(Amount::parse("1234.1").unwrap().format(), "1234.1000");
}

#[test]
fn test_no_decimal_digits() {
    assert_eq!(Amount::parse("1234").unwrap().format(), "1234.0000");
}

#[test]
fn test_leading_zeroes() {
    // Leading zeroes are accepted, and dropped when formatting.
    let amount = Amount::parse("0001234.0005").unwrap();
    assert_eq!(amount, Amount::parse("1234.0005").unwrap());
    assert_eq!(amount.format(), "1234.0005");
}

#[test]
fn test_invalid_format_cases() {
    for s in ["a", "0.a", "1234.", "0.12345", "", ".", ".5", "1.2.3", "1 2"] {
        assert_eq!(Amount::parse(s), Err(AmountParseError::InvalidFormat));
    }
}

#[test]
fn test_max_value() {
    let mut s = u64::MAX.to_string();
    s.insert(s.len() - 4, '.');
    Amount::parse(s.as_str()).unwrap();
}

#[test]
fn test_too_large() {
    let mut s = (u64::MAX as u128 + 1).to_string();
    s.insert(s.len() - 4, '.');
    assert_eq!(Amount::parse(s.as_str()), Err(AmountParseError::TooLarge));
}

#[test]
fn test_fraction_scaling() {
    assert_eq!(Amount::parse("0.1").unwrap(), Amount(1000));
    assert_eq!(Amount::parse("0.12").unwrap(), Amount(1200));
    assert_eq!(Amount::parse("0.123").unwrap(), Amount(1230));
    assert_eq!(Amount::parse("0.1234").unwrap(), Amount(1234));
}

#[test]
fn test_checked_add() {
    assert_eq!(Amount(2).checked_add(Amount(3)), Some(Amount(5)));
    assert_eq!(Amount(u64::MAX).checked_add(Amount(1)), None);
    assert_eq!(Amount(u64::MAX).checked_add(Amount(0)), Some(Amount(u64::MAX)));
}

#[test]
fn test_checked_sub() {
    assert_eq!(Amount(5).checked_sub(Amount(3)), Some(Amount(2)));
    assert_eq!(Amount(3).checked_sub(Amount(5)), None);
    assert_eq!(Amount(3).checked_sub(Amount(3)), Some(Amount(0)));
}

#[test]
fn test_format_zero() {
    assert_eq!(Amount::default().format(), "0.0000");
    assert_eq!(Amount(7).format(), "0.0007");
    assert_eq!(Amount(70000).format(), "7.0000");
}
