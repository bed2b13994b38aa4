use transacty::primitives::Amount;
use transacty::primitives::ClientId;
use transacty::primitives::ParseAmountError;
use transacty::primitives::TransactionId;

#[test]
fn parse_plain_integers() {
    assert_eq!(Amount::parse("0"), Ok(Amount(0)));
    assert_eq!(Amount::parse("1"), Ok(Amount(10000)));
    assert_eq!(Amount::parse("10"), Ok(Amount(100000)));
    assert_eq!(Amount::parse("007"), Ok(Amount(70000)));
}

#[test]
fn parse_fractional() {
    assert_eq!(Amount::parse("1.5"), Ok(Amount(15000)));
    assert_eq!(Amount::parse("1.50"), Ok(Amount(15000)));
    assert_eq!(Amount::parse("1.5000"), Ok(Amount(15000)));
    assert_eq!(Amount::parse("0.0001"), Ok(Amount(1)));
    assert_eq!(Amount::parse("1.2345"), Ok(Amount(12345)));
    assert_eq!(Amount::parse("0.1"), Ok(Amount(1000)));
}

#[test]
fn parse_discards_dust() {
    // The fifth fractional digit and beyond is dust: discarded, not rounded.
    assert_eq!(Amount::parse("1.23456"), Amount::parse("1.2345"));
    assert_eq!(Amount::parse("1.23456"), Ok(Amount(12345)));
    assert_eq!(Amount::parse("1.99999"), Ok(Amount(19999)));
    assert_eq!(Amount::parse("7.12349999"), Ok(Amount(71234)));
}

#[test]
fn parse_dust_formula() {
    // parse(f"{pre}.{post}{dust}") == pre * 10000 + post for four-digit post.
    for (pre, post, dust) in [(0u64, 1000u64, 1u64), (42, 9999, 9999), (9_999_999_999, 1234, 77)]
    {
        let text = format!("{pre}.{post}{dust}");
        assert_eq!(Amount::parse(&text), Ok(Amount(pre * 10000 + post)));
    }
}

#[test]
fn parse_zero_fractions() {
    assert_eq!(Amount::parse("0.0000"), Ok(Amount(0)));
    assert_eq!(Amount::parse("0.00001"), Ok(Amount(0)));
    assert_eq!(Amount::parse("2.0000"), Ok(Amount(20000)));
}

#[test]
fn parse_rejects_bad_shapes() {
    for bad in ["", ".", "1.", ".5", "abc", "1.2.3", "-1", "+1", "1a", " 1", "1 ", "1,5"] {
        assert_eq!(Amount::parse(bad), Err(ParseAmountError::InvalidFormat), "input {bad:?}");
    }
}

#[test]
fn parse_range_limits() {
    // u64::MAX ten-thousandths is the largest representable amount.
    assert_eq!(Amount::parse("1844674407370955.1615"), Ok(Amount(u64::MAX)));
    assert_eq!(Amount::parse("1844674407370955.1616"), Err(ParseAmountError::OutOfRange));
    assert_eq!(Amount::parse("1844674407370956"), Err(ParseAmountError::OutOfRange));
    assert_eq!(Amount::parse("18446744073709551616"), Err(ParseAmountError::OutOfRange));
    assert_eq!(
        Amount::parse("99999999999999999999999999999"),
        Err(ParseAmountError::OutOfRange)
    );
    assert_eq!(Amount::parse("1844674407370955"), Ok(Amount(18446744073709550000)));
}

#[test]
fn format_renders_four_digits_or_none() {
    assert_eq!(Amount(0).to_text(), "0");
    assert_eq!(Amount(10000).to_text(), "1");
    assert_eq!(Amount(15000).to_text(), "1.5000");
    assert_eq!(Amount(1).to_text(), "0.0001");
    assert_eq!(Amount(12345).to_text(), "1.2345");
    assert_eq!(Amount(100000).to_text(), "10");
    assert_eq!(Amount(u64::MAX).to_text(), "1844674407370955.1615");
}

#[test]
fn format_parse_round_trip() {
    for units in [0u64, 1, 9999, 10000, 15000, 123456789, 18446744073709550000, u64::MAX] {
        let a = Amount(units);
        assert_eq!(Amount::parse(&a.to_text()), Ok(a), "units {units}");
    }
}

#[test]
fn identifiers_parse_from_decimal_text() {
    assert_eq!(ClientId::parse("1"), Some(ClientId(1)));
    assert_eq!(ClientId::parse("007"), Some(ClientId(7)));
    assert_eq!(ClientId::parse("65535"), Some(ClientId(65535)));
    assert_eq!(ClientId::parse("65536"), None);
    assert_eq!(ClientId::parse(""), None);
    assert_eq!(ClientId::parse("abc"), None);
    assert_eq!(ClientId::parse("1.0"), None);
    assert_eq!(TransactionId::parse("4294967295"), Some(TransactionId(4294967295)));
    assert_eq!(TransactionId::parse("4294967296"), None);
}

#[test]
fn identifiers_render_to_decimal_text() {
    assert_eq!(ClientId(0).to_text(), "0");
    assert_eq!(ClientId(65535).to_text(), "65535");
    assert_eq!(TransactionId(12345).to_text(), "12345");
    for id in [0u16, 1, 9, 10, 65535] {
        assert_eq!(ClientId::parse(&ClientId(id).to_text()), Some(ClientId(id)));
    }
}

#[test]
fn amount_arithmetic() {
    assert!(Amount(0).is_zero());
    assert!(!Amount(1).is_zero());
    assert_eq!(Amount(15000).add(Amount(5000)), Amount(20000));
    assert_eq!(Amount(15000).sub(Amount(5000)), Amount(10000));
    assert!(Amount(1) < Amount(2));
}
