use forge_session::amount::{format_amount, parse_amount, AmountError};

#[test]
fn one_token_at_precision_eight() {
    assert_eq!(parse_amount("1", 8), Ok(100_000_000));
    assert_eq!(format_amount(100_000_000, 8), "1");
}

#[test]
fn round_trip_text_through_base_units() {
    for text in ["1", "0", "25", "1.5", "0.05", "123456789.12345678", "0.00000001"] {
        let v = parse_amount(text, 8).unwrap();
        assert_eq!(format_amount(v, 8), text);
    }
}

#[test]
fn round_trip_base_units_through_text() {
    for v in [0u128, 1, 9, 10, 100_000_000, 150_000_000, 2_500_000_000, u128::MAX] {
        for d in [0u32, 1, 8, 18, 40] {
            assert_eq!(parse_amount(&format_amount(v, d), d), Ok(v));
        }
    }
}

#[test]
fn parse_fraction_is_scaled() {
    assert_eq!(parse_amount("1.5", 8), Ok(150_000_000));
    assert_eq!(parse_amount("0.05", 2), Ok(5));
    assert_eq!(parse_amount("007", 0), Ok(7));
    assert_eq!(parse_amount("0", 30), Ok(0));
}

#[test]
fn format_exact_texts() {
    assert_eq!(format_amount(0, 8), "0");
    assert_eq!(format_amount(5, 2), "0.05");
    assert_eq!(format_amount(123, 0), "123");
    assert_eq!(format_amount(2_500_000_000, 8), "25");
    assert_eq!(format_amount(2_400_000_000, 8), "24");
    assert_eq!(format_amount(1_230_000, 6), "1.23");
}

#[test]
fn parse_rejects_malformed_text() {
    for text in ["", ".", ".5", "5.", "1.2.3", "abc", "1,5", "-1", " 1"] {
        assert_eq!(parse_amount(text, 8), Err(AmountError::Malformed), "{text}");
    }
}

#[test]
fn parse_rejects_excess_precision() {
    assert_eq!(parse_amount("1.123", 2), Err(AmountError::ExcessPrecision));
    assert_eq!(parse_amount("1.5", 0), Err(AmountError::ExcessPrecision));
}

#[test]
fn parse_rejects_overflow() {
    assert_eq!(parse_amount("340282366920938463463374607431768211456", 0), Err(AmountError::Overflow));
    assert_eq!(parse_amount("340282366920938463463374607431768211455", 0), Ok(u128::MAX));
    assert_eq!(parse_amount("1", 39), Err(AmountError::Overflow));
    assert_eq!(parse_amount("0", 1000), Ok(0));
}

#[test]
fn longer_forms_format_to_shortest() {
    assert_eq!(format_amount(parse_amount("01.50", 8).unwrap(), 8), "1.5");
    assert_eq!(format_amount(parse_amount("0.000", 8).unwrap(), 8), "0");
}
