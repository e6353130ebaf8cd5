//! Numeric-literal parsing, the pinned rounding rule, and price formatting.

use price_oracle::decimal::{format_cents, parse_price_micro, round_micro_to_cents};

#[test]
fn parses_plain_decimals() {
    assert_eq!(parse_price_micro(b"1.0821"), Some(1_082_100));
    assert_eq!(parse_price_micro(b"1950.5"), Some(1_950_500_000));
    assert_eq!(parse_price_micro(b"0"), Some(0));
    assert_eq!(parse_price_micro(b"-1.5"), Some(-1_500_000));
    assert_eq!(parse_price_micro(b"7"), Some(7_000_000));
}

#[test]
fn parses_exponent_notation() {
    assert_eq!(parse_price_micro(b"1e-6"), Some(1));
    assert_eq!(parse_price_micro(b"1.5e3"), Some(1_500_000_000));
    assert_eq!(parse_price_micro(b"2E2"), Some(200_000_000));
    assert_eq!(parse_price_micro(b"1e+1"), Some(10_000_000));
}

#[test]
fn truncates_below_the_sixth_decimal() {
    assert_eq!(parse_price_micro(b"0.0000019"), Some(1));
    assert_eq!(parse_price_micro(b"1e-7"), Some(0));
    assert_eq!(parse_price_micro(b"-0.0"), Some(0));
}

#[test]
fn out_of_range_magnitudes_give_no_price() {
    assert_eq!(parse_price_micro(b"1e300"), None);
    assert_eq!(parse_price_micro(b"100000000001"), None);
    assert_eq!(parse_price_micro(b"100000000000"), Some(100_000_000_000_000_000));
}

#[test]
fn rejects_ill_formed_literals() {
    assert_eq!(parse_price_micro(b""), None);
    assert_eq!(parse_price_micro(b"-"), None);
    assert_eq!(parse_price_micro(b"1."), None);
    assert_eq!(parse_price_micro(b"01"), None);
    assert_eq!(parse_price_micro(b"1e"), None);
    assert_eq!(parse_price_micro(b"1.5x"), None);
    assert_eq!(parse_price_micro(b"\"1.5\""), None);
    assert_eq!(parse_price_micro(b"null"), None);
}

#[test]
fn rounding_rule_is_pinned_half_away_from_zero() {
    // the open tie case: 100.005 rounds up, by the decimal literal, not by
    // a platform float
    let micro = parse_price_micro(b"100.005").unwrap();
    assert_eq!(micro, 100_005_000);
    assert_eq!(round_micro_to_cents(micro), 10_001);
    assert_eq!(format_cents(10_001), b"100.01".to_vec());
    // and symmetrically for negative values
    assert_eq!(round_micro_to_cents(-5_000), -1);
    assert_eq!(round_micro_to_cents(-4_999), 0);
    assert_eq!(round_micro_to_cents(14_999), 1);
}

#[test]
fn rounding_is_idempotent_on_two_decimal_values() {
    let cases: [&[u8]; 4] = [b"2.10", b"0.05", b"-13.37", b"1950.30"];
    for text in cases {
        let micro = parse_price_micro(text).unwrap();
        let cents = round_micro_to_cents(micro);
        // a value already on a whole cent is unchanged by rounding
        assert_eq!(cents * 10_000, micro);
        let again = parse_price_micro(&format_cents(cents)).unwrap();
        assert_eq!(again, micro);
    }
}

#[test]
fn rounding_is_deterministic() {
    let micro = parse_price_micro(b"1950.299999").unwrap();
    assert_eq!(round_micro_to_cents(micro), round_micro_to_cents(micro));
    assert_eq!(round_micro_to_cents(micro), 195_030);
}

#[test]
fn formats_cents_like_the_shortest_float_text() {
    assert_eq!(format_cents(200), b"2.0".to_vec());
    assert_eq!(format_cents(105), b"1.05".to_vec());
    assert_eq!(format_cents(-50), b"-0.5".to_vec());
    assert_eq!(format_cents(0), b"0.0".to_vec());
    assert_eq!(format_cents(195_030), b"1950.3".to_vec());
}
