use balanc::amount::{parse_fixed_point, Amount, LiteralError};

#[test]
fn format_pads_to_scale() {
    assert_eq!(Amount::from_cents(4500).format(2), "45.00");
    assert_eq!(Amount::from_cents(5).format(2), "0.05");
    assert_eq!(Amount::from_cents(-150).format(2), "-1.50");
}

#[test]
fn format_at_scale_zero_has_no_decimal_point() {
    assert_eq!(Amount::from_cents(45).format(0), "45");
    assert_eq!(Amount::from_cents(-45).format(0), "-45");
}

#[test]
fn add_sub_neg() {
    let a = Amount::from_cents(4500);
    let b = Amount::from_cents(1000);
    assert_eq!((a + b).cents(), 5500);
    assert_eq!((a - b).cents(), 3500);
    assert_eq!((-a).cents(), -4500);
}

#[test]
fn from_literal_at_matching_scale() {
    assert_eq!(Amount::from_literal("45", 2).unwrap().cents(), 4500);
    assert_eq!(Amount::from_literal("45.5", 2).unwrap().cents(), 4550);
    assert_eq!(Amount::from_literal("45.00", 2).unwrap().cents(), 4500);
    assert_eq!(Amount::from_literal("0.01", 2).unwrap().cents(), 1);
}

#[test]
fn from_literal_at_scale_zero() {
    assert_eq!(Amount::from_literal("45", 0).unwrap().cents(), 45);
}

#[test]
fn from_literal_rejects_too_many_fraction_digits() {
    assert_eq!(Amount::from_literal("45.123", 2), Err(LiteralError::TooManyFractionDigits(3)));
}

#[test]
fn parse_fixed_point_splits_numerator_and_frac_digits() {
    assert_eq!(parse_fixed_point("57.20"), Some((5720, 2)));
    assert_eq!(parse_fixed_point("45"), Some((45, 0)));
    assert_eq!(parse_fixed_point("0.001"), Some((1, 3)));
}

#[test]
fn parse_fixed_point_rejects_a_literal_too_large_for_i64() {
    assert_eq!(parse_fixed_point(&"9".repeat(100)), None);
}

#[test]
fn from_literal_rejects_an_amount_too_large_for_i64() {
    assert_eq!(Amount::from_literal(&"9".repeat(30), 2), Err(LiteralError::OutOfRange));
}

#[test]
fn from_literal_rejects_a_scale_so_large_it_overflows_i64() {
    assert_eq!(Amount::from_literal("1", 30), Err(LiteralError::OutOfRange));
}

#[test]
fn parse_fixed_point_follows_integer_syntax_on_both_sides() {
    assert_eq!(parse_fixed_point("+5"), Some((5, 0)));
    assert_eq!(parse_fixed_point("-5.25"), Some((-475, 2)));
    assert_eq!(parse_fixed_point("5."), Some((5, 0)));
    assert_eq!(parse_fixed_point(".5"), None);
    assert_eq!(parse_fixed_point("1.2.3"), None);
    assert_eq!(parse_fixed_point(""), None);
}

#[test]
fn format_of_the_most_negative_amount_and_a_wide_scale() {
    assert_eq!(Amount::from_cents(i64::MIN).format(0), "-9223372036854775808");
    assert_eq!(Amount::from_cents(7).format(5), "0.00007");
}

#[test]
fn default_amount_is_zero() {
    assert_eq!(Amount::default().cents(), 0);
    assert_eq!(Amount::default(), Amount::from_cents(0));
}

#[test]
fn format_then_from_literal_round_trips() {
    for (cents, scale) in [(4500i64, 2u32), (5, 2), (0, 3), (45, 0), (123456789, 18)] {
        let a = Amount::from_cents(cents);
        assert_eq!(Amount::from_literal(&a.format(scale), scale), Ok(a));
    }
}
