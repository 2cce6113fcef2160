use expense_tracker::price::parse_price;
use expense_tracker::price::price_to_string;

#[test]
fn parses_plain_amounts() {
    assert_eq!(parse_price("3.50"), Some(350));
    assert_eq!(parse_price("12.99"), Some(1299));
    assert_eq!(parse_price("7"), Some(700));
    assert_eq!(parse_price("0.05"), Some(5));
    assert_eq!(parse_price("0"), Some(0));
    assert_eq!(parse_price("3.5"), Some(350));
}

#[test]
fn parses_negative_amounts() {
    assert_eq!(parse_price("-2.5"), Some(-250));
    assert_eq!(parse_price("-0.01"), Some(-1));
    assert_eq!(parse_price("-7"), Some(-700));
}

#[test]
fn rejects_malformed_amounts() {
    assert_eq!(parse_price(""), None);
    assert_eq!(parse_price("abc"), None);
    assert_eq!(parse_price("-"), None);
    assert_eq!(parse_price("3.555"), None);
    assert_eq!(parse_price("1.2.3"), None);
    assert_eq!(parse_price("3."), None);
    assert_eq!(parse_price(" 3.50"), None);
    assert_eq!(parse_price("3.50 "), None);
    assert_eq!(parse_price("--1"), None);
}

#[test]
fn respects_the_price_bound() {
    assert_eq!(parse_price("999999999999"), Some(99_999_999_999_900));
    assert_eq!(parse_price("999999999999.99"), Some(99_999_999_999_999));
    assert_eq!(parse_price("1000000000000"), None);
}

#[test]
fn formats_amounts_with_two_decimals() {
    assert_eq!(price_to_string(350), "3.50");
    assert_eq!(price_to_string(1299), "12.99");
    assert_eq!(price_to_string(0), "0.00");
    assert_eq!(price_to_string(5), "0.05");
    assert_eq!(price_to_string(-5), "-0.05");
    assert_eq!(price_to_string(-1299), "-12.99");
    assert_eq!(price_to_string(700), "7.00");
}

#[test]
fn formatting_then_parsing_is_identity() {
    for cents in [0i64, 1, 99, 100, 350, 1299, -1, -99, -12345, 99_999_999_999_999] {
        let text = price_to_string(cents);
        assert_eq!(parse_price(&text), Some(cents));
    }
}
