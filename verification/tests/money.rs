use argus::csv_import;
use argus::decimal::{decimal_text, hundredths_text, read_signed, signed_text};
use argus::money::{divide, minus, plus, sum, MoneyError};
use argus::statements;
use argus::store;

#[test]
fn parses_every_amount_format_in_the_file() {
    assert_eq!(csv_import::parse_money("-£5.00"), Some(("-5.00".into(), "GBP".into())));
    assert_eq!(csv_import::parse_money("€0.00"), Some(("0.00".into(), "EUR".into())));
    assert_eq!(csv_import::parse_money("0.00 PLN"), Some(("0.00".into(), "PLN".into())));
    assert_eq!(csv_import::parse_money("-€58.62"), Some(("-58.62".into(), "EUR".into())));
    assert_eq!(
        csv_import::parse_money("\"1,234.56 CAD\""),
        Some(("1234.56".into(), "CAD".into()))
    );
    assert_eq!(csv_import::parse_money(""), None);
    assert_eq!(csv_import::parse_money("Total"), None);
}

#[test]
fn csv_import_minor_units() {
    assert_eq!(csv_import::to_minor("12.34", "GBP").unwrap(), 1234);
    assert_eq!(csv_import::to_minor("-0.5", "GBP").unwrap(), -50);
    assert_eq!(csv_import::to_minor("1000", "JPY").unwrap(), 1000);
}

#[test]
fn store_minor_units() {
    assert_eq!(store::to_minor("12.34", "GBP").unwrap(), 1234);
    assert_eq!(store::to_minor("-0.5", "GBP").unwrap(), -50);
    assert_eq!(store::to_minor("1000", "GBP").unwrap(), 100_000);
    assert_eq!(store::to_minor("1000", "JPY").unwrap(), 1000);
    assert_eq!(store::to_minor("1.234", "KWD").unwrap(), 1234);
    assert!(store::to_minor("abc", "GBP").is_err());
}

#[test]
fn money_formats() {
    assert_eq!(
        statements::parse_money("-£5.00", "GBP"),
        Some(("-5.00".into(), "GBP".into()))
    );
    assert_eq!(
        statements::parse_money("0.00 PLN", "GBP"),
        Some(("0.00".into(), "PLN".into()))
    );
    // Bare numbers inherit the account currency.
    assert_eq!(
        statements::parse_money("12.34", "GBP"),
        Some(("12.34".into(), "GBP".into()))
    );
    assert_eq!(
        statements::parse_money("(12.34)", "GBP"),
        Some(("-12.34".into(), "GBP".into()))
    );
    assert_eq!(statements::parse_money("", "GBP"), None);
    assert_eq!(statements::parse_money("Total", "GBP"), None);
}

#[test]
fn only_statements_take_bare_and_bracketed_amounts() {
    assert_eq!(csv_import::parse_money("12.34"), None);
    assert_eq!(csv_import::parse_money("(12.34 GBP)"), None);
    assert_eq!(
        statements::parse_money("(12.34 EUR)", "GBP"),
        Some(("-12.34".into(), "EUR".into()))
    );
    assert_eq!(
        statements::parse_money("zł1,000", "GBP"),
        Some(("1000".into(), "PLN".into()))
    );
    assert_eq!(
        statements::parse_money("CHF 7", "GBP"),
        Some(("7".into(), "CHF".into()))
    );
    assert_eq!(
        statements::parse_money("₿3", "GBP"),
        Some(("3".into(), "GBP".into()))
    );
    assert_eq!(
        statements::parse_money("+ 3", "GBP"),
        Some(("3".into(), "GBP".into()))
    );
}

#[test]
fn amounts_that_are_no_numbers() {
    match statements::to_minor("12.3a", "GBP") {
        Err(MoneyError::Unparseable(t)) => assert_eq!(t, "12.3a"),
        other => panic!("{:?}", other),
    }
    match statements::to_minor("99999999999999999999", "GBP") {
        Err(MoneyError::OutOfRange(t)) => assert_eq!(t, "99999999999999999999"),
        other => panic!("{:?}", other),
    }
    assert_eq!(statements::money_minor("1.2.3", "GBP"), None);
}

#[test]
fn places_beyond_the_currency_are_cut() {
    assert_eq!(statements::to_minor(" +1.999 ", "GBP").unwrap(), 199);
    assert_eq!(statements::to_minor("1.9", "HUF").unwrap(), 1);
    assert_eq!(store::to_minor("1.9", "HUF").unwrap(), 190);
    assert_eq!(statements::to_minor("1.9", "XAF").unwrap(), 190);
    assert_eq!(store::to_minor("1.9", "XAF").unwrap(), 1);
    assert_eq!(store::to_minor("1.9", "IQD").unwrap(), 1900);
    assert_eq!(statements::to_minor(".5", "GBP").unwrap(), 50);
    assert_eq!(statements::to_minor("", "GBP").unwrap(), 0);
}

#[test]
fn minor_units_and_text() {
    assert_eq!(
        statements::money_minor("-€58.62", "GBP"),
        Some((-5862, "-58.62".into(), "EUR".into()))
    );
}

#[test]
fn two_places_read_back() {
    for minor in [0, 5, -5, 99, -100, 123456789, -i64::MAX, i64::MAX] {
        let text = hundredths_text(minor);
        assert_eq!(statements::to_minor(&text, "GBP").unwrap(), minor);
    }
    assert_eq!(hundredths_text(-7), "-0.07");
    assert_eq!(hundredths_text(i64::MIN), "-92233720368547758.08");
}

#[test]
fn integers_read_back() {
    for n in [0, 7, -7, 100, i64::MAX, i64::MIN] {
        let text = signed_text(n);
        let chars: Vec<char> = text.chars().collect();
        assert_eq!(read_signed(&chars), Some(n));
    }
    assert_eq!(decimal_text(907), "907");
    assert_eq!(read_signed(&['1', 'x']), None);
    assert_eq!(read_signed(&['-']), None);
}

#[test]
fn sums_wrap_around() {
    assert_eq!(plus(i64::MAX, 1), i64::MIN);
    assert_eq!(minus(i64::MIN, 1), i64::MAX);
    assert_eq!(sum(&[1, -3, 10]), 8);
    assert_eq!(sum(&[i64::MAX, 1, -1]), i64::MAX);
}

#[test]
fn quotients_go_towards_zero() {
    assert_eq!(divide(7, 2), 3);
    assert_eq!(divide(-7, 2), -3);
    assert_eq!(divide(i64::MIN, 1), i64::MIN);
}
