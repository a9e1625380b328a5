use zeroed_books_ledger::currency::{Currency, CurrencyAmount, CurrencyParseError};

fn test_currency(minor_units: u8) -> Currency {
    match minor_units {
        0 => Currency::new("JPY".to_owned(), 0),
        1 => Currency::new("XX1".to_owned(), 1),
        2 => Currency::new("USD".to_owned(), 2),
        units => Currency::new("XXM".to_owned(), units),
    }
}

#[test]
fn format_value_longer_than_padding() {
    let currency = test_currency(2);
    let amount = CurrencyAmount::from_minor(currency, 12345);
    let want_formatted = "123.45";

    let formatted = amount.format_value();

    assert_eq!(want_formatted, formatted);
}

#[test]
fn format_value_with_only_tens_place() {
    let currency = test_currency(2);
    let amount = CurrencyAmount::from_minor(currency, 70);
    let want_formatted = "0.70";

    let formatted = amount.format_value();

    assert_eq!(want_formatted, formatted);
}

#[test]
fn format_value_with_only_hundreds_place() {
    let currency = test_currency(2);
    let amount = CurrencyAmount::from_minor(currency, 7);
    let want_formatted = "0.07";

    let formatted = amount.format_value();

    assert_eq!(want_formatted, formatted);
}

#[test]
fn format_negative_decimal() {
    let currency = test_currency(2);
    let amount = CurrencyAmount::from_minor(currency, -7);
    let want_formatted = "-0.07";

    let formatted = amount.format_value();

    assert_eq!(want_formatted, formatted);
}

#[test]
fn parse_amount_whole_number_no_minor_units() {
    let currency = test_currency(0);
    let raw_amount = "12";

    let parsed_amount = currency
        .parse_amount(raw_amount)
        .expect("unexpected parsing error");

    assert_eq!(12, parsed_amount);
}

#[test]
fn parse_amount_whole_number_one_minor_unit() {
    let currency = test_currency(1);
    let raw_amount = "12";
    let want_amount = 120;

    let parsed_amount = currency
        .parse_amount(raw_amount)
        .expect("unexpected parsing error");

    assert_eq!(want_amount, parsed_amount);
}

#[test]
fn parse_amount_invalid_number() {
    let currency = test_currency(0);
    let raw_amount = "squirrel";

    let error = currency
        .parse_amount(raw_amount)
        .expect_err("invalid number should return error");

    assert_eq!(
        CurrencyParseError::InvalidNumber(raw_amount.to_owned()),
        error
    );
}

#[test]
fn parse_amount_decimal_one_minor_unit() {
    let currency = test_currency(1);
    let raw_amount = "128.9";
    let want_amount = 1289;

    let parsed_amount = currency
        .parse_amount(raw_amount)
        .expect("failed to parse decimal");

    assert_eq!(want_amount, parsed_amount);
}

#[test]
fn parse_amount_decimal_two_minor_units() {
    let currency = test_currency(2);
    let raw_amount = "128.93";
    let want_amount = 12893;

    let parsed_amount = currency
        .parse_amount(raw_amount)
        .expect("failed to parse decimal");

    assert_eq!(want_amount, parsed_amount);
}

#[test]
fn parse_amount_too_many_decimals_zero_minor_units() {
    let currency = test_currency(0);
    let raw_amount = "1.0";
    let want_error = CurrencyParseError::TooManyDecimals(currency.clone(), 1);

    let error = currency
        .parse_amount(raw_amount)
        .expect_err("invalid number should return error");

    assert_eq!(want_error, error);
}

#[test]
fn parse_amount_too_many_decimals_one_minor_unit() {
    let currency = test_currency(1);
    let raw_amount = "1.00";
    let want_error = CurrencyParseError::TooManyDecimals(currency.clone(), 2);

    let error = currency
        .parse_amount(raw_amount)
        .expect_err("invalid number should return error");

    assert_eq!(want_error, error);
}

#[test]
fn parse_amount_too_many_decimals_five_minor_units() {
    let currency = test_currency(5);
    let raw_amount = "3.141592";
    let want_error = CurrencyParseError::TooManyDecimals(currency.clone(), 6);

    let error = currency
        .parse_amount(raw_amount)
        .expect_err("invalid number should return error");

    assert_eq!(want_error, error);
}

#[test]
fn parse_amount_separator_char() {
    let currency = test_currency(0);
    let raw_amount = "8,675,309";
    let want_amount = 8675309;

    let parsed_amount = currency
        .parse_amount(raw_amount)
        .expect("failed to parse with separators");

    assert_eq!(want_amount, parsed_amount);
}

#[test]
fn parse_amount_separator_whitespace() {
    let currency = test_currency(0);
    let raw_amount = "8 675 309";
    let want_amount = 8675309;

    let parsed_amount = currency
        .parse_amount(raw_amount)
        .expect("failed to parse with separators");

    assert_eq!(want_amount, parsed_amount);
}

#[test]
fn parse_amount_no_whole_digits() {
    let currency = test_currency(1);
    let raw_amount = ".1";
    let want_amount = 1;

    let parsed_amount = currency
        .parse_amount(raw_amount)
        .expect("failed to parse with no whole digits");

    assert_eq!(want_amount, parsed_amount);
}

#[test]
fn parse_amount_zero_as_decimal() {
    let currency = test_currency(3);
    let raw_amount = ".00";
    let want_amount = 0;

    let parsed_amount = currency
        .parse_amount(raw_amount)
        .expect("failed to parse zero with no whole digits");

    assert_eq!(want_amount, parsed_amount);
}

#[test]
fn parse_amount_negative_decimal() {
    let currency = test_currency(3);
    let raw_amount = "-3.142";
    let want_amount = -3142;

    let parsed_amount = currency
        .parse_amount(raw_amount)
        .expect("failed to parse negative decimal");

    assert_eq!(want_amount, parsed_amount);
}

#[test]
fn parse_amount_hundreds_place_decimal() {
    let currency = test_currency(2);
    let raw_amount = ".07";
    let want_amount = 7;

    let parsed_amount = currency
        .parse_amount(raw_amount)
        .expect("failed to parse currency with only hundreds place decimal");

    assert_eq!(want_amount, parsed_amount);
}

#[test]
fn parse_format_round_trip_many_values() {
    let values = [
        0, 1, -1, 7, -7, 12893, -12893, 2147483647, -2147483648, 1000000,
    ];
    for minor in [0u8, 1, 2, 5, 8] {
        for v in values {
            let currency = test_currency(minor);
            let formatted = currency.format_value(v);
            let parsed = currency
                .parse_amount(&formatted)
                .expect("formatted amount should parse");
            assert_eq!(v, parsed, "round trip failed for {} at {}", v, minor);
        }
    }
}

#[test]
fn format_value_scenario() {
    let currency = test_currency(2);

    assert_eq!("128.93", currency.format_value(12893));
    assert_eq!(12893, currency.parse_amount("128.93").unwrap());
}

#[test]
fn from_str_builds_amount() {
    let currency = test_currency(2);

    let amount = CurrencyAmount::from_str(currency, "128.93").expect("should parse");

    assert_eq!("USD", amount.currency().code());
    assert_eq!(2, amount.currency().minor_units());
    assert_eq!(12893, amount.value());
}
