use netero::decimal::{parse_decimal, pow10_exec, push_decimal};

fn rendered(mant: i128, scale: u32) -> String {
    let mut s = String::new();
    push_decimal(&mut s, mant, scale);
    s
}

#[test]
fn parses_plain_decimals_to_nano_units() {
    assert_eq!(parse_decimal("0"), Some(0));
    assert_eq!(parse_decimal("10"), Some(10_000_000_000));
    assert_eq!(parse_decimal("12.5"), Some(12_500_000_000));
    assert_eq!(parse_decimal("-1.5"), Some(-1_500_000_000));
    assert_eq!(parse_decimal("0.000000001"), Some(1));
}

#[test]
fn rejects_text_that_is_no_plain_decimal() {
    assert_eq!(parse_decimal(""), None);
    assert_eq!(parse_decimal("-"), None);
    assert_eq!(parse_decimal("abc"), None);
    assert_eq!(parse_decimal("1e5"), None);
    assert_eq!(parse_decimal("1."), None);
    assert_eq!(parse_decimal(".5"), None);
    assert_eq!(parse_decimal("1.2.3"), None);
}

#[test]
fn rejects_values_outside_the_engine_bounds() {
    // ten fractional digits, or an integer part of 10^12 or more
    assert_eq!(parse_decimal("1.0000000001"), None);
    assert_eq!(parse_decimal("1000000000000"), None);
    assert_eq!(parse_decimal("999999999999"), Some(999_999_999_999_000_000_000));
}

#[test]
fn renders_trimmed_decimal_strings() {
    assert_eq!(rendered(0, 0), "0");
    assert_eq!(rendered(1_500, 2), "15");
    assert_eq!(rendered(1_550, 2), "15.5");
    assert_eq!(rendered(-1_555, 3), "-1.555");
    assert_eq!(rendered(105, 2), "1.05");
    assert_eq!(rendered(100_000, 3), "100");
}

#[test]
fn parse_and_render_agree_on_round_values() {
    for text in ["7", "42.5", "-3.25", "0.125"] {
        let nano = parse_decimal(text).unwrap();
        assert_eq!(rendered(nano, 9), text);
    }
}

#[test]
fn pow10_matches_its_table() {
    assert_eq!(pow10_exec(0), 1);
    assert_eq!(pow10_exec(9), 1_000_000_000);
    assert_eq!(pow10_exec(14), 100_000_000_000_000);
}
