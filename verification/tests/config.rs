use netero::config::{Aggregate, ConfigError, Percentiles};

fn err_of(s: &str) -> ConfigError {
    match Percentiles::from_str(s) {
        Err(e) => e,
        Ok(_) => panic!("expected an error for {:?}", s),
    }
}

#[test]
fn parses_compact_percentile_request() {
    let p = Percentiles::from_str("0,50,90,99:latency").unwrap();
    assert_eq!(p.agg_key, "latency");
    assert_eq!(p.percentiles, vec![0, 50_000, 90_000, 99_000]);
}

#[test]
fn parses_fractional_percentiles() {
    let p = Percentiles::from_str("99.9,99.999:latency").unwrap();
    assert_eq!(p.percentiles, vec![99_900, 99_999]);
}

#[test]
fn splits_at_the_last_colon() {
    // the text before the last colon must be the percentile list, so an
    // inner colon lands among the percentiles and is rejected there
    assert_eq!(err_of("50:a:b"), ConfigError::BadPercentile);
    let p = Percentiles::from_str("50:latency").unwrap();
    assert_eq!(p.agg_key, "latency");
    assert_eq!(p.percentiles, vec![50_000]);
}

#[test]
fn rejects_request_without_colon() {
    assert_eq!(err_of("0,50,100"), ConfigError::MissingKeySeparator);
}

#[test]
fn rejects_empty_key() {
    assert_eq!(err_of("0,50:"), ConfigError::EmptyKey);
}

#[test]
fn rejects_out_of_range_percentile() {
    assert_eq!(err_of("101:latency"), ConfigError::BadPercentile);
    assert_eq!(err_of("-1:latency"), ConfigError::BadPercentile);
}

#[test]
fn rejects_more_than_three_decimals() {
    assert_eq!(err_of("50.0001:latency"), ConfigError::BadPercentile);
}

#[test]
fn rejects_empty_percentile_entry() {
    assert_eq!(err_of("50,:latency"), ConfigError::BadPercentile);
    assert_eq!(err_of(":latency"), ConfigError::BadPercentile);
}

#[test]
fn config_needs_at_least_one_aggregation() {
    let none = Aggregate { period: 1, count_values: vec![], percentiles: vec![] };
    assert!(!none.is_valid());
    let counts = Aggregate {
        period: 1,
        count_values: vec!["lvl".to_string()],
        percentiles: vec![],
    };
    assert!(counts.is_valid());
    let percs = Aggregate {
        period: 1,
        count_values: vec![],
        percentiles: vec![Percentiles::from_str("50:latency").unwrap()],
    };
    assert!(percs.is_valid());
}
