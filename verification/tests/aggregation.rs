use netero::aggregation::{count_agg, percentile};
use netero::config::Percentiles;
use netero::record::{values_to_keys, Field};

fn batch(lines: &[&str]) -> Vec<String> {
    lines.iter().map(|s| s.to_string()).collect()
}

#[test]
fn count_one_window_of_levels() {
    let b = batch(&[r#"{"lvl":"info"}"#, r#"{"lvl":"info"}"#, r#"{"lvl":"error"}"#]);
    let r = count_agg(b, "lvl".to_string());
    assert_eq!(r, vec![("info".to_string(), 2), ("error".to_string(), 1)]);
}

#[test]
fn count_sums_to_valid_records() {
    let b = batch(&[
        r#"{"k":"a"}"#,
        r#"{"k":"b"}"#,
        r#"{"k":"a"}"#,
        r#"{"other":1}"#,
        "not json",
        r#"{"k":[1,2]}"#,
    ]);
    let r = count_agg(b, "k".to_string());
    let total: usize = r.iter().map(|(_, c)| c).sum();
    assert_eq!(total, 3);
}

#[test]
fn count_skips_malformed_lines() {
    let b = batch(&["not json", r#"{"lvl":"info"}"#, r#"{"lvl":"error"}"#]);
    let r = count_agg(b, "lvl".to_string());
    assert_eq!(r, vec![("info".to_string(), 1), ("error".to_string(), 1)]);
}

#[test]
fn count_canonicalizes_scalars() {
    let b = batch(&[
        r#"{"v":null}"#,
        r#"{"v":true}"#,
        r#"{"v":false}"#,
        r#"{"v":7}"#,
        r#"{"v":"7"}"#,
    ]);
    let r = count_agg(b, "v".to_string());
    assert_eq!(
        r,
        vec![
            ("null".to_string(), 1),
            ("true".to_string(), 1),
            ("false".to_string(), 1),
            ("7".to_string(), 2),
        ]
    );
}

#[test]
fn count_empty_batch_is_empty() {
    let r = count_agg(Vec::new(), "lvl".to_string());
    assert!(r.is_empty());
}

#[test]
fn values_to_keys_canonical_forms() {
    assert_eq!(values_to_keys(Field::Null), Some("null".to_string()));
    assert_eq!(values_to_keys(Field::Boolean(true)), Some("true".to_string()));
    assert_eq!(values_to_keys(Field::Boolean(false)), Some("false".to_string()));
    assert_eq!(values_to_keys(Field::Number("1.5".to_string())), Some("1.5".to_string()));
    assert_eq!(values_to_keys(Field::Text("x".to_string())), Some("x".to_string()));
    assert_eq!(values_to_keys(Field::Absent), None);
    assert_eq!(values_to_keys(Field::Compound), None);
}

fn latency_batch(vals: &[&str]) -> Vec<String> {
    vals.iter().map(|v| format!(r#"{{"latency":{}}}"#, v)).collect()
}

#[test]
fn percentile_end_points_and_median() {
    let b = latency_batch(&["10", "20", "30", "40", "50"]);
    let req = Percentiles {
        agg_key: "latency".to_string(),
        percentiles: vec![0, 50_000, 100_000],
    };
    let r = percentile(b, req);
    assert_eq!(
        r,
        vec![
            ("0".to_string(), "10".to_string()),
            ("50".to_string(), "30".to_string()),
            ("100".to_string(), "50".to_string()),
        ]
    );
}

#[test]
fn percentile_interpolates_between_samples() {
    let b = latency_batch(&["10", "20"]);
    let req = Percentiles { agg_key: "latency".to_string(), percentiles: vec![50_000] };
    let r = percentile(b, req);
    assert_eq!(r, vec![("50".to_string(), "15".to_string())]);
}

#[test]
fn percentile_ninety_nine_of_five_samples() {
    let b = latency_batch(&["50", "20", "10", "40", "30"]);
    let req = Percentiles { agg_key: "latency".to_string(), percentiles: vec![99_000] };
    let r = percentile(b, req);
    assert_eq!(r, vec![("99".to_string(), "49.6".to_string())]);
}

#[test]
fn percentile_stays_within_sample_range() {
    let b = latency_batch(&["3", "1", "4", "1", "5", "9", "2", "6"]);
    let req = Percentiles {
        agg_key: "latency".to_string(),
        percentiles: vec![0, 10_000, 25_000, 37_500, 50_000, 75_000, 90_000, 100_000],
    };
    let r = percentile(b, req);
    for (_, v) in &r {
        let x: f64 = v.parse().unwrap();
        assert!((1.0..=9.0).contains(&x), "{} out of range", v);
    }
    assert_eq!(r.first().unwrap().1, "1");
    assert_eq!(r.last().unwrap().1, "9");
}

#[test]
fn percentile_of_empty_sample_set_is_omitted() {
    let b = batch(&[r#"{"other":1}"#, "not json"]);
    let req = Percentiles { agg_key: "latency".to_string(), percentiles: vec![0, 50_000] };
    let r = percentile(b, req);
    assert!(r.is_empty());
}

#[test]
fn percentile_skips_non_numeric_samples() {
    let b = batch(&[
        r#"{"latency":10}"#,
        r#"{"latency":"fast"}"#,
        r#"{"latency":30}"#,
        r#"{"latency":null}"#,
    ]);
    let req = Percentiles { agg_key: "latency".to_string(), percentiles: vec![100_000] };
    let r = percentile(b, req);
    assert_eq!(r, vec![("100".to_string(), "30".to_string())]);
}

#[test]
fn percentile_handles_negatives_and_decimals() {
    let b = latency_batch(&["-1.5", "0.5"]);
    let req = Percentiles { agg_key: "latency".to_string(), percentiles: vec![0, 50_000] };
    let r = percentile(b, req);
    assert_eq!(
        r,
        vec![("0".to_string(), "-1.5".to_string()), ("50".to_string(), "-0.5".to_string())]
    );
}

#[test]
fn fractional_percentile_label_keeps_its_decimals() {
    let b = latency_batch(&["10", "20"]);
    let req = Percentiles { agg_key: "latency".to_string(), percentiles: vec![99_900] };
    let r = percentile(b, req);
    assert_eq!(r[0].0, "99.9");
}
