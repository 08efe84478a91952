use netero::config::{Aggregate, Percentiles};
use netero::summary::summarize;

fn batch(lines: &[&str]) -> Vec<String> {
    lines.iter().map(|s| s.to_string()).collect()
}

fn counts_cfg(keys: &[&str]) -> Aggregate {
    Aggregate {
        period: 1,
        count_values: keys.iter().map(|s| s.to_string()).collect(),
        percentiles: vec![],
    }
}

#[test]
fn one_window_of_levels_summarized() {
    let b = batch(&[r#"{"lvl":"info"}"#, r#"{"lvl":"info"}"#, r#"{"lvl":"error"}"#]);
    let line = summarize(&b, &counts_cfg(&["lvl"]));
    assert_eq!(line, r#"{"counts":{"lvl":{"info":2,"error":1}}}"#);
}

#[test]
fn one_window_of_latencies_summarized() {
    let b = batch(&[
        r#"{"latency":10}"#,
        r#"{"latency":20}"#,
        r#"{"latency":30}"#,
        r#"{"latency":40}"#,
        r#"{"latency":50}"#,
    ]);
    let cfg = Aggregate {
        period: 1,
        count_values: vec![],
        percentiles: vec![Percentiles::from_str("0,50,100:latency").unwrap()],
    };
    let line = summarize(&b, &cfg);
    assert_eq!(line, r#"{"percentiles":{"latency":{"0":"10","50":"30","100":"50"}}}"#);
}

#[test]
fn malformed_line_does_not_abort_the_window() {
    let b = batch(&["not json", r#"{"lvl":"info"}"#, r#"{"lvl":"error"}"#]);
    let line = summarize(&b, &counts_cfg(&["lvl"]));
    assert_eq!(line, r#"{"counts":{"lvl":{"info":1,"error":1}}}"#);
}

#[test]
fn both_sections_in_one_line() {
    let b = batch(&[r#"{"lvl":"info","latency":10}"#, r#"{"lvl":"info","latency":30}"#]);
    let cfg = Aggregate {
        period: 1,
        count_values: vec!["lvl".to_string()],
        percentiles: vec![Percentiles::from_str("50:latency").unwrap()],
    };
    let line = summarize(&b, &cfg);
    assert_eq!(
        line,
        r#"{"counts":{"lvl":{"info":2}},"percentiles":{"latency":{"50":"20"}}}"#
    );
}

#[test]
fn empty_batch_keeps_configured_sections() {
    let b: Vec<String> = Vec::new();
    let cfg = Aggregate {
        period: 1,
        count_values: vec!["lvl".to_string()],
        percentiles: vec![Percentiles::from_str("50:latency").unwrap()],
    };
    let line = summarize(&b, &cfg);
    assert_eq!(line, r#"{"counts":{"lvl":{}},"percentiles":{"latency":{}}}"#);
}

#[test]
fn value_strings_are_json_escaped() {
    let b = batch(&[r#"{"msg":"say \"hi\"\n"}"#]);
    let line = summarize(&b, &counts_cfg(&["msg"]));
    assert_eq!(line, "{\"counts\":{\"msg\":{\"say \\\"hi\\\"\\n\":1}}}");
}

#[test]
fn aggregation_is_pure() {
    let b = batch(&[r#"{"lvl":"info"}"#, "not json", r#"{"latency":5}"#]);
    let cfg = Aggregate {
        period: 2,
        count_values: vec!["lvl".to_string()],
        percentiles: vec![Percentiles::from_str("0,100:latency").unwrap()],
    };
    let once = summarize(&b, &cfg);
    let again = summarize(&b, &cfg);
    assert_eq!(once, again);
}

#[test]
fn several_keys_per_section() {
    let b = batch(&[
        r#"{"lvl":"info","code":200,"latency":10,"size":4}"#,
        r#"{"lvl":"warn","code":404,"latency":30,"size":8}"#,
    ]);
    let cfg = Aggregate {
        period: 1,
        count_values: vec!["lvl".to_string(), "code".to_string()],
        percentiles: vec![
            Percentiles::from_str("100:latency").unwrap(),
            Percentiles::from_str("0:size").unwrap(),
        ],
    };
    let line = summarize(&b, &cfg);
    let mut expected = String::new();
    expected.push_str(r#"{"counts":{"lvl":{"info":1,"warn":1},"code":{"200":1,"404":1}},"#);
    expected.push_str(r#""percentiles":{"latency":{"100":"30"},"size":{"0":"4"}}}"#);
    assert_eq!(line, expected);
}

#[test]
fn key_absent_from_every_record_counts_nothing() {
    let b = batch(&[r#"{"lvl":"info"}"#]);
    let line = summarize(&b, &counts_cfg(&["missing"]));
    assert_eq!(line, r#"{"counts":{"missing":{}}}"#);
}
