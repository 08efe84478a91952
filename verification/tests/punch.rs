use netero::punch::{ChronoUnit, HeaderError, Method, Punch};

fn punch_with(headers: &[&str], duration: u64, unit: ChronoUnit) -> Punch {
    Punch {
        url: "http://localhost".to_string(),
        headers: headers.iter().map(|s| s.to_string()).collect(),
        method: Method::Get,
        thread_count: 10,
        rps: 100,
        duration,
        duration_unit: unit,
        body: String::new(),
    }
}

#[test]
fn duration_in_each_unit() {
    assert_eq!(punch_with(&[], 90, ChronoUnit::Second).duration_seconds(), Some(90));
    assert_eq!(punch_with(&[], 2, ChronoUnit::Minute).duration_seconds(), Some(120));
    assert_eq!(punch_with(&[], 3, ChronoUnit::Hour).duration_seconds(), Some(10_800));
    assert_eq!(punch_with(&[], u64::MAX, ChronoUnit::Hour).duration_seconds(), None);
}

#[test]
fn getters_hand_back_the_settings() {
    let p = punch_with(&[], 1, ChronoUnit::Minute);
    assert_eq!(p.get_rps(), 100);
    assert_eq!(p.get_thread_count(), 10);
}

#[test]
fn headers_split_into_pairs() {
    let p = punch_with(&["Accept: application/json", "X-Token:abc"], 1, ChronoUnit::Second);
    let pairs = p.header_pairs().unwrap();
    assert_eq!(
        pairs,
        vec![
            ("Accept".to_string(), "application/json".to_string()),
            ("X-Token".to_string(), "abc".to_string()),
        ]
    );
}

#[test]
fn header_value_stops_at_a_second_colon() {
    let p = punch_with(&["A:b:c"], 1, ChronoUnit::Second);
    let pairs = p.header_pairs().unwrap();
    assert_eq!(pairs, vec![("A".to_string(), "b".to_string())]);
}

#[test]
fn header_without_colon_is_refused() {
    let p = punch_with(&["Accept: ok", "broken"], 1, ChronoUnit::Second);
    assert_eq!(p.header_pairs(), Err(HeaderError::MissingColon));
}
