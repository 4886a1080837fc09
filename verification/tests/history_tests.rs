use cpu_ruststats::codec::{parse_history, serialize_history};
use cpu_ruststats::history::push_trimmed;

#[test]
fn test_round_trip_simple() {
    let hist: Vec<i64> = vec![1000, 2000, 3000];
    let bytes = serialize_history(&hist);
    let back = parse_history(&bytes);
    assert_eq!(back, hist);
}

#[test]
fn test_round_trip_extremes() {
    let hist: Vec<i64> = vec![i64::MIN, i64::MAX, 0, -1, 999, -999];
    let bytes = serialize_history(&hist);
    let back = parse_history(&bytes);
    assert_eq!(back, hist);
}

#[test]
fn test_round_trip_empty() {
    let hist: Vec<i64> = vec![];
    let bytes = serialize_history(&hist);
    assert_eq!(bytes, b"[]".to_vec());
    let back = parse_history(&bytes);
    assert!(back.is_empty());
}

#[test]
fn test_serialized_form() {
    let s = String::from_utf8(serialize_history(&vec![1000, 2500, -500])).unwrap();
    assert_eq!(s, "[1.000,2.500,-0.500]");
}

#[test]
fn test_serialized_form_is_json_numbers() {
    let s = String::from_utf8(serialize_history(&vec![1000, 2500])).unwrap();
    let parsed: Vec<f64> = serde_json::from_str(&s).unwrap();
    assert_eq!(parsed, vec![1.0, 2.5]);
}

#[test]
fn test_parse_invalid_content() {
    assert!(parse_history(&b"not json".to_vec()).is_empty());
    assert!(parse_history(&b"".to_vec()).is_empty());
    assert!(parse_history(&b"[1.000,]".to_vec()).is_empty());
    assert!(parse_history(&b"[1.000".to_vec()).is_empty());
    assert!(parse_history(&b"[1.000]x".to_vec()).is_empty());
    assert!(parse_history(&b"{}".to_vec()).is_empty());
}

#[test]
fn test_trim_keeps_last_n() {
    let mut hist: Vec<i64> = Vec::new();
    for v in [1000, 2000, 3000, 4000, 5000] {
        push_trimmed(&mut hist, v, 3);
    }
    assert_eq!(hist, vec![3000, 4000, 5000]);
}

#[test]
fn test_trim_not_needed() {
    let mut hist: Vec<i64> = vec![1000, 2000];
    push_trimmed(&mut hist, 3000, 5);
    assert_eq!(hist, vec![1000, 2000, 3000]);
}

#[test]
fn test_trim_to_one() {
    let mut hist: Vec<i64> = vec![1000, 2000];
    push_trimmed(&mut hist, 3000, 1);
    assert_eq!(hist, vec![3000]);
}
