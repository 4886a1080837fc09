use cpu_ruststats::spark::make_sparkline;

fn to_milli(data: &[f64]) -> Vec<i64> {
    data.iter().map(|v| (v * 1000.0).round() as i64).collect()
}

#[test]
fn test_make_sparkline_empty() {
    let data: Vec<f64> = vec![];
    let result = make_sparkline(&to_milli(&data));
    assert_eq!(result, "");
}

#[test]
fn test_make_sparkline_single_value() {
    let data = vec![1.0];
    let result = make_sparkline(&to_milli(&data));
    assert_eq!(result, "\u{2581}");
}

#[test]
fn test_make_sparkline_multiple_values() {
    let data = vec![1.0, 2.0, 3.0, 4.0, 5.0];
    let result = make_sparkline(&to_milli(&data));
    // Verify that the result has the correct length
    assert_eq!(result.chars().count(), 5);
    // Verify that the first character is the lowest and the last is the highest
    assert_eq!(result.chars().next().unwrap().to_string(), "\u{2581}");
    assert_eq!(result.chars().last().unwrap().to_string(), "\u{2588}");
}

#[test]
fn test_make_sparkline_all_equal() {
    let result = make_sparkline(&to_milli(&[7.0, 7.0, 7.0]));
    assert_eq!(result, "\u{2581}\u{2581}\u{2581}");
}

#[test]
fn test_make_sparkline_exact_levels() {
    let result = make_sparkline(&to_milli(&[0.0, 100.0, 50.0]));
    assert_eq!(result, "\u{2581}\u{2588}\u{2585}");
}

#[test]
fn test_make_sparkline_order_preserved() {
    let a = make_sparkline(&to_milli(&[1.0, 2.0, 3.0]));
    let b = make_sparkline(&to_milli(&[3.0, 1.0, 2.0]));
    let ac: Vec<char> = a.chars().collect();
    let bc: Vec<char> = b.chars().collect();
    assert_eq!(bc[0], ac[2]);
    assert_eq!(bc[1], ac[0]);
    assert_eq!(bc[2], ac[1]);
}
