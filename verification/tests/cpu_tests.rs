use cpu_ruststats::cpu::{compute_usage, read_proc_stat};

#[test]
fn test_read_proc_stat() {
    let content = b"cpu  10 20 30 40\n".to_vec();
    let result = read_proc_stat(&content);
    assert!(result.is_some());
    let (total, idle) = result.unwrap();
    assert_eq!(total, 100); // 10 + 20 + 30 + 40
    assert_eq!(idle, 40);
}

#[test]
fn test_read_proc_stat_empty() {
    let content = Vec::new();
    let result = read_proc_stat(&content);
    assert!(result.is_none());
}

#[test]
fn test_read_proc_stat_short_line() {
    let content = b"cpu  10 20 30\n".to_vec();
    assert!(read_proc_stat(&content).is_none());
}

#[test]
fn test_read_proc_stat_skips_other_lines() {
    let content = b"intr 5 1 2\ncpu  10 20 30 40\ncpu0 1 2 3 4\n".to_vec();
    assert_eq!(read_proc_stat(&content), Some((100, 40)));
}

#[test]
fn test_read_proc_stat_malformed_field_is_zero() {
    let content = b"cpu  1x 20 30 40\n".to_vec();
    assert_eq!(read_proc_stat(&content), Some((90, 40)));
}

#[test]
fn test_read_proc_stat_extra_fields_ignored() {
    let content = b"cpu  10 20 30 40 50 60 70\n".to_vec();
    assert_eq!(read_proc_stat(&content), Some((100, 40)));
}

#[test]
fn test_compute_usage() {
    // deltas: total 100, idle 40 => 100 * (100 - 40) / 100 = 60.0%
    assert_eq!(compute_usage(100, 40), 60000);
}

#[test]
fn test_compute_usage_zero_delta() {
    assert_eq!(compute_usage(0, 0), 0);
}

#[test]
fn test_compute_usage_rounding() {
    // 100 * 2 / 3 = 66.666..% rounds to 66.667%
    assert_eq!(compute_usage(3, 1), 66667);
}
