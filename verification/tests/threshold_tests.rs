use cpu_ruststats::threshold::{alert_color, classify, is_critical, Alert, CRITICAL_EXIT_CODE};

#[test]
fn test_critical_scenario() {
    // value 92, warn 70, crit 90: the critical color is emitted and the
    // process exits with the reserved critical code.
    let level = classify(92000, 70000, 90000);
    assert_eq!(level, Alert::Critical);
    assert_eq!(alert_color(level), Some("#FF0000"));
    assert!(is_critical(level));
    assert_eq!(CRITICAL_EXIT_CODE, 33);
}

#[test]
fn test_warning() {
    let level = classify(75000, 70000, 90000);
    assert_eq!(level, Alert::Warning);
    assert_eq!(alert_color(level), Some("#FFFC00"));
    assert!(!is_critical(level));
}

#[test]
fn test_normal() {
    let level = classify(50000, 70000, 90000);
    assert_eq!(level, Alert::Normal);
    assert_eq!(alert_color(level), None);
    assert!(!is_critical(level));
}

#[test]
fn test_boundaries_inclusive() {
    assert_eq!(classify(70000, 70000, 90000), Alert::Warning);
    assert_eq!(classify(90000, 70000, 90000), Alert::Critical);
}
