use cpu_ruststats::output::{cpu_status_line, format_milli, temperature_status_line};

#[test]
fn test_format_milli_whole() {
    assert_eq!(format_milli(60000), "60.0");
}

#[test]
fn test_format_milli_half() {
    assert_eq!(format_milli(52500), "52.5");
}

#[test]
fn test_format_milli_rounds_up() {
    assert_eq!(format_milli(99960), "100.0");
    assert_eq!(format_milli(150), "0.2");
}

#[test]
fn test_format_milli_negative() {
    assert_eq!(format_milli(-1500), "-1.5");
    assert_eq!(format_milli(-40), "-0.0");
}

#[test]
fn test_cpu_status_line() {
    let line = cpu_status_line(60000, "\u{2581}\u{2588}");
    assert_eq!(line, "60.0% \u{2581}\u{2588}");
}

#[test]
fn test_temperature_status_line() {
    let line = temperature_status_line(52500, "\u{2581}");
    assert_eq!(line, "\u{f2c9} 52.5\u{b0}C \u{2581}");
}
