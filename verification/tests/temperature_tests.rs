use cpu_ruststats::temperature::{
    average_temperature, extract_temperatures, icon_for, SensorChip, SensorField, SensorLabel,
};

fn field(key: &str, degrees: f64) -> SensorField {
    SensorField { key: String::from(key), milli: (degrees * 1000.0).round() as i64 }
}

#[test]
fn test_read_temperature() {
    // The sensor tool's report {"coretemp-isa-0000":{"Core 0":{"temp1_input":50.0},
    // "Core 1":{"temp2_input":55.0}}} as the library's reading model.
    let report = vec![SensorChip {
        labels: vec![
            SensorLabel { fields: vec![field("temp1_input", 50.0)] },
            SensorLabel { fields: vec![field("temp2_input", 55.0)] },
        ],
    }];
    let temps = extract_temperatures(&report);
    assert_eq!(temps.len(), 2);
    assert_eq!(temps[0], 50000);
    assert_eq!(temps[1], 55000);
}

#[test]
fn test_read_temperature_no_data() {
    let report: Vec<SensorChip> = vec![];
    let temps = extract_temperatures(&report);
    assert!(temps.is_empty());
}

#[test]
fn test_extract_filters_keys() {
    let report = vec![SensorChip {
        labels: vec![SensorLabel {
            fields: vec![
                field("temp1_input", 50.0),
                field("temp1_max", 100.0),
                field("fan1_input", 1200.0),
                field("temp2_input", 54.0),
            ],
        }],
    }];
    let temps = extract_temperatures(&report);
    assert_eq!(temps, vec![50000, 54000]);
}

#[test]
fn test_average_temperature() {
    // [50.0, 55.0] averages to 52.5
    assert_eq!(average_temperature(&vec![50000, 55000]), Some(52500));
}

#[test]
fn test_average_single() {
    assert_eq!(average_temperature(&vec![47000]), Some(47000));
}

#[test]
fn test_average_empty_is_none() {
    assert_eq!(average_temperature(&Vec::new()), None);
}

#[test]
fn test_average_negative() {
    assert_eq!(average_temperature(&vec![-1000, -2000]), Some(-1500));
}

#[test]
fn test_icon_bands() {
    assert_eq!(icon_for(20000), "\u{f2cb}");
    assert_eq!(icon_for(30000), "\u{f2ca}");
    assert_eq!(icon_for(52500), "\u{f2c9}");
    assert_eq!(icon_for(70000), "\u{f2c8}");
    assert_eq!(icon_for(80000), "\u{f2c7}");
}
