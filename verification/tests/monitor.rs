use usb_sentinel::device::{Config, Dev};
use usb_sentinel::monitor::Monitor;

fn config_a() -> Config {
    Config::new(1, 250, true, false, Some(String::from("default")))
}

fn dev(vendor: u16, product: u16) -> Dev {
    Dev::new(
        1,
        2,
        2,
        0,
        0,
        3,
        1,
        2,
        vendor,
        product,
        Some(String::from("Acme")),
        Some(String::from("Mouse")),
        Some(String::from("SN1")),
        vec![config_a()],
    )
}

#[test]
fn clean_cycle_reports_no_threats() {
    let monitor = Monitor::new(vec![dev(0x1234, 0x5678)]);
    let working = vec![dev(0x1234, 0x5678)];
    let report = monitor.cycle(&working);
    assert!(report.is_clean());
    let lines = report.lines();
    assert!(lines.len() == 1);
    assert_eq!(lines[0], "No threats found...");
}

#[test]
fn substituted_device_reports_new_and_missing() {
    let monitor = Monitor::new(vec![dev(0x1234, 0x5678)]);
    let working = vec![dev(0x1234, 0x9999)];
    let report = monitor.cycle(&working);
    assert!(!report.is_clean());
    assert!(report.new.len() == 1);
    assert!(report.new[0] == dev(0x1234, 0x9999));
    assert!(report.missing.len() == 1);
    assert!(report.missing[0] == dev(0x1234, 0x5678));
    let lines = report.lines();
    assert!(lines.len() == 4);
    assert_eq!(lines[0], "[-] New device detected!");
    assert_eq!(lines[1], dev(0x1234, 0x9999).summary());
    assert_eq!(lines[2], "[-] Device missing!");
    assert_eq!(lines[3], dev(0x1234, 0x5678).summary());
}

#[test]
fn added_device_reports_only_new() {
    let monitor = Monitor::new(vec![dev(0x1234, 0x5678)]);
    let working = vec![dev(0x1234, 0x5678), dev(0xAAAA, 0xBBBB)];
    let report = monitor.cycle(&working);
    assert!(report.new.len() == 1);
    assert!(report.new[0] == dev(0xAAAA, 0xBBBB));
    assert!(report.missing.is_empty());
    let lines = report.lines();
    assert!(lines.len() == 2);
    assert_eq!(lines[0], "[-] New device detected!");
    assert_eq!(lines[1], dev(0xAAAA, 0xBBBB).summary());
}

#[test]
fn unplugged_device_reports_only_missing() {
    let monitor = Monitor::new(vec![dev(0x1234, 0x5678), dev(0xAAAA, 0xBBBB)]);
    let working = vec![dev(0x1234, 0x5678)];
    let report = monitor.cycle(&working);
    assert!(report.new.is_empty());
    assert!(report.missing.len() == 1);
    assert!(report.missing[0] == dev(0xAAAA, 0xBBBB));
    let lines = report.lines();
    assert!(lines.len() == 2);
    assert_eq!(lines[0], "[-] Device missing!");
    assert_eq!(lines[1], dev(0xAAAA, 0xBBBB).summary());
}
