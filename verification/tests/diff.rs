use usb_sentinel::device::{Config, Dev};
use usb_sentinel::diff::{diff, snapshot_contains};

fn config_a() -> Config {
    Config::new(1, 250, true, false, Some(String::from("default")))
}

fn config_b() -> Config {
    Config::new(2, 100, false, true, Some(String::from("alternate")))
}

fn dev(vendor: u16, product: u16, configs: Vec<Config>) -> Dev {
    Dev::new(
        1,
        2,
        2,
        0,
        0,
        3,
        1,
        2,
        vendor,
        product,
        Some(String::from("Acme")),
        Some(String::from("Widget")),
        Some(String::from("SN1")),
        configs,
    )
}

#[test]
fn diff_identical_snapshots_is_empty() {
    let s = vec![
        dev(0x1234, 0x5678, vec![config_a()]),
        dev(0x9999, 0x0001, vec![config_a(), config_b()]),
    ];
    let t = vec![
        dev(0x1234, 0x5678, vec![config_a()]),
        dev(0x9999, 0x0001, vec![config_a(), config_b()]),
    ];
    let (new, missing) = diff(&s, &t);
    assert!(new.is_empty());
    assert!(missing.is_empty());
}

#[test]
fn diff_appended_device_is_new() {
    let base = vec![dev(0x1234, 0x5678, vec![config_a()])];
    let work = vec![
        dev(0x1234, 0x5678, vec![config_a()]),
        dev(0xAAAA, 0xBBBB, vec![config_b()]),
    ];
    let (new, missing) = diff(&base, &work);
    assert!(new.len() == 1);
    assert!(new[0] == dev(0xAAAA, 0xBBBB, vec![config_b()]));
    assert!(missing.is_empty());
}

#[test]
fn diff_removed_device_is_missing() {
    let base = vec![
        dev(0x1234, 0x5678, vec![config_a()]),
        dev(0xAAAA, 0xBBBB, vec![config_b()]),
    ];
    let work = vec![dev(0x1234, 0x5678, vec![config_a()])];
    let (new, missing) = diff(&base, &work);
    assert!(new.is_empty());
    assert!(missing.len() == 1);
    assert!(missing[0] == dev(0xAAAA, 0xBBBB, vec![config_b()]));
}

#[test]
fn changed_attribute_reports_new_and_missing() {
    let base = vec![dev(0x1234, 0x5678, vec![config_a()])];
    let work = vec![dev(0x1234, 0x9999, vec![config_a()])];
    let (new, missing) = diff(&base, &work);
    assert!(new.len() == 1);
    assert!(new[0] == dev(0x1234, 0x9999, vec![config_a()]));
    assert!(missing.len() == 1);
    assert!(missing[0] == dev(0x1234, 0x5678, vec![config_a()]));
}

#[test]
fn reordered_configs_report_both_new_and_missing() {
    let base = vec![
        dev(0x1111, 0x0001, vec![config_a(), config_b()]),
        dev(0x2222, 0x0002, vec![config_b(), config_a()]),
    ];
    let work = vec![
        dev(0x1111, 0x0001, vec![config_b(), config_a()]),
        dev(0x2222, 0x0002, vec![config_a(), config_b()]),
    ];
    let (new, missing) = diff(&base, &work);
    assert!(new.len() == 2);
    assert!(missing.len() == 2);
    assert!(new[0] == dev(0x1111, 0x0001, vec![config_b(), config_a()]));
    assert!(new[1] == dev(0x2222, 0x0002, vec![config_a(), config_b()]));
    assert!(missing[0] == dev(0x1111, 0x0001, vec![config_a(), config_b()]));
    assert!(missing[1] == dev(0x2222, 0x0002, vec![config_b(), config_a()]));
}

#[test]
fn duplicate_baseline_records_both_match_one_working_record() {
    let base = vec![
        dev(0x1234, 0x5678, vec![config_a()]),
        dev(0x1234, 0x5678, vec![config_a()]),
    ];
    let work = vec![dev(0x1234, 0x5678, vec![config_a()])];
    let (new, missing) = diff(&base, &work);
    assert!(new.is_empty());
    assert!(missing.is_empty());
}

#[test]
fn snapshot_contains_scans_linearly() {
    let s = vec![dev(0x1234, 0x5678, vec![config_a()])];
    assert!(snapshot_contains(&s, &dev(0x1234, 0x5678, vec![config_a()])));
    assert!(!snapshot_contains(&s, &dev(0x1234, 0x5679, vec![config_a()])));
    assert!(!snapshot_contains(&s, &dev(0x1234, 0x5678, vec![config_b()])));
}
