use usb_sentinel::device::{Config, Dev};

fn config_a() -> Config {
    Config::new(1, 250, true, false, Some(String::from("default")))
}

fn config_b() -> Config {
    Config::new(2, 100, false, true, Some(String::from("alternate")))
}

fn dev_with(configs: Vec<Config>) -> Dev {
    Dev::new(
        1,
        2,
        2,
        0,
        0,
        3,
        1,
        2,
        0x1234,
        0x5678,
        Some(String::from("Acme")),
        Some(String::from("Mouse")),
        Some(String::from("SN1")),
        configs,
    )
}

#[test]
fn config_equality_reflexive() {
    let a = config_a();
    let b = config_a();
    assert!(a == a);
    assert!(a == b);
}

#[test]
fn config_equality_symmetric() {
    let a = config_a();
    let b = config_a();
    let c = config_b();
    assert!(a == b && b == a);
    assert!(!(a == c) && !(c == a));
}

#[test]
fn config_equality_transitive() {
    let a = config_a();
    let b = config_a();
    let c = config_a();
    assert!(a == b && b == c && a == c);
}

#[test]
fn config_field_mismatch_unequal() {
    let a = config_a();
    assert!(!(a == Config::new(9, 250, true, false, Some(String::from("default")))));
    assert!(!(a == Config::new(1, 251, true, false, Some(String::from("default")))));
    assert!(!(a == Config::new(1, 250, false, false, Some(String::from("default")))));
    assert!(!(a == Config::new(1, 250, true, true, Some(String::from("default")))));
    assert!(!(a == Config::new(1, 250, true, false, Some(String::from("other")))));
}

#[test]
fn config_string_placeholder() {
    let c = Config::new(1, 250, true, false, None);
    assert_eq!(c.config_str, "No config description");
}

#[test]
fn dev_equality_reflexive_and_symmetric() {
    let a = dev_with(vec![config_a(), config_b()]);
    let b = dev_with(vec![config_a(), config_b()]);
    assert!(a == a);
    assert!(a == b && b == a);
}

#[test]
fn dev_equality_transitive() {
    let a = dev_with(vec![config_a()]);
    let b = dev_with(vec![config_a()]);
    let c = dev_with(vec![config_a()]);
    assert!(a == b && b == c && a == c);
}

#[test]
fn dev_reordered_configs_unequal() {
    let a = dev_with(vec![config_a(), config_b()]);
    let b = dev_with(vec![config_b(), config_a()]);
    assert!(!(a == b));
    assert!(!(b == a));
}

#[test]
fn dev_config_count_mismatch_unequal() {
    let a = dev_with(vec![config_a()]);
    let b = dev_with(vec![config_a(), config_b()]);
    assert!(!(a == b));
    assert!(!(b == a));
}

#[test]
fn dev_string_placeholders() {
    let d = Dev::new(1, 2, 2, 0, 0, 3, 1, 2, 0x1234, 0x5678, None, None, None, vec![]);
    assert_eq!(d.manufacturer, "No Manufacturer Information Available");
    assert_eq!(d.product, "No Product Information Available");
    assert_eq!(d.serial_num, "No Serial Number Available");
}

#[test]
fn dev_summary_exact() {
    let d = dev_with(vec![config_a()]);
    let expected = "\tProduct=Mouse\n\tManufacturer=Acme\n\tSerial Number=SN1\n\tBus Number=1\n\tAddress=2\n\tUSB Version=2.0.0\n\tUSB Class=3\n\tSubclass=1\n\tProtocol=2\n\tVendor Id=4660\n\tProduct ID=22136";
    assert_eq!(d.summary(), expected);
}

#[test]
fn dev_clone_compares_equal() {
    let a = dev_with(vec![config_a(), config_b()]);
    let b = a.clone();
    assert!(a == b);
}
