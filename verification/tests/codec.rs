use usb_sentinel::codec::{decode_snapshot, encode_snapshot};
use usb_sentinel::device::{Config, Dev};
use usb_sentinel::monitor::MonitorError;

fn config_a() -> Config {
    Config::new(1, 250, true, false, Some(String::from("default")))
}

fn config_b() -> Config {
    Config::new(2, 100, false, true, Some(String::from("alternate")))
}

fn dev(vendor: u16, product: u16, configs: Vec<Config>) -> Dev {
    Dev::new(
        1,
        2,
        2,
        0,
        0,
        3,
        1,
        2,
        vendor,
        product,
        Some(String::from("Acme")),
        Some(String::from("Mouse")),
        Some(String::from("SN1")),
        configs,
    )
}

#[test]
fn encode_one_device_exact() {
    let snapshot = vec![dev(0x1234, 0x5678, vec![config_a()])];
    let text = encode_snapshot(&snapshot);
    let expected = "[{\"product\":\"Mouse\",\"manufacturer\":\"Acme\",\"serial_num\":\"SN1\",\"bus_number\":1,\"address\":2,\"d_version_major\":2,\"d_version_minor\":0,\"d_version_sub\":0,\"d_class\":3,\"d_subclass\":1,\"d_proto\":2,\"d_vendor_id\":4660,\"d_product_id\":22136,\"configs\":[{\"config_num\":1,\"max_power\":250,\"internal_powered\":true,\"remote_wakeup\":false,\"config_str\":\"default\"}]}]";
    assert_eq!(text, expected);
}

#[test]
fn encode_empty_snapshot_exact() {
    let snapshot: Vec<Dev> = vec![];
    assert_eq!(encode_snapshot(&snapshot), "[]");
}

#[test]
fn round_trip_empty_snapshot() {
    let snapshot: Vec<Dev> = vec![];
    let text = encode_snapshot(&snapshot);
    match decode_snapshot(&text) {
        Ok(back) => assert!(back.is_empty()),
        Err(_) => panic!("canonical text refused"),
    }
}

#[test]
fn round_trip_one_device() {
    let snapshot = vec![dev(0x1234, 0x5678, vec![config_a()])];
    let text = encode_snapshot(&snapshot);
    match decode_snapshot(&text) {
        Ok(back) => {
            assert!(back.len() == 1);
            assert!(back[0] == snapshot[0]);
        },
        Err(_) => panic!("canonical text refused"),
    }
}

#[test]
fn round_trip_many_devices_varying_configs() {
    let snapshot = vec![
        dev(0x0001, 0x0002, vec![]),
        dev(0x1234, 0x5678, vec![config_a()]),
        dev(0xFFFF, 0xFFFE, vec![config_a(), config_b()]),
    ];
    let text = encode_snapshot(&snapshot);
    match decode_snapshot(&text) {
        Ok(back) => {
            assert!(back.len() == 3);
            assert!(back[0] == snapshot[0]);
            assert!(back[1] == snapshot[1]);
            assert!(back[2] == snapshot[2]);
        },
        Err(_) => panic!("canonical text refused"),
    }
}

#[test]
fn round_trip_strings_needing_escapes() {
    let tricky = Config::new(1, 1, false, false, Some(String::from("say \"hi\" \\ done")));
    let d = Dev::new(
        0,
        0,
        1,
        1,
        0,
        0,
        0,
        0,
        1,
        1,
        Some(String::from("a\\b")),
        Some(String::from("\"quoted\"")),
        None,
        vec![tricky],
    );
    let snapshot = vec![d];
    let text = encode_snapshot(&snapshot);
    match decode_snapshot(&text) {
        Ok(back) => {
            assert!(back.len() == 1);
            assert!(back[0] == snapshot[0]);
            assert_eq!(back[0].product, "\"quoted\"");
            assert_eq!(back[0].manufacturer, "a\\b");
            assert_eq!(back[0].configs[0].config_str, "say \"hi\" \\ done");
        },
        Err(_) => panic!("canonical text refused"),
    }
}

#[test]
fn decode_exact_canonical_text() {
    let text = "[{\"product\":\"Mouse\",\"manufacturer\":\"Acme\",\"serial_num\":\"SN1\",\"bus_number\":1,\"address\":2,\"d_version_major\":2,\"d_version_minor\":0,\"d_version_sub\":0,\"d_class\":3,\"d_subclass\":1,\"d_proto\":2,\"d_vendor_id\":4660,\"d_product_id\":22136,\"configs\":[]}]";
    match decode_snapshot(text) {
        Ok(back) => {
            assert!(back.len() == 1);
            assert!(back[0] == dev(0x1234, 0x5678, vec![]));
        },
        Err(_) => panic!("canonical text refused"),
    }
}

#[test]
fn decode_rejects_corrupt_text() {
    let cases = [
        "",
        "[",
        "]",
        "{}",
        "[{]",
        "[{\"product\":\"Mouse\"}]",
        "[{\"product\":\"Mouse]",
        "not json at all",
    ];
    for case in cases.iter() {
        match decode_snapshot(case) {
            Ok(_) => panic!("corrupt text accepted"),
            Err(e) => assert_eq!(e, MonitorError::CorruptDatabase),
        }
    }
}

#[test]
fn decode_rejects_trailing_garbage() {
    let snapshot = vec![dev(0x1234, 0x5678, vec![config_a()])];
    let mut text = encode_snapshot(&snapshot);
    text.push_str("x");
    match decode_snapshot(&text) {
        Ok(_) => panic!("trailing garbage accepted"),
        Err(e) => assert_eq!(e, MonitorError::CorruptDatabase),
    }
}

#[test]
fn decode_rejects_leading_zero_number() {
    let text = "[{\"product\":\"M\",\"manufacturer\":\"A\",\"serial_num\":\"S\",\"bus_number\":01,\"address\":2,\"d_version_major\":2,\"d_version_minor\":0,\"d_version_sub\":0,\"d_class\":3,\"d_subclass\":1,\"d_proto\":2,\"d_vendor_id\":4660,\"d_product_id\":22136,\"configs\":[]}]";
    match decode_snapshot(text) {
        Ok(_) => panic!("leading zero accepted"),
        Err(e) => assert_eq!(e, MonitorError::CorruptDatabase),
    }
}

#[test]
fn decode_rejects_out_of_range_number() {
    let text = "[{\"product\":\"M\",\"manufacturer\":\"A\",\"serial_num\":\"S\",\"bus_number\":256,\"address\":2,\"d_version_major\":2,\"d_version_minor\":0,\"d_version_sub\":0,\"d_class\":3,\"d_subclass\":1,\"d_proto\":2,\"d_vendor_id\":4660,\"d_product_id\":22136,\"configs\":[]}]";
    match decode_snapshot(text) {
        Ok(_) => panic!("out-of-range number accepted"),
        Err(e) => assert_eq!(e, MonitorError::CorruptDatabase),
    }
}
