use xentool::config::{
    compute_board_assignments, is_legacy_synthetic_id, parse_board_index, DeviceConfig,
    DeviceIdentifier,
};
use xentool::exquis::midi::ExquisDevice;
use xentool::usb::UsbDeviceInfo;

fn make_device(number: usize, serial: &str) -> ExquisDevice {
    ExquisDevice {
        number,
        label: format!("Exquis ({number})"),
        input_name: Some("Exquis".to_string()),
        output_name: Some("Exquis".to_string()),
        input_names: vec!["Exquis".to_string()],
        output_names: vec!["Exquis".to_string()],
        usb_info: Some(UsbDeviceInfo {
            product_name: Some("Exquis".to_string()),
            manufacturer: Some("Intuitive Instruments".to_string()),
            serial_number: Some(serial.to_string()),
            vendor_id: 0x1234,
            product_id: 0x5678,
            bus_number: 0,
            address: 0,
            port_numbers: vec![],
            location: format!("loc-{serial}"),
            unique_id: serial.to_string(),
            firmware_version: None,
        }),
    }
}

fn make_config(pins: &[(&str, &str)]) -> DeviceConfig {
    let mut devices = Vec::new();
    for (board, serial) in pins {
        devices.push((
            board.to_string(),
            DeviceIdentifier { serial: Some(serial.to_string()), usb_location: None },
        ));
    }
    DeviceConfig { devices }
}

fn pin(config: &DeviceConfig, board: &str) -> Option<String> {
    config
        .devices
        .iter()
        .find(|(name, _)| name == board)
        .and_then(|(_, i)| i.serial.clone())
}

fn serial_at(assignments: &[xentool::config::BoardAssignment], board: &str) -> Option<String> {
    assignments
        .iter()
        .find(|a| a.board_name == board)
        .map(|a| a.device.usb_info.as_ref().unwrap().serial_number.clone().unwrap())
}

#[test]
fn absent_device_pin_survives_partial_sync() {
    let config = make_config(&[("board0", "A"), ("board1", "B"), ("board2", "C"), ("board3", "D")]);
    let devices = vec![make_device(1, "A"), make_device(2, "C"), make_device(3, "D")];
    let (assignments, new_config) = compute_board_assignments(&config, &devices);
    assert_eq!(assignments.len(), 3);
    assert_eq!(serial_at(&assignments, "board0").as_deref(), Some("A"));
    assert_eq!(serial_at(&assignments, "board2").as_deref(), Some("C"));
    assert_eq!(serial_at(&assignments, "board1").as_deref(), Some("D"));
    assert_eq!(pin(&new_config, "board0").as_deref(), Some("A"));
    assert_eq!(pin(&new_config, "board1").as_deref(), Some("B"));
    assert_eq!(pin(&new_config, "board2").as_deref(), Some("C"));
    assert_eq!(pin(&new_config, "board3").as_deref(), Some("D"));
}

#[test]
fn full_sync_preserves_existing_pins() {
    let config = make_config(&[("board0", "A"), ("board1", "B"), ("board2", "C"), ("board3", "D")]);
    let devices = vec![make_device(1, "C"), make_device(2, "A"), make_device(3, "D"), make_device(4, "B")];
    let (assignments, new_config) = compute_board_assignments(&config, &devices);
    assert_eq!(serial_at(&assignments, "board0").as_deref(), Some("A"));
    assert_eq!(serial_at(&assignments, "board1").as_deref(), Some("B"));
    assert_eq!(serial_at(&assignments, "board2").as_deref(), Some("C"));
    assert_eq!(serial_at(&assignments, "board3").as_deref(), Some("D"));
    assert_eq!(pin(&new_config, "board0").as_deref(), Some("A"));
    assert_eq!(pin(&new_config, "board1").as_deref(), Some("B"));
    assert_eq!(pin(&new_config, "board2").as_deref(), Some("C"));
    assert_eq!(pin(&new_config, "board3").as_deref(), Some("D"));
}

#[test]
fn new_device_does_not_steal_absent_pin() {
    let config = make_config(&[("board0", "A"), ("board1", "B"), ("board2", "C"), ("board3", "D")]);
    let devices = vec![make_device(1, "A"), make_device(2, "E"), make_device(3, "C"), make_device(4, "D")];
    let (_, new_config) = compute_board_assignments(&config, &devices);
    assert_eq!(pin(&new_config, "board0").as_deref(), Some("A"));
    assert_eq!(pin(&new_config, "board1").as_deref(), Some("B"));
    assert_eq!(pin(&new_config, "board2").as_deref(), Some("C"));
    assert_eq!(pin(&new_config, "board3").as_deref(), Some("D"));
    assert_eq!(pin(&new_config, "board4").as_deref(), Some("E"));
}

#[test]
fn empty_config_assigns_in_enumeration_order() {
    let config = DeviceConfig { devices: Vec::new() };
    let devices = vec![make_device(1, "X"), make_device(2, "Y"), make_device(3, "Z")];
    let (assignments, new_config) = compute_board_assignments(&config, &devices);
    assert_eq!(assignments[0].board_name, "board0");
    assert_eq!(assignments[1].board_name, "board1");
    assert_eq!(assignments[2].board_name, "board2");
    assert_eq!(pin(&new_config, "board0").as_deref(), Some("X"));
    assert_eq!(pin(&new_config, "board1").as_deref(), Some("Y"));
    assert_eq!(pin(&new_config, "board2").as_deref(), Some("Z"));
}

#[test]
fn no_devices_keeps_config() {
    let config = make_config(&[("board0", "A")]);
    let (assignments, new_config) = compute_board_assignments(&config, &[]);
    assert!(assignments.is_empty());
    assert_eq!(new_config.devices.len(), 1);
}

#[test]
fn two_devices_on_one_pin_and_location_pins() {
    // Both pins name the same device; the smaller board name wins.
    let mut config = make_config(&[("board2", "A"), ("board1", "A")]);
    let mut no_serial = make_device(2, "Q");
    if let Some(u) = no_serial.usb_info.as_mut() {
        u.serial_number = None;
        u.location = "bus-001/addr-004".to_string();
    }
    config.devices.push((
        "board7".to_string(),
        DeviceIdentifier { serial: None, usb_location: Some("bus-001/addr-004".to_string()) },
    ));
    let devices = vec![make_device(1, "A"), no_serial];
    let (assignments, new_config) = compute_board_assignments(&config, &devices);
    assert_eq!(assignments.len(), 2);
    assert_eq!(serial_at(&assignments, "board1").as_deref(), Some("A"));
    assert_eq!(assignments[0].board_name, "board0");
    assert!(assignments[0].device.usb_info.as_ref().unwrap().serial_number.is_none());
    assert_eq!(new_config.devices.len(), 3);
}

#[test]
fn board_index_and_legacy_ids() {
    assert_eq!(parse_board_index("board12"), Some(12));
    assert_eq!(parse_board_index("board"), None);
    assert_eq!(parse_board_index("Board1"), None);
    assert!(is_legacy_synthetic_id("MIDIU_KSA_1234"));
    assert!(!is_legacy_synthetic_id("ABC123"));
    let mut c = make_config(&[("board0", "MIDIU_KSA_1"), ("board1", "REAL")]);
    c.drop_legacy_pins();
    assert_eq!(c.devices.len(), 1);
    assert_eq!(c.devices[0].0, "board1");
}
