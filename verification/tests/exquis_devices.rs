use xentool::cli::PadsCommands;
use xentool::exquis::commands::{
    test_pattern_messages,    serve_button_event, shift_in_range, ButtonOutcome,
    cmd_pads, ctrl_base_color, fill_messages, paint_all_ctrl_buttons_for_board, pad_set_messages,
    pressed_color, HeldButtons, PadsTask,
};
use xentool::exquis::midi::{
    group_linux_ports, match_usb_info, pair_ports, usb_info_from_interface, DeviceSelection,
};
use xentool::exquis::proto::Color;
use xentool::usb::{port_path, UsbDeviceInfo};

fn s(v: &str) -> String {
    v.to_string()
}

fn usb(product: &str, unique: &str) -> UsbDeviceInfo {
    UsbDeviceInfo {
        product_name: Some(s(product)),
        manufacturer: Some(s("Intuitive Instruments")),
        serial_number: None,
        vendor_id: 0x2985,
        product_id: 7,
        bus_number: 1,
        address: 2,
        port_numbers: vec![1],
        location: s("bus 1"),
        unique_id: s(unique),
        firmware_version: None,
    }
}

#[test]
fn linux_ports_group_by_client() {
    let inputs = vec![
        s("Exquis:Exquis MIDI 2 24:1"),
        s("Exquis:Exquis MIDI 1 24:0"),
        s("Exquis:Exquis MIDI 1 20:0"),
        s("Midi Through:Midi Through Port-0 14:0"),
    ];
    let outputs = vec![s("Exquis:Exquis MIDI 1 20:0")];
    let devs = group_linux_ports(&inputs, &outputs, &[]);
    assert_eq!(devs.len(), 2);
    assert_eq!(devs[0].number, 1);
    assert_eq!(devs[0].label, "Exquis (1)");
    assert_eq!(devs[0].input_names, vec![s("Exquis:Exquis MIDI 1 20:0")]);
    assert_eq!(devs[0].output_name, Some(s("Exquis:Exquis MIDI 1 20:0")));
    assert_eq!(devs[1].label, "Exquis (2)");
    assert_eq!(
        devs[1].input_names,
        vec![s("Exquis:Exquis MIDI 1 24:0"), s("Exquis:Exquis MIDI 2 24:1")]
    );
    assert_eq!(devs[1].input_name, Some(s("Exquis:Exquis MIDI 1 24:0")));
    assert!(devs[1].output_names.is_empty());
    assert!(devs[1].usb_info.is_none());
}

#[test]
fn usb_matching_by_unique_id_order() {
    let list = vec![usb("Exquis", "b"), usb("Exquis", "a")];
    assert_eq!(match_usb_info(&list, "Exquis", 0).unwrap().unique_id, "a");
    assert_eq!(match_usb_info(&list, "Exquis", 1).unwrap().unique_id, "b");
    assert!(match_usb_info(&list, "Exquis", 2).is_none());
    let one = vec![usb("Exquis", "z")];
    assert_eq!(match_usb_info(&one, "Exquis", 5).unwrap().unique_id, "z");
}

#[test]
fn winmm_ports_pair_by_position() {
    let ins = vec![(3usize, s("Exquis")), (5usize, s("Exquis"))];
    let outs = vec![(1usize, s("Exquis"))];
    let info = usb_info_from_interface(r"\\?\usb#vid_2985&pid_0007#abc#{g}\global");
    assert_eq!(info.as_ref().unwrap().unique_id, "ABC");
    assert!(usb_info_from_interface(r"\\?\usb#vid_1111&pid_0007#abc#{g}\global").is_none());
    let devs = pair_ports(&ins, &outs, &vec![info, None]);
    assert_eq!(devs.len(), 2);
    assert_eq!(devs[0].label, "Exquis (1)");
    assert_eq!(devs[0].output_name, Some(s("Exquis")));
    assert_eq!(devs[1].output_name, None);
    assert!(devs[1].output_names.is_empty());
    assert_eq!(devs[0].usb_info.as_ref().unwrap().serial_number, Some(s("ABC")));
    assert!(devs[1].usb_info.is_none());
    let lone = pair_ports(&vec![], &vec![(0usize, s("Exquis MIDI"))], &vec![]);
    assert_eq!(lone[0].label, "Exquis MIDI");
}

#[test]
fn pads_commands_and_messages() {
    let task = cmd_pads(PadsCommands::Clear { device: DeviceSelection::All, legacy: true });
    assert_eq!(
        task,
        PadsTask::Fill { color: Color::new(0, 0, 0), device: DeviceSelection::All, legacy: true }
    );
    let red = Color::new(127, 0, 0);
    let legacy = fill_messages(red, true);
    assert_eq!(legacy[0], vec![0xF0, 0x00, 0x21, 0x7E, 0x7F, 0x00, 0x01, 0xF7]);
    assert_eq!(legacy[1].len(), 7 + 61 * 4 + 1);
    let snap = fill_messages(red, false);
    assert_eq!(snap[0], vec![0xF0, 0x00, 0x21, 0x7E, 0x7F, 0x00, 0x3E, 0xF7]);
    assert_eq!(snap[1].len(), 262);
    assert!(pad_set_messages(61, red, true).is_err());
    let one = pad_set_messages(5, red, true).unwrap();
    assert_eq!(one[1], vec![0xF0, 0x00, 0x21, 0x7E, 0x7F, 0x04, 5, 127, 0, 0, 0, 0xF7]);
}

#[test]
fn control_button_colours() {
    assert_eq!(ctrl_base_color(107, 1), Color::new(127, 127, 0));
    assert_eq!(ctrl_base_color(107, 0), Color::new(64, 0, 96));
    assert_eq!(ctrl_base_color(106, -2), Color::new(127, 127, 0));
    assert_eq!(ctrl_base_color(100, 3), Color::new(64, 0, 96));
    assert_eq!(pressed_color(), Color::new(127, 127, 127));
    let m = paint_all_ctrl_buttons_for_board(-1);
    assert_eq!(m.len(), 4);
    assert_eq!(m[2], vec![0xF0, 0x00, 0x21, 0x7E, 0x7F, 0x04, 106, 127, 127, 0, 0, 0xF7]);
    assert_eq!(m[3], vec![0xF0, 0x00, 0x21, 0x7E, 0x7F, 0x04, 107, 64, 0, 96, 0, 0xF7]);
}

#[test]
fn default_zone_mask_leaves_settings_out() {
    assert_eq!(xentool::cli::default_zone_mask(), 0x2F);
    assert_eq!(xentool::wooting::analog::KeycodeType::Hid.code(), 0);
    assert_eq!(xentool::wooting::analog::KeycodeType::VirtualKeyTranslate.code(), 3);
}

#[test]
fn octave_buttons_keep_pads_in_midi_range() {
    let mut pads = std::collections::HashMap::new();
    pads.insert(0u8, xentool::xtn::PadEntry { key: 10, chan: 1, color: Color::new(0, 0, 0) });
    let bl = xentool::xtn::BoardLayout { pads };
    // 10 + 2 * 31 + shift * 31 steps of 31-EDO, times 12 / 31.
    assert!(shift_in_range(&bl, 31, 0, 8));
    assert!(!shift_in_range(&bl, 31, 0, 9));
    assert!(shift_in_range(&bl, 31, 0, -2));
    assert!(!shift_in_range(&bl, 31, 0, -3));
    let empty = xentool::xtn::BoardLayout { pads: std::collections::HashMap::new() };
    assert!(shift_in_range(&empty, 31, 0, 1000));

    assert_eq!(
        serve_button_event(Some(&bl), 31, 0, 0, 107, true),
        ButtonOutcome::Shifted { shift: 1, other_cc: 106, other_color: Color::new(64, 0, 96) }
    );
    assert_eq!(
        serve_button_event(Some(&bl), 31, 0, 0, 106, true),
        ButtonOutcome::Shifted { shift: -1, other_cc: 107, other_color: Color::new(64, 0, 96) }
    );
    assert_eq!(serve_button_event(Some(&bl), 31, 0, 8, 107, true), ButtonOutcome::Unchanged);
    assert_eq!(
        serve_button_event(Some(&bl), 31, 0, 8, 107, false),
        ButtonOutcome::Restore { cc: 107, color: Color::new(127, 127, 0) }
    );
    assert_eq!(serve_button_event(Some(&bl), 31, 0, 0, 100, true), ButtonOutcome::CycleLayout);
    assert_eq!(serve_button_event(Some(&bl), 31, 0, 0, 105, true), ButtonOutcome::Unchanged);
    assert_eq!(serve_button_event(None, 31, 0, 0, 106, true), ButtonOutcome::Unchanged);
}

#[test]
fn pad_test_pattern_cycles_the_palette() {
    let legacy = test_pattern_messages(true);
    assert_eq!(legacy.len(), 62);
    assert_eq!(legacy[1], vec![0xF0, 0x00, 0x21, 0x7E, 0x7F, 0x04, 0, 127, 0, 0, 0, 0xF7]);
    assert_eq!(legacy[2], vec![0xF0, 0x00, 0x21, 0x7E, 0x7F, 0x04, 1, 127, 64, 0, 0, 0xF7]);
    assert_eq!(legacy[7], vec![0xF0, 0x00, 0x21, 0x7E, 0x7F, 0x04, 6, 127, 0, 0, 0, 0xF7]);
    assert_eq!(legacy[61][6], 60);
    let snap = test_pattern_messages(false);
    assert_eq!(snap.len(), 2);
    assert_eq!(snap[1].len(), 262);
}

#[test]
fn device_listing_lines() {
    let info = xentool::usb::UsbDeviceInfo {
        product_name: Some("Exquis".into()),
        manufacturer: Some("Intuitive Instruments".into()),
        serial_number: None,
        vendor_id: 0x2FE3,
        product_id: 0x0100,
        bus_number: 1,
        address: 5,
        port_numbers: vec![1, 2],
        location: "1-1.2".into(),
        unique_id: "usb:1-1.2".into(),
        firmware_version: None,
    };
    let dev = xentool::exquis::midi::ExquisDevice {
        number: 1,
        label: "Exquis".into(),
        input_name: None,
        output_name: None,
        input_names: vec!["Exquis MIDI 1".into(), "Exquis MIDI 2".into()],
        output_names: vec![],
        usb_info: Some(info),
    };
    assert_eq!(
        xentool::exquis::midi::device_listing(&dev),
        vec![
            "[1] Exquis",
            "  id: usb:1-1.2",
            "  usb: 2fe3:0100",
            "  manufacturer: Intuitive Instruments",
            "  location: 1-1.2",
            "  usb-address: bus 1 addr 5",
            "  usb-ports: 1.2",
            "  firmware: unavailable",
            "  midi-in: Exquis MIDI 1, Exquis MIDI 2",
            "  midi-out: <missing output>",
        ]
    );
    let bare = xentool::exquis::midi::ExquisDevice {
        number: 2,
        label: "Exquis".into(),
        input_name: Some("in".into()),
        output_name: Some("out".into()),
        input_names: vec![],
        output_names: vec![],
        usb_info: None,
    };
    assert_eq!(
        xentool::exquis::midi::device_listing(&bare),
        vec!["[2] Exquis", "  id: unavailable", "  firmware: unavailable", "  midi-in: in", "  midi-out: out"]
    );
}

#[test]
fn held_buttons_report_edges_only() {
    let mut held = HeldButtons::new();
    assert_eq!(held.edge(1, &[0xBF, 107, 127]), Some((107, true)));
    assert_eq!(held.edge(1, &[0xBF, 107, 127]), None);
    assert_eq!(held.edge(2, &[0xBF, 107, 127]), Some((107, true)));
    assert_eq!(held.edge(1, &[0xBF, 107, 0]), Some((107, false)));
    assert_eq!(held.edge(1, &[0xBF, 107, 0]), None);
    assert_eq!(held.edge(1, &[0xBF, 110, 127]), None);
    assert_eq!(held.edge(1, &[0xB0, 100, 127]), None);
    assert_eq!(held.edge(1, &[0xBF, 100, 1]), Some((100, true)));
}

#[test]
fn usb_port_paths_from_bus_names() {
    assert_eq!(port_path("1-1.4"), vec![1, 4]);
    assert_eq!(port_path("3-2"), vec![2]);
    assert_eq!(port_path("usb1"), Vec::<u8>::new());
    assert_eq!(port_path("1-1.x.300.7"), vec![1, 7]);
}
