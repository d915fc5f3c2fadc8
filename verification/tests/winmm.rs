use xentool::exquis::winmm_drv::parse_usb_serial;

#[test]
fn parse_usb_path_extracts_serial() {
    let path = r"\\?\usb#vid_2985&pid_0007#363534493233#{6994ad04-93ef-11d0-a3cc-00a0c9223196}\global";
    let (vid, pid, serial) = parse_usb_serial(path).unwrap();
    assert_eq!(vid, 0x2985);
    assert_eq!(pid, 0x0007);
    assert_eq!(serial, "363534493233");
}

#[test]
fn parse_usb_path_uppercases_hex_serial() {
    let path = r"\\?\usb#vid_2985&pid_0007#3964353b3532#{6994ad04-93ef-11d0-a3cc-00a0c9223196}\global";
    let (_, _, serial) = parse_usb_serial(path).unwrap();
    assert_eq!(serial, "3964353B3532");
}

#[test]
fn parse_rejects_non_usb_paths() {
    let path = r"\\?\root#media#0000#{6994ad04-93ef-11d0-a3cc-00a0c9223196}\tevmidi0";
    assert!(parse_usb_serial(path).is_none());
}

#[test]
fn parse_rejects_empty_path() {
    assert!(parse_usb_serial("").is_none());
}

#[test]
fn parse_usb_path_is_case_insensitive_for_tags() {
    let path = r"\\?\USB#VID_2985&PID_000A#abc#{guid}\global";
    assert_eq!(parse_usb_serial(path), Some((0x2985, 0x000A, "ABC".to_string())));
}

#[test]
fn parse_usb_path_serial_may_run_to_the_end() {
    assert_eq!(parse_usb_serial("usb#vid_0001&pid_0002#xyz"), Some((1, 2, "XYZ".to_string())));
}

#[test]
fn parse_usb_path_rejects_missing_serial_or_ids() {
    assert!(parse_usb_serial("usb#vid_0001&pid_0002##guid").is_none());
    assert!(parse_usb_serial("usb#vid_0001&pid_0002").is_none());
    assert!(parse_usb_serial("usb#vid_0001#serial#g").is_none());
    assert!(parse_usb_serial("usb#vid_00zz&pid_0002#serial#g").is_none());
    assert!(parse_usb_serial("usb#vid_01&pid_0002#serial#g").is_none());
}
