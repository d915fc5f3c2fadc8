use xentool::settings::{
    default_boards, BoardSettings, ControlBarSettings, RgbSettings, SettingsError,
};

#[test]
fn board0_defaults_to_cc4_leftmeta() {
    let b = BoardSettings { wtn_board: 0, ..Default::default() };
    assert_eq!(b.cc_analog(), Some(("LeftMeta".to_string(), 4)));
    let b1 = BoardSettings { wtn_board: 1, ..Default::default() };
    assert_eq!(b1.cc_analog(), Some(("LeftMeta".to_string(), 3)));
}

#[test]
fn cc_analog_uses_configured_values() {
    let b = BoardSettings { wtn_board: 5, ..Default::default() };
    assert_eq!(b.cc_analog(), None);
    let b = BoardSettings {
        wtn_board: 5,
        cc_analog_cc: Some(11),
        cc_analog_hid: Some("Space".to_string()),
        ..Default::default()
    };
    assert_eq!(b.cc_analog(), Some(("Space".to_string(), 11)));
}

#[test]
fn device_id_is_trimmed_decimal() {
    let mut b = BoardSettings::default();
    assert_eq!(b.device_id_u64(), Ok(None));
    b.device_id = Some(" 18446744073709551615 ".to_string());
    assert_eq!(b.device_id_u64(), Ok(Some(u64::MAX)));
    b.device_id = Some("12x".to_string());
    assert_eq!(b.device_id_u64(), Err(SettingsError::InvalidDeviceId));
    b.device_id = Some("18446744073709551616".to_string());
    assert_eq!(b.device_id_u64(), Err(SettingsError::InvalidDeviceId));
}

#[test]
fn defaults_of_bar_and_boards() {
    let cb = ControlBarSettings::default();
    assert_eq!(cb.row, 5);
    assert_eq!(cb.cols_named("Space"), Some(vec![4u8, 5, 6, 7, 8]));
    assert_eq!(cb.cols_named("RightAlt"), Some(vec![10u8]));
    assert_eq!(cb.cols_named("Fn"), None);
    assert_eq!(RgbSettings::default().screensaver_timeout_sec, 300);
    let boards = default_boards();
    assert_eq!(boards.len(), 2);
    assert_eq!(boards[1].cc_analog(), Some(("LeftMeta".to_string(), 3)));
}
