use std::str::FromStr;

use xentool::exquis::proto::{
    color_help_text, control_display_name, control_id_from_name, control_name, enter_dev_mode,
    exit_dev_mode, fill_all_pads, set_led_color, snapshot_fill_color, snapshot_set_colors, Color,
    ColorError, NamedZone, DEV_MASK_NO_PADS,
};

#[test]
fn parses_named_color() {
    assert_eq!(Color::from_str("amber").unwrap(), Color::new(127, 64, 0));
}

#[test]
fn scales_rgb_255_to_127() {
    assert_eq!(Color::from_str("255,128,0").unwrap(), Color::new(127, 64, 0));
    assert_eq!(Color::from_str("127,127,127").unwrap(), Color::new(63, 63, 63));
}

#[test]
fn builds_fill_message() {
    let msg = fill_all_pads(Color::new(1, 2, 3));
    assert_eq!(&msg[..7], &[0xF0, 0x00, 0x21, 0x7E, 0x7F, 0x04, 0x00]);
    assert_eq!(msg.last().copied(), Some(0xF7));
    assert_eq!(msg.len(), 7 + 61 * 4 + 1);
}

#[test]
fn parses_hex_color() {
    assert_eq!(Color::from_hex("FF0000").unwrap(), Color::new(127, 0, 0));
    assert_eq!(Color::from_hex("007F00").unwrap(), Color::new(0, 63, 0));
    assert_eq!(Color::from_hex("507BD8").unwrap(), Color::new(40, 61, 108));
}

#[test]
fn resolves_control_names() {
    assert_eq!(control_id_from_name("settings"), Some(100));
    assert_eq!(control_id_from_name("encoder-1"), Some(110));
    assert_eq!(control_id_from_name("slider-1"), Some(80));
    assert_eq!(control_id_from_name("110"), Some(110));
    assert_eq!(control_id_from_name("unknown"), None);
}

#[test]
fn named_colors_ignore_case_and_space() {
    assert_eq!(Color::named("  Purple "), Some(Color::new(72, 0, 96)));
    assert_eq!(Color::named("teal"), None);
}

#[test]
fn hex_color_accepts_argb_and_hash() {
    assert_eq!(Color::from_hex("#80FF0000").unwrap(), Color::new(127, 0, 0));
    assert_eq!(Color::from_hex("##507bd8").unwrap(), Color::new(40, 61, 108));
}

#[test]
fn hex_color_errors() {
    assert_eq!(Color::from_hex("FFF"), Err(ColorError::HexLength));
    assert_eq!(Color::from_hex("GG0000"), Err(ColorError::HexDigit));
    // A two-byte character in the alpha part of an 8-byte value is dropped with it.
    assert_eq!(Color::from_hex("\u{e9}FF0000"), Ok(Color::new(127, 0, 0)));
    // Slicing would split the character: an error here.
    assert_eq!(Color::from_hex("F\u{e9}000"), Err(ColorError::HexDigit));
}

#[test]
fn rgb_color_errors() {
    assert_eq!(Color::from_str("1,2"), Err(ColorError::NotNameOrRgb));
    assert_eq!(Color::from_str("1,x,3"), Err(ColorError::RgbValue));
    assert_eq!(Color::from_str("1,256,3"), Err(ColorError::RgbRange));
    assert_eq!(Color::from_str(" 255 , +0 ,0"), Ok(Color::new(127, 0, 0)));
}

#[test]
fn color_display_and_bytes() {
    assert_eq!(Color::new(1, 20, 127).to_display_string(), "1,20,127");
    assert_eq!(Color::new(1, 2, 3).to_7bit(), [1, 2, 3, 0]);
    assert!(color_help_text().contains("255,128,0"));
}

#[test]
fn dev_mode_messages() {
    assert_eq!(enter_dev_mode(DEV_MASK_NO_PADS), vec![0xF0, 0x00, 0x21, 0x7E, 0x7F, 0x00, 0x3E, 0xF7]);
    assert_eq!(exit_dev_mode(), vec![0xF0, 0x00, 0x21, 0x7E, 0x7F, 0x00, 0x00, 0xF7]);
    assert_eq!(NamedZone::Settings.bit(), 0x10);
    assert_eq!(NamedZone::OtherButtons.bit(), 0x20);
}

#[test]
fn led_and_snapshot_messages() {
    assert_eq!(
        set_led_color(100, Color::new(1, 2, 3)),
        vec![0xF0, 0x00, 0x21, 0x7E, 0x7F, 0x04, 100, 1, 2, 3, 0, 0xF7]
    );
    let s = snapshot_fill_color(Color::new(5, 6, 7));
    assert_eq!(s.len(), 262);
    assert_eq!(&s[17..21], &[36, 5, 6, 7]);
    assert_eq!(&s[257..262], &[96, 5, 6, 7, 0xF7]);
    let mut colors = [Color::new(0, 0, 0); 61];
    colors[60] = Color::new(9, 9, 9);
    let s2 = snapshot_set_colors(&colors);
    assert_eq!(&s2[257..261], &[96, 9, 9, 9]);
}

#[test]
fn control_names_format_ids() {
    assert_eq!(control_name(12).as_deref(), Some("pad_12"));
    assert_eq!(control_name(81).as_deref(), Some("slider_portion_2"));
    assert_eq!(control_name(117).as_deref(), Some("encoder_4_button"));
    assert_eq!(control_name(70), None);
    assert_eq!(control_display_name(105).as_deref(), Some("Play/Stop"));
    assert_eq!(control_display_name(111).as_deref(), Some("Encoder 2"));
}

#[test]
fn control_names_read_back_except_pads() {
    for id in (80u8..=85).chain([90u8]).chain(100u8..=117) {
        let name = xentool::exquis::proto::control_name(id).unwrap();
        assert_eq!(xentool::exquis::proto::control_id_from_name(&name), Some(id));
    }
    assert_eq!(xentool::exquis::proto::control_id_from_name("pad_0"), None);
}
