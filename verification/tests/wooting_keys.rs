use std::collections::HashMap;

use xentool::settings::{BoardSettings, ControlBarSettings, OneOrManyU8};
use xentool::wooting::control_bar::{
    aftertouch_mode_color, arrow_flash_target, cols_for_hid, hid_name, is_control_bar,
    paint_flash_on_down, paint_off, paint_restore, space_color, RgbCmd, AFTERTOUCH_OFF_RGB,
    AFTERTOUCH_PEAK_RGB, ARROW_FLASH_RGB, BASE_RGB, HIGHLIGHT_RGB,
};
use xentool::wooting::geometry::rotated;
use xentool::wooting::hud_ctx::{build_layout_pitches, pressed_from_held};
use xentool::wooting::hid;
use xentool::wooting::hidmap::{
    compute_compact_col_offsets, mirror_cols_4x14, rotate_4x14, wtn_index_for_loc, GridError,
    HidMap, KeyLoc,
};
use xentool::wooting::modes::AftertouchMode;
use xentool::wooting::serve::{
    aftertouch_toggle_allowed, bar_key_down, bar_key_up, next_velocity_index, screensaver_due,
    toggle_octave_hold, BarDown, BarUp, emit_cc_for_board, emit_pitchbend_for_board, out_channel, paint_initial_leds, pitch_bend_msg,
    pressure_due, resolve_cell, rgb_index_for_board, snapshot_due, used_channels,
};
use xentool::wooting::wtn::{Wtn, WtnCell};

#[test]
fn default_map_has_expected_keys() {
    let m = HidMap::default_60he_ansi_guess();
    assert!(m.loc_for(hid::ESCAPE).is_some());
    assert!(m.loc_for(hid::ENTER).is_some());
    let escape = m.loc_for(hid::ESCAPE).unwrap();
    assert_eq!((escape.midi_row, escape.midi_col), (0, 0));
    let enter = m.loc_for(hid::ENTER).unwrap();
    assert_eq!(enter.midi_row, 2);
    assert_eq!(enter.led_col, 13);
}

#[test]
fn rotate_180_flips() {
    let loc = KeyLoc { midi_row: 0, midi_col: 0, led_row: 0, led_col: 0 };
    let r = rotate_4x14(loc, 180).unwrap();
    assert_eq!((r.midi_row, r.midi_col), (3, 13));
}

#[test]
fn mirror_flips_cols() {
    let loc = KeyLoc { midi_row: 1, midi_col: 2, led_row: 2, led_col: 2 };
    let r = mirror_cols_4x14(loc, true).unwrap();
    assert_eq!(r.midi_col, 11);
}

#[test]
fn compact_offsets_are_zero_for_ansi_default() {
    let m = HidMap::default_60he_ansi_guess();
    assert_eq!(compute_compact_col_offsets(&m, 0), [0, 0, 0, 0]);
}

#[test]
fn rotate_errors_and_twice_is_identity() {
    let loc = KeyLoc { midi_row: 2, midi_col: 5, led_row: 3, led_col: 6 };
    assert_eq!(rotate_4x14(loc, 90), Err(GridError::UnsupportedRotation(90)));
    let far = KeyLoc { midi_row: 4, midi_col: 0, led_row: 5, led_col: 0 };
    assert_eq!(rotate_4x14(far, 180), Err(GridError::OutOfBounds));
    assert_eq!(rotate_4x14(far, 0), Ok(far));
    let once = rotate_4x14(loc, 180).unwrap();
    assert_eq!((once.led_row, once.led_col), (3, 6));
    assert_eq!(rotate_4x14(once, 180).unwrap(), loc);
    let m = mirror_cols_4x14(loc, true).unwrap();
    assert_eq!(mirror_cols_4x14(m, true).unwrap(), loc);
    assert_eq!(mirror_cols_4x14(far, false), Ok(far));
    assert_eq!(mirror_cols_4x14(far, true), Err(GridError::OutOfBounds));
}

#[test]
fn overrides_and_listing() {
    let mut m = HidMap::default_60he_ansi_guess();
    assert_eq!(m.all_locs().len(), 53);
    m.apply_overrides(&[(hid::Q, 3, 3, 4, 4), (0x99, 0, 1, 1, 1), (0x99, 1, 2, 2, 2)]);
    assert_eq!(m.loc_for(hid::Q), Some(KeyLoc { midi_row: 3, midi_col: 3, led_row: 4, led_col: 4 }));
    assert_eq!(m.loc_for(0x99), Some(KeyLoc { midi_row: 1, midi_col: 2, led_row: 2, led_col: 2 }));
    let all = m.all_locs();
    assert_eq!(all.len(), 54);
    for w in all.windows(2) {
        assert!(w[0].0 < w[1].0);
    }
}

#[test]
fn compact_offsets_follow_rotation() {
    // Row 3 ends at column 11 (RightShift), so turned round it starts at 2.
    let m = HidMap::default_60he_ansi_guess();
    assert_eq!(compute_compact_col_offsets(&m, 180), [2, 1, 0, 0]);
    let mut empty = HidMap::default_60he_ansi_guess();
    empty.apply_overrides(&[]);
    assert_eq!(compute_compact_col_offsets(&empty, 90), [0, 0, 0, 0]);
}

#[test]
fn wtn_index_packs_rows() {
    let compact = [0u8, 0, 1, 0];
    let loc = KeyLoc { midi_row: 2, midi_col: 5, led_row: 3, led_col: 5 };
    assert_eq!(wtn_index_for_loc(loc, 0, &compact), Some(2 * 14 + 4));
    let first = KeyLoc { midi_row: 2, midi_col: 0, led_row: 3, led_col: 0 };
    assert_eq!(wtn_index_for_loc(first, 0, &compact), None);
    assert_eq!(wtn_index_for_loc(loc, 180, &[0, 0, 0, 0]), Some(14 + 8));
    assert_eq!(wtn_index_for_loc(loc, 45, &compact), None);
}

#[test]
fn arrow_targets_match_xenwooting() {
    assert_eq!(arrow_flash_target(hid::ARROW_LEFT), Some(hid::RIGHT_ALT));
    assert_eq!(arrow_flash_target(hid::ARROW_DOWN), Some(hid::CONTEXT_MENU));
    assert_eq!(arrow_flash_target(hid::ARROW_RIGHT), Some(hid::RIGHT_CONTROL));
    assert_eq!(arrow_flash_target(hid::SPACE), None);
}

#[test]
fn aftertouch_colors_match() {
    let base = BASE_RGB;
    assert_eq!(aftertouch_mode_color(AftertouchMode::SpeedMapped, base), base);
    assert_eq!(aftertouch_mode_color(AftertouchMode::PeakMapped, base), AFTERTOUCH_PEAK_RGB);
    assert_eq!(aftertouch_mode_color(AftertouchMode::Off, base), AFTERTOUCH_OFF_RGB);
}

#[test]
fn space_color_overrides_when_hold() {
    assert_eq!(space_color(true, BASE_RGB), HIGHLIGHT_RGB);
    assert_eq!(space_color(false, BASE_RGB), BASE_RGB);
}

#[test]
fn is_control_bar_identifies_keys() {
    let cb = ControlBarSettings::default();
    assert!(is_control_bar(&cb, hid::SPACE));
    assert!(is_control_bar(&cb, hid::RIGHT_ALT));
    assert!(is_control_bar(&cb, hid::ARROW_LEFT));
    assert!(!is_control_bar(&cb, hid::Q));
}

#[test]
fn control_bar_names_and_columns() {
    let cb = ControlBarSettings::default();
    assert_eq!(hid_name(hid::LEFT_META), Some("LeftMeta"));
    assert_eq!(hid_name(hid::Q), None);
    assert_eq!(cols_for_hid(&cb, hid::SPACE), vec![4u8, 5, 6, 7, 8]);
    assert_eq!(cols_for_hid(&cb, hid::RIGHT_CONTROL), vec![12u8]);
    assert_eq!(cols_for_hid(&cb, hid::Q), Vec::<u8>::new());
    let mut custom = ControlBarSettings { row: 2, led_cols_by_hid: Vec::new() };
    custom.led_cols_by_hid.push(("Space".to_string(), OneOrManyU8::One(3)));
    assert_eq!(cols_for_hid(&custom, hid::SPACE), vec![3u8]);
    assert!(!is_control_bar(&custom, hid::LEFT_ALT));
}

#[test]
fn flash_and_restore_commands() {
    let cb = ControlBarSettings::default();
    let arrow = paint_flash_on_down(&cb, 1, hid::ARROW_DOWN);
    assert_eq!(arrow, vec![RgbCmd { device_index: 1, row: 5, col: 11, rgb: ARROW_FLASH_RGB }]);
    let space = paint_flash_on_down(&cb, 0, hid::SPACE);
    assert_eq!(space.len(), 5);
    assert!(space.iter().all(|c| c.rgb == HIGHLIGHT_RGB));
    assert!(paint_flash_on_down(&cb, 0, hid::Q).is_empty());

    let whole = paint_restore(&cb, 0, None, AftertouchMode::Off, true);
    // 14 base columns, then Space (5) white, then RightAlt (1) in the Off colour.
    assert_eq!(whole.len(), 14 + 5 + 1);
    assert!(whole[..14].iter().all(|c| c.rgb == BASE_RGB));
    assert!(whole[14..19].iter().all(|c| c.rgb == HIGHLIGHT_RGB));
    assert_eq!(whole[19], RgbCmd { device_index: 0, row: 5, col: 10, rgb: AFTERTOUCH_OFF_RGB });

    let key = paint_restore(&cb, 0, Some(hid::ARROW_LEFT), AftertouchMode::SpeedMapped, false);
    assert_eq!(key[0], RgbCmd { device_index: 0, row: 5, col: 10, rgb: BASE_RGB });
    assert_eq!(key.len(), 1 + 5 + 1);

    let off = paint_off(&cb, 2);
    assert_eq!(off.len(), 14);
    assert_eq!(off[13], RgbCmd { device_index: 2, row: 5, col: 13, rgb: (0, 0, 0) });
}

#[test]
fn rotation_rule() {
    assert!(!rotated(0, 1));
    assert!(rotated(0, 2));
    assert!(!rotated(1, 2));
    assert!(rotated(0, 3));
    assert!(!rotated(1, 3));
    assert!(!rotated(2, 3));
    assert!(rotated(0, 4));
    assert!(!rotated(1, 4));
    assert!(rotated(2, 4));
    assert!(!rotated(3, 4));
}

#[test]
fn aftertouch_cycle_rotates() {
    assert_eq!(AftertouchMode::SpeedMapped.next(), AftertouchMode::PeakMapped);
    assert_eq!(AftertouchMode::PeakMapped.next(), AftertouchMode::Off);
    assert_eq!(AftertouchMode::Off.next(), AftertouchMode::SpeedMapped);
    assert_eq!(AftertouchMode::PeakMapped.name(), "peak-mapped");
}

fn two_cell_layout() -> Wtn {
    let mut cells = vec![WtnCell::default(); 56];
    cells[0] = WtnCell { key: 60, chan: 1, color: (1, 2, 3) };
    cells[1] = WtnCell { key: 62, chan: 2, color: (4, 5, 6) };
    let mut boards = HashMap::new();
    boards.insert(0u8, cells);
    Wtn { edo: Some(31), pitch_offset: 0, boards }
}

#[test]
fn used_channels_includes_hold_and_shift() {
    let wtn = two_cell_layout();
    assert_eq!(used_channels(&wtn, 0, 0, false), vec![0u8, 1]);
    assert_eq!(used_channels(&wtn, 0, 0, true), vec![1u8, 2]);
    assert_eq!(used_channels(&wtn, 0, 2, false), vec![2u8, 3]);
    assert_eq!(used_channels(&wtn, 0, -5, false), vec![0u8]);
    assert_eq!(used_channels(&wtn, 1, 0, false), Vec::<u8>::new());
}

#[test]
fn resolve_cell_skips_unset_cells() {
    let wtn = two_cell_layout();
    let m = HidMap::default_60he_ansi_guess();
    let compact = compute_compact_col_offsets(&m, 0);
    let (loc, cell) = resolve_cell(hid::ESCAPE, &m, &compact, 0, &wtn, 0).unwrap();
    assert_eq!((loc.midi_row, loc.midi_col), (0, 0));
    assert_eq!(cell.key, 60);
    assert!(resolve_cell(hid::N2, &m, &compact, 0, &wtn, 0).is_none());
    assert!(resolve_cell(hid::SPACE, &m, &compact, 0, &wtn, 0).is_none());
}

#[test]
fn rgb_index_prefers_first_override() {
    let mut b = BoardSettings::default();
    b.wtn_board = 1;
    b.rgb_device_index = Some(0);
    let mut b2 = BoardSettings::default();
    b2.wtn_board = 1;
    b2.rgb_device_index = Some(7);
    let boards = vec![b, b2];
    assert_eq!(rgb_index_for_board(&boards, 1), 0);
    assert_eq!(rgb_index_for_board(&boards, 3), 3);
}

#[test]
fn initial_paint_covers_cells_and_bar() {
    let wtn = two_cell_layout();
    let m = HidMap::default_60he_ansi_guess();
    let c0 = compute_compact_col_offsets(&m, 0);
    let c180 = compute_compact_col_offsets(&m, 180);
    let cb = ControlBarSettings::default();
    let cmds = paint_initial_leds(&wtn, &m, &c0, &c180, &cb, AftertouchMode::SpeedMapped, &[(0, 4)]);
    // 53 mapped keys, then the bar: 14 base + 5 Space + 1 RightAlt.
    assert_eq!(cmds.len(), 53 + 20);
    let esc = cmds.iter().find(|c| c.row == 1 && c.col == 0).unwrap();
    assert_eq!(esc.rgb, (1, 2, 3));
    assert_eq!(esc.device_index, 4);
    let n2 = cmds.iter().find(|c| c.row == 1 && c.col == 2).unwrap();
    assert_eq!(n2.rgb, (0, 0, 0));
}

#[test]
fn midi_bytes_and_cadence() {
    assert_eq!(pitch_bend_msg(0, 0), [0xE0, 0x00, 0x40]);
    assert_eq!(pitch_bend_msg(1, 8191), [0xE1, 0x7F, 0x7F]);
    assert_eq!(pitch_bend_msg(2, -9000), [0xE2, 0x00, 0x00]);
    let mut next = 100u64;
    assert!(!snapshot_due(99, &mut next));
    assert_eq!(next, 100);
    assert!(snapshot_due(100, &mut next));
    assert_eq!(next, 140);
}

#[test]
fn pressed_from_held_buckets_by_board() {
    let held = vec![(0u8, 1u8, 60u8), (1u8, 2u8, 62u8), (0u8, 1u8, 64u8)];
    let pressed = pressed_from_held(&held, 31, 0, &[0, 1]);
    assert_eq!(pressed[&0], vec![1 * 31 + 60, 1 * 31 + 64]);
    assert_eq!(pressed[&1], vec![2 * 31 + 62]);
    let with_empty = pressed_from_held(&[], 12, 0, &[3]);
    assert_eq!(with_empty[&3], Vec::<i32>::new());
}

#[test]
fn build_layout_pitches_skips_chan_zero_cells() {
    let mut boards = HashMap::new();
    boards.insert(
        0u8,
        vec![
            WtnCell { key: 60, chan: 1, color: (0, 0, 0) },
            WtnCell::default(),
            WtnCell { key: 64, chan: 2, color: (0, 0, 0) },
        ],
    );
    let wtn = Wtn { edo: Some(31), pitch_offset: 0, boards };
    let lp = build_layout_pitches(&wtn);
    assert_eq!(lp[&0], vec![Some(60), None, Some(31 + 64)]);
}

#[test]
fn control_bar_bend_and_cc_are_sent_once_per_channel() {
    let wtn = two_cell_layout();
    let mut last_pb = std::collections::HashMap::new();
    let first = emit_pitchbend_for_board(&wtn, 0, 100, 0, false, &mut last_pb);
    assert_eq!(first, vec![pitch_bend_msg(0, 100), pitch_bend_msg(1, 100)]);
    // The same bend again sends nothing.
    assert!(emit_pitchbend_for_board(&wtn, 0, 100, 0, false, &mut last_pb).is_empty());
    // A new bend goes out again on both channels.
    assert_eq!(emit_pitchbend_for_board(&wtn, 0, -50, 0, false, &mut last_pb).len(), 2);
    assert_eq!(last_pb.get(&1), Some(&-50));

    let mut last_cc = std::collections::HashMap::new();
    let cc = emit_cc_for_board(&wtn, 0, 1, 64, 0, true, &mut last_cc);
    assert_eq!(cc, vec![[0xB1, 1, 64], [0xB2, 1, 64]]);
    assert!(emit_cc_for_board(&wtn, 0, 1, 64, 0, true, &mut last_cc).is_empty());
    // 255 counts as never sent, so it is not sent either.
    let mut fresh = std::collections::HashMap::new();
    assert!(emit_cc_for_board(&wtn, 0, 1, 255, 0, false, &mut fresh).is_empty());
}

#[test]
fn pressure_and_out_channel_decisions() {
    assert!(pressure_due(10, 0, 5));
    assert!(!pressure_due(12, 10, 5));
    assert!(pressure_due(127, 125, 5));
    assert!(pressure_due(0, 2, 5));
    assert!(pressure_due(0, 0, 0));
    assert_eq!(out_channel(1, 0, false), 0);
    assert_eq!(out_channel(3, 2, true), 5);
    assert_eq!(out_channel(0, -1, false), 0);
    assert_eq!(out_channel(16, 4, true), 15);
}

#[test]
fn control_bar_dispatch_and_loop_decisions() {
    assert_eq!(bar_key_down(hid::SPACE), BarDown::ToggleOctaveHold);
    assert_eq!(bar_key_down(hid::CONTEXT_MENU), BarDown::CycleLayout);
    assert_eq!(bar_key_down(hid::ARROW_LEFT), BarDown::LowerSetting);
    assert_eq!(bar_key_down(hid::ENTER), BarDown::NoAction);
    assert_eq!(bar_key_up(hid::LEFT_META), BarUp::ZeroCc);
    assert_eq!(bar_key_up(hid::SPACE), BarUp::RestoreOnly);

    let mut holds = std::collections::HashSet::new();
    assert!(toggle_octave_hold(&mut holds, 7));
    assert!(holds.contains(&7));
    assert!(!toggle_octave_hold(&mut holds, 7));
    assert!(holds.is_empty());

    assert!(aftertouch_toggle_allowed(None, 5));
    assert!(!aftertouch_toggle_allowed(Some(1000), 1159));
    assert!(aftertouch_toggle_allowed(Some(1000), 1160));
    assert!(!aftertouch_toggle_allowed(Some(2000), 1000));

    assert_eq!(next_velocity_index(4, 5), 0);
    assert_eq!(next_velocity_index(1, 5), 2);

    assert!(screensaver_due(false, false, 60, 60_000));
    assert!(!screensaver_due(false, false, 60, 59_999));
    assert!(!screensaver_due(false, true, 60, 90_000));
    assert!(!screensaver_due(true, false, 60, 90_000));
    assert!(!screensaver_due(false, false, 0, 90_000));
}

#[test]
fn default_map_keys_take_distinct_wtn_cells() {
    let m = HidMap::default_60he_ansi_guess();
    for rot in [0u16, 180] {
        let compact = compute_compact_col_offsets(&m, rot);
        let mut seen: Vec<usize> = Vec::new();
        for (_, loc) in m.all_locs() {
            let i = wtn_index_for_loc(loc, rot, &compact).unwrap();
            assert!(i < 56);
            assert!(!seen.contains(&i));
            seen.push(i);
        }
        assert_eq!(seen.len(), 53);
    }
    let compact = compute_compact_col_offsets(&m, 180);
    assert_eq!(wtn_index_for_loc(m.loc_for(hid::ESCAPE).unwrap(), 180, &compact), Some(55));
    assert_eq!(wtn_index_for_loc(m.loc_for(hid::RIGHT_SHIFT).unwrap(), 180, &compact), Some(0));
}
