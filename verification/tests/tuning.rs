use std::collections::HashMap;

use xentool::exquis::proto::Color;
use xentool::exquis::tuning::{virtual_pitch, TuningState};
use xentool::xtn::{BoardLayout, PadEntry};

fn make_board(entries: &[(u8, u8, u8)]) -> BoardLayout {
    let mut pads = HashMap::new();
    for &(pad, key, chan) in entries {
        pads.insert(pad, PadEntry { key, chan, color: Color::new(0, 0, 0) });
    }
    BoardLayout { pads }
}

/// Nearest 12-TET note and bend for every pad, as the serve loop works
/// them out.
fn retune(board: &BoardLayout, edo: i32, pitch_offset: i32, octave_shift: i32, pb_range: f64) -> Vec<(u8, i32)> {
    let lsbs_per_cent = (pb_range * 100.0) / 8192.0;
    (0..61u8)
        .map(|pad| {
            let vp = virtual_pitch(board, pad, edo, pitch_offset, octave_shift);
            let target = (vp as f64 / edo as f64) * 12.0;
            let base = target.round().max(0.0).min(127.0) as u8;
            let cents = (target - base as f64) * 100.0;
            (base, (cents / lsbs_per_cent).round() as i32)
        })
        .collect()
}

fn state_for(board: &BoardLayout) -> TuningState {
    let notes = retune(board, 31, 0, 2, 48.0);
    TuningState::from_board(board, 31, 0, 2, &notes)
}

#[test]
fn note_on_remaps_and_injects_bend() {
    let board = make_board(&[(0, 0, 1)]);
    let mut state = state_for(&board);
    let msgs = state.process_message(&[0x92, 0, 100]);
    assert_eq!(msgs.len(), 2, "should produce pitch_bend + note_on");
    assert_eq!(msgs[0][0] & 0xF0, 0xE0, "first message should be pitch bend");
    assert_eq!(msgs[1][0] & 0xF0, 0x90, "second message should be note_on");
}

#[test]
fn pitch_bend_combines_with_tuning() {
    let board = make_board(&[(0, 0, 1)]);
    let mut state = state_for(&board);
    let _ = state.process_message(&[0x92, 0, 100]);
    let center_bend = vec![0xE2, 0x00, 0x40];
    let msgs = state.process_message(&center_bend);
    assert_eq!(msgs.len(), 1);
}

#[test]
fn note_off_remaps_note() {
    let board = make_board(&[(5, 10, 1)]);
    let mut state = state_for(&board);
    let on_msgs = state.process_message(&[0x92, 5, 100]);
    let base_note = on_msgs[1][1];
    let off_msgs = state.process_message(&[0x82, 5, 64]);
    assert_eq!(off_msgs.len(), 1);
    assert_eq!(off_msgs[0][1], base_note, "note_off should use same base_note as note_on");
}

#[test]
fn cc74_passes_through() {
    let board = make_board(&[]);
    let mut state = state_for(&board);
    let msg = vec![0xB2, 74, 100];
    let msgs = state.process_message(&msg);
    assert_eq!(msgs, vec![msg]);
}

#[test]
fn pad_pitch_and_tuning_of_pad_five() {
    // Pad 5 plays key 10 on channel 1: 10 + 2 * 31 = 72 steps of 31-EDO,
    // 72 / 31 * 12 = 27.87 semitones, so note 28 bent down by 13 cents.
    let board = make_board(&[(5, 10, 1)]);
    assert_eq!(virtual_pitch(&board, 5, 31, 0, 2), 72);
    // Unlisted pads play their own number on channel 1.
    assert_eq!(virtual_pitch(&board, 7, 31, 0, 2), 69);
    let state = state_for(&board);
    let t = state.pad_tuning(5).unwrap();
    assert_eq!((t.base_note, t.v_chan, t.v_key, t.abs_pitch), (28, 1, 10, 72));
    assert_eq!(t.bend_offset, -22);
    assert!(state.pad_tuning(61).is_none());
}

#[test]
fn note_on_sends_exact_bend_and_holds_channel() {
    let board = make_board(&[(5, 10, 1)]);
    let mut state = state_for(&board);
    let msgs = state.process_message(&[0x93, 5, 90]);
    // 8192 - 22 = 8170 = 63 * 128 + 106.
    assert_eq!(msgs, vec![vec![0xE3, 106, 63], vec![0x93, 28, 90]]);
    assert_eq!(state.channel_pad(3), Some(5));
    assert_eq!(state.last_retune_info.as_deref(), Some("pad5\u{2192}note28 bend=-22 (ch3)"));
    // A player bend is added to the tuning bend: 8192 + 100 - 22.
    let bent = state.process_message(&[0xE3, (8292 % 128) as u8, (8292 / 128) as u8]);
    assert_eq!(bent, vec![vec![0xE3, (8270 % 128) as u8, (8270 / 128) as u8]]);
    // Velocity 0 ends the note like a note-off.
    let off = state.process_message(&[0x93, 5, 0]);
    assert_eq!(off, vec![vec![0x93, 28, 0]]);
    assert_eq!(state.channel_pad(3), None);
}

#[test]
fn notes_above_pad_range_pass_through() {
    let board = make_board(&[]);
    let mut state = state_for(&board);
    assert_eq!(state.process_message(&[0x90, 61, 100]), vec![vec![0x90, 61, 100]]);
    assert_eq!(state.process_message(&[0x80, 99, 0]), vec![vec![0x80, 99, 0]]);
    assert!(state.process_message(&[]).is_empty());
    assert_eq!(state.channel_pad(0), None);
}
