use std::collections::HashMap;
use std::time::{SystemTime, UNIX_EPOCH};

use xentool::exquis::hud_ctx::{board_pitches, device_shift, entry_abs_pitch, wire_octave_shift, BASE_OCTAVE_SHIFT};
use xentool::exquis::mpe::ControlStateTracker;
use xentool::exquis::proto::Color;
use xentool::xtn::{BoardLayout, PadEntry};
use xentool::exquis::ui::{controls_text, ServeDisplay};
use xentool::hud::chordnam::parse_chordnam;
use xentool::hud::layout_id_from_path;
use xentool::hud::osc::{param_key, purge_old_events, push_event, route_address, OscEvent, OscRoute, EVENT_RING_CAP};
use xentool::hud::server::{chord_for_pressed, interval_steps, pressed_pitch_classes};
use xentool::hud::state::{LayoutInfo, SCHEMA_VERSION};
use xentool::hud::tui_url::copy_and_open;
use xentool::hud::xenharm::{name_key, pitches_of_interest, XenharmStatus};
use xentool::wooting::ui::{devices_text, DeviceLine};

fn now_ms() -> u64 {
    SystemTime::now().duration_since(UNIX_EPOCH).map(|d| d.as_millis() as u64).unwrap_or(0)
}

#[test]
fn param_message_round_trip() {
    match route_address("/xentool/param/filter/cutoff") {
        OscRoute::Param { group, name } => {
            assert_eq!(group, "filter");
            assert_eq!(name, "cutoff");
            assert_eq!(param_key(&group, &name), "filter/cutoff");
        }
        other => panic!("expected a parameter, got {other:?}"),
    }
}

#[test]
fn event_message_pushes_to_ring() {
    assert_eq!(route_address("/xentool/event"), OscRoute::Event);
    let mut events = Vec::new();
    push_event(&mut events, OscEvent { text: "Settings pressed: cycle layout".into(), ts_ms: 1 });
    assert_eq!(events.len(), 1);
    assert_eq!(events[0].text, "Settings pressed: cycle layout");
}

#[test]
fn unknown_address_is_ignored() {
    assert_eq!(route_address("/random/path"), OscRoute::Ignore);
    // A parameter needs both a group and a name.
    assert_eq!(route_address("/xentool/param/filter"), OscRoute::Ignore);
    assert_eq!(route_address("/xentool/param//cutoff"), OscRoute::Ignore);
    assert_eq!(route_address("/xentool/param/filter/"), OscRoute::Ignore);
    // The name keeps further slashes.
    assert_eq!(
        route_address("/xentool/param/a/b/c"),
        OscRoute::Param { group: "a".into(), name: "b/c".into() }
    );
}

#[test]
fn purge_old_events_drops_stale() {
    let mut events = vec![
        OscEvent { text: "old".into(), ts_ms: 0 },
        OscEvent { text: "fresh".into(), ts_ms: now_ms() },
    ];
    purge_old_events(&mut events, now_ms(), 1000);
    assert_eq!(events.len(), 1);
    assert_eq!(events[0].text, "fresh");
}

#[test]
fn event_ring_keeps_newest_first_up_to_capacity() {
    let mut events = Vec::new();
    for i in 0..40u64 {
        push_event(&mut events, OscEvent { text: format!("e{i}"), ts_ms: i });
    }
    assert_eq!(events.len(), EVENT_RING_CAP);
    assert_eq!(events[0].text, "e39");
    assert_eq!(events[EVENT_RING_CAP - 1].text, "e8");
    // An event from the future counts as new.
    let mut future = vec![OscEvent { text: "later".into(), ts_ms: 500 }];
    purge_old_events(&mut future, 100, 0);
    assert_eq!(future.len(), 1);
}

#[test]
fn layout_ids_are_file_stems() {
    assert_eq!(layout_id_from_path("xtn/edo31.xtn"), "edo31");
    assert_eq!(layout_id_from_path("edo12"), "edo12");
    assert_eq!(layout_id_from_path(""), "");
    let info = LayoutInfo { id: "edo31".into(), name: "31-EDO".into(), edo: 31, pitch_offset: 0 };
    assert_eq!(info.edo, 31);
    assert_eq!(SCHEMA_VERSION, 1);
}

#[test]
fn hud_url_status_lines() {
    let url = "http://localhost:9000/";
    assert_eq!(copy_and_open(url, &Ok(()), &Ok(())), "HUD: opened http://localhost:9000/ in browser; URL copied");
    assert_eq!(
        copy_and_open(url, &Ok(()), &Err("no display".into())),
        "HUD: opened http://localhost:9000/ in browser (clipboard error: no display)"
    );
    assert_eq!(
        copy_and_open(url, &Err("no browser".into()), &Ok(())),
        "HUD: URL copied to clipboard (open failed: no browser). URL: http://localhost:9000/"
    );
    assert_eq!(
        copy_and_open(url, &Err("a".into()), &Err("b".into())),
        "HUD: open failed: a; clipboard error: b. URL: http://localhost:9000/"
    );
}

#[test]
fn naming_service_status_and_keys() {
    let mut st = XenharmStatus::default();
    st.record_failure("xenharm unreachable: refused".into(), 1234);
    assert!(!st.available);
    assert_eq!(st.last_error.as_deref(), Some("xenharm unreachable: refused"));
    assert_eq!(st.last_error_at_ms, Some(1234));
    st.record_success();
    assert!(st.available);
    assert!(st.last_error.is_none() && st.last_error_at_ms.is_none());
    assert_eq!(name_key(31, -4), "31:-4");
    assert_eq!(
        pitches_of_interest(&vec![vec![64, 60], vec![60]], &vec![vec![Some(62), None, Some(64)]]),
        vec![60, 62, 64]
    );
    assert!(pitches_of_interest(&Vec::new(), &Vec::new()).is_empty());
}

#[test]
fn pitch_classes_steps_and_chords() {
    let pressed = vec![vec![62, 72], vec![80, -9]];
    assert_eq!(pressed_pitch_classes(&pressed, 31), vec![0, 10, 18, 22]);
    let pcs = vec![0, 10, 18];
    assert_eq!(interval_steps(&pcs, 31), vec![8, 10, 13, 18, 21, 23]);
    assert!(interval_steps(&vec![5], 31).is_empty());

    let text = "<SCALA_SCALE_DEF 2^(1/12)>\n4-3 Major Triad\n";
    let f = parse_chordnam(text);
    let r = chord_for_pressed(&f.exact, &Vec::new(), &Vec::new(), 12, &vec![vec![60, 64], vec![67]]);
    assert_eq!(r.len(), 3);
    assert_eq!(r[0].root_pc, 0);
    assert_eq!(r[0].names, vec!["Major Triad".to_string()]);
    assert!(chord_for_pressed(&f.exact, &Vec::new(), &Vec::new(), 12, &vec![vec![60, 72]]).is_empty());
    assert!(chord_for_pressed(&f.exact, &Vec::new(), &Vec::new(), 0, &vec![vec![60, 64]]).is_empty());
}

#[test]
fn exquis_controls_panel() {
    let mut c = ControlStateTracker::default();
    assert_eq!(controls_text(&c, None), "Enc: E1:+0 E2:+0 E3:+0 E4:+0\nSld: -\nBtn: -");
    c.apply(&[0xBF, 110, 70]);
    c.apply(&[0xBF, 113, 60]);
    c.apply(&[0xBF, 106, 127]);
    c.apply(&[0xBF, 100, 127]);
    c.apply(&[0xBF, 82, 127]);
    c.apply(&[0xBF, 90, 64]);
    let mut shifts = HashMap::new();
    shifts.insert(1usize, -1);
    shifts.insert(0usize, 2);
    let d = ServeDisplay { tuning_name: "edo31".into(), shifts };
    assert_eq!(
        controls_text(&c, Some(&d)),
        "Tuning: edo31\nOctave: dev0=+2 dev1=-1\nEnc: E1:+6 E2:+0 E3:+0 E4:-4\nSld: part3 @64\nBtn: Down, Settings"
    );
    let empty = ServeDisplay::default();
    assert_eq!(controls_text(&ControlStateTracker::default(), Some(&empty)), "Octave: -\nEnc: E1:+0 E2:+0 E3:+0 E4:+0\nSld: -\nBtn: -");
}

#[test]
fn wooting_device_lines() {
    let holds = vec![DeviceLine { wtn_board: 0, octave_hold: true }, DeviceLine { wtn_board: 1, octave_hold: false }];
    assert_eq!(devices_text(2, &holds), "Devices: 2\n  board0 [hold]\n  board1");
    assert_eq!(devices_text(0, &[]), "Devices: 0");
}

#[test]
fn exquis_hud_pitches_and_wire_shift() {
    let e = PadEntry { key: 10, chan: 2, color: Color::new(0, 0, 0) };
    // (2 - 1) * 31 + 10 + 3 + (2 + 1) * 31
    assert_eq!(entry_abs_pitch(&e, 31, 3, BASE_OCTAVE_SHIFT + 1), 137);
    let mut pads = HashMap::new();
    pads.insert(4u8, e);
    pads.insert(70u8, e);
    let row = board_pitches(&BoardLayout { pads }, 31, 0, 2);
    assert_eq!(row.len(), 61);
    assert_eq!(row[4], Some(103));
    assert_eq!(row.iter().filter(|p| p.is_some()).count(), 1);

    let mut shifts = HashMap::new();
    shifts.insert(3usize, -2);
    shifts.insert(5usize, 400);
    assert_eq!(device_shift(&shifts, 3), -2);
    assert_eq!(device_shift(&shifts, 9), 0);
    let devices = vec![(3usize, "board1".to_string()), (5usize, "board0".to_string())];
    assert_eq!(wire_octave_shift(&devices, &shifts), 127);
    let devices = vec![(3usize, "board1".to_string()), (7usize, "board2".to_string())];
    assert_eq!(wire_octave_shift(&devices, &shifts), -2);
    assert_eq!(wire_octave_shift(&[], &shifts), 0);
}

#[test]
fn layout_ids_keep_inner_dots_and_hidden_names() {
    assert_eq!(layout_id_from_path("xtn/edo31.v2.xtn"), "edo31.v2");
    assert_eq!(layout_id_from_path("xtn/.hidden"), ".hidden");
    assert_eq!(layout_id_from_path("xtn/edo31.xtn/"), "edo31");
}
