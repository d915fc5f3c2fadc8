use xentool::exquis::mpe::{ControlStateTracker, Decoder, EventBuffer, InputMessage};

fn msg(dev: usize, bytes: &[u8]) -> InputMessage {
    InputMessage { _timestamp: 0, device_number: dev, port_name: "Exquis".to_string(), bytes: bytes.to_vec() }
}

#[test]
fn note_on_and_off_track_touches() {
    let mut d = Decoder::default();
    let on = d.process(msg(0, &[0x91, 60, 100]));
    assert_eq!(on.events.len(), 1);
    assert_eq!(on.events[0].line, "[0] #2 note_on note=60 vel=100");
    assert_eq!(on.events[0].record.kind, "note_on");
    assert_eq!(on.events[0].record.channel, Some(2));
    assert_eq!(on.touches.len(), 1);
    assert_eq!((on.touches[0].channel, on.touches[0].note, on.touches[0].velocity), (2, 60, 100));

    let bend = d.process(msg(0, &[0xE1, 0x00, 0x50]));
    assert_eq!(bend.events[0].line, "[0] #2 x=+2048 (pitch bend)");
    assert_eq!(bend.touches[0].x, 2048);

    let y = d.process(msg(0, &[0xB1, 74, 33]));
    assert_eq!(y.events[0].line, "[0] #2 y=33 (cc74)");
    assert_eq!(y.touches[0].y, 33);

    let z = d.process(msg(0, &[0xD1, 90]));
    assert_eq!(z.events[0].line, "[0] #2 z=90 (channel pressure)");
    assert_eq!(z.touches[0].z, 90);

    let other_dev = d.process(msg(1, &[0x91, 61, 1]));
    assert_eq!(other_dev.touches.len(), 1);
    assert_eq!(other_dev.touches[0].device, 1);

    let off = d.process(msg(0, &[0x81, 60, 7]));
    assert_eq!(off.events[0].line, "[0] #2 note_off note=60 release=7");
    assert!(off.touches.is_empty());

    let zero = d.process(msg(1, &[0x91, 61, 0]));
    assert_eq!(zero.events[0].line, "[1] #2 note_off note=61");
    assert!(zero.touches.is_empty());
}

#[test]
fn touches_come_out_in_key_order() {
    let mut d = Decoder::default();
    d.process(msg(0, &[0x92, 70, 1]));
    d.process(msg(0, &[0x91, 80, 1]));
    d.process(msg(0, &[0x91, 65, 1]));
    let r = d.process(msg(0, &[0x92, 70, 9]));
    let keys: Vec<(u8, u8)> = r.touches.iter().map(|t| (t.channel, t.note)).collect();
    assert_eq!(keys, vec![(2, 65), (2, 80), (3, 70)]);
    assert_eq!(r.touches[2].velocity, 9);
    d.clear();
    let r = d.process(msg(0, &[0xF8]));
    assert!(r.events.is_empty());
    assert!(r.touches.is_empty());
}

#[test]
fn control_channel_lines() {
    let mut d = Decoder::default();
    let enc = d.process(msg(0, &[0xBF, 110, 61]));
    assert_eq!(enc.events[0].record.kind, "control");
    assert!(enc.events[0].line.ends_with(" delta=-3"));
    assert!(enc.events[0].line.starts_with("[0] #16 "));
    let cc = d.process(msg(0, &[0xB0, 7, 100]));
    assert_eq!(cc.events[0].line, "[0] #1 cc 7 value=100");
    assert_eq!(cc.events[0].record.label.as_deref(), Some("cc_7"));
    let poly = d.process(msg(0, &[0xA3, 64, 5]));
    assert_eq!(poly.events[0].line, "[0] #4 z=5 note=64 (poly aftertouch)");
    let fx = d.process(msg(0, &[0xAF, 119, 5]));
    assert_eq!(fx.events[0].line, "[0] #16 Control 119 fx=5");
}

#[test]
fn lines_records_and_raw() {
    let mut d = Decoder::default();
    let ev = d.process(msg(3, &[0x90, 0x3C, 0x7F]));
    assert_eq!(ev.raw_line(), "[3] raw 90 3C 7F");
    assert_eq!(ev.event_lines(true).len(), 1);
    assert_eq!(ev.records(false).len(), 1);
    assert_eq!(ev.records(true).len(), 2);
    assert_eq!(ev.records(true)[1].kind, "raw");
    assert!(ev.events[0].record.is_mpe_related());
    let cc = d.process(msg(3, &[0xB0, 1, 2]));
    assert!(cc.event_lines(true).is_empty());
    assert_eq!(cc.event_lines(false).len(), 1);
    let none = d.process(msg(3, &[]));
    assert_eq!(none.raw_line(), "[3] raw ");
    assert_eq!(none.records(false)[0].raw.as_deref(), Some(&[][..]));
}

#[test]
fn control_state_tracker_applies_channel_16() {
    let mut c = ControlStateTracker::default();
    assert!(!c.apply(&[0xB0, 110, 70]));
    assert!(c.apply(&[0xBF, 110, 70]));
    assert!(c.apply(&[0xBF, 110, 60]));
    assert_eq!(c.encoders.get(&110), Some(&2));
    assert!(c.apply(&[0xBF, 101, 127]));
    assert_eq!(c.buttons.get(&101), Some(&true));
    assert!(c.apply(&[0xBF, 83, 1]));
    assert_eq!(c.slider_portion, Some(3));
    assert!(c.apply(&[0xBF, 90, 127]));
    assert_eq!(c.slider_portion, None);
    assert_eq!(c.slider_position, Some(127));
    assert!(!c.apply(&[0xBF, 119, 1]));
    assert!(!c.apply(&[0xBF, 110]));
}

#[test]
fn event_buffer_keeps_last_200() {
    let mut b = EventBuffer::default();
    for i in 0..205 {
        b.push(format!("line {i}"));
    }
    assert_eq!(b.entries().len(), 200);
    assert_eq!(b.entries()[0], "line 5");
    assert_eq!(b.entries()[199], "line 204");
}

#[test]
fn control_state_tracker_reports_only_changes() {
    let mut c = ControlStateTracker::default();
    assert!(c.apply(&[0xBF, 101, 127]));
    assert!(!c.apply(&[0xBF, 101, 127]));
    assert!(c.apply(&[0xBF, 101, 0]));
    assert!(c.apply(&[0xBF, 110, 64]));
    assert!(!c.apply(&[0xBF, 110, 64]));
    assert!(c.apply(&[0xBF, 82, 1]));
    assert!(!c.apply(&[0xBF, 82, 1]));
    assert!(c.apply(&[0xBF, 90, 40]));
    assert!(!c.apply(&[0xBF, 90, 40]));
    assert!(c.apply(&[0xBF, 90, 127]));
    assert!(!c.apply(&[0xBF, 90, 127]));
}
