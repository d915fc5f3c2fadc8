use xentool::midi_out::{seq_event_of, SeqEvent};

#[test]
fn note_messages() {
    assert_eq!(
        seq_event_of(&[0x91, 60, 100]),
        Some(SeqEvent::NoteOn { channel: 1, note: 60, velocity: 100 })
    );
    assert_eq!(
        seq_event_of(&[0x91, 60, 0]),
        Some(SeqEvent::NoteOff { channel: 1, note: 60, velocity: 0 })
    );
    assert_eq!(
        seq_event_of(&[0x8F, 61, 5]),
        Some(SeqEvent::NoteOff { channel: 15, note: 61, velocity: 5 })
    );
}

#[test]
fn controller_bend_pressure_program() {
    assert_eq!(
        seq_event_of(&[0xB2, 74, 64]),
        Some(SeqEvent::Controller { channel: 2, param: 74, value: 64 })
    );
    assert_eq!(seq_event_of(&[0xE0, 0, 64]), Some(SeqEvent::PitchBend { channel: 0, value: 0 }));
    assert_eq!(seq_event_of(&[0xE0, 0x7F, 0x7F]), Some(SeqEvent::PitchBend { channel: 0, value: 8191 }));
    assert_eq!(seq_event_of(&[0xE3, 0, 0]), Some(SeqEvent::PitchBend { channel: 3, value: -8192 }));
    assert_eq!(seq_event_of(&[0xD4, 90, 0]), Some(SeqEvent::ChannelPressure { channel: 4, value: 90 }));
    assert_eq!(seq_event_of(&[0xD4, 90]), Some(SeqEvent::ChannelPressure { channel: 4, value: 90 }));
    assert_eq!(seq_event_of(&[0xC5, 7]), Some(SeqEvent::ProgramChange { channel: 5, value: 7 }));
}

#[test]
fn other_shapes_are_not_posted() {
    assert_eq!(seq_event_of(&[0xA0, 60, 10]), None);
    assert_eq!(seq_event_of(&[0xF0, 0x7E, 0x7F, 0xF7]), None);
    assert_eq!(seq_event_of(&[0x90]), None);
    assert_eq!(seq_event_of(&[0xB0, 1]), None);
}
