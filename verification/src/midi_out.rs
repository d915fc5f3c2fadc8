//! Which sequencer event a raw MIDI message stands for, so that a MIDI
//! output can post it as a typed event (note, controller, bend, pressure,
//! program change). Messages of other shapes are not posted.
use vstd::prelude::*;

verus! {

/// A typed sequencer event.
#[derive(Debug, Clone, Copy, PartialEq, Eq)]
pub enum SeqEvent {
    NoteOn { channel: u8, note: u8, velocity: u8 },
    NoteOff { channel: u8, note: u8, velocity: u8 },
    Controller { channel: u8, param: u32, value: i32 },
    PitchBend { channel: u8, value: i32 },
    ChannelPressure { channel: u8, value: i32 },
    ProgramChange { channel: u8, value: i32 },
}

/// The event of a raw message: three-byte note on (a note on with velocity
/// 0 is a note off), note off, controller, pitch bend (centred on 0) and
/// channel pressure, two-byte program change and channel pressure.
pub open spec fn seq_event_spec(msg: Seq<u8>) -> Option<SeqEvent> {
    if msg.len() == 3 {
        let status = msg[0] & 0xF0;
        let ch = msg[0] & 0x0F;
        if status == 0x90 && msg[2] > 0 {
            Some(SeqEvent::NoteOn { channel: ch, note: msg[1], velocity: msg[2] })
        } else if status == 0x80 || status == 0x90 {
            Some(SeqEvent::NoteOff { channel: ch, note: msg[1], velocity: msg[2] })
        } else if status == 0xB0 {
            Some(SeqEvent::Controller { channel: ch, param: msg[1] as u32, value: msg[2] as i32 })
        } else if status == 0xE0 {
            Some(SeqEvent::PitchBend {
                channel: ch,
                value: ((((msg[2] as i32) << 7u32) | (msg[1] as i32)) - 8192) as i32,
            })
        } else if status == 0xD0 {
            Some(SeqEvent::ChannelPressure { channel: ch, value: msg[1] as i32 })
        } else {
            None
        }
    } else if msg.len() == 2 {
        let status = msg[0] & 0xF0;
        let ch = msg[0] & 0x0F;
        if status == 0xC0 {
            Some(SeqEvent::ProgramChange { channel: ch, value: msg[1] as i32 })
        } else if status == 0xD0 {
            Some(SeqEvent::ChannelPressure { channel: ch, value: msg[1] as i32 })
        } else {
            None
        }
    } else {
        None
    }
}

/// The sequencer event a raw MIDI message stands for; `None` for a message
/// that is not posted as an event.
pub fn seq_event_of(msg: &[u8]) -> (r: Option<SeqEvent>)
    ensures
        r == seq_event_spec(msg@),
{
    if msg.len() == 3 {
        let status = msg[0] & 0xF0;
        let ch = msg[0] & 0x0F;
        if status == 0x90 && msg[2] > 0 {
            Some(SeqEvent::NoteOn { channel: ch, note: msg[1], velocity: msg[2] })
        } else if status == 0x80 || status == 0x90 {
            Some(SeqEvent::NoteOff { channel: ch, note: msg[1], velocity: msg[2] })
        } else if status == 0xB0 {
            Some(SeqEvent::Controller { channel: ch, param: msg[1] as u32, value: msg[2] as i32 })
        } else if status == 0xE0 {
            let hi = msg[2] as i32;
            let lo = msg[1] as i32;
            assert(((hi << 7u32) | lo) <= 32767) by (bit_vector)
                requires
                    0 <= hi < 256,
                    0 <= lo < 256,
            ;
            assert(((hi << 7u32) | lo) >= 0) by (bit_vector)
                requires
                    0 <= hi < 256,
                    0 <= lo < 256,
            ;
            Some(SeqEvent::PitchBend { channel: ch, value: ((hi << 7u32) | lo) - 8192 })
        } else if status == 0xD0 {
            Some(SeqEvent::ChannelPressure { channel: ch, value: msg[1] as i32 })
        } else {
            None
        }
    } else if msg.len() == 2 {
        let status = msg[0] & 0xF0;
        let ch = msg[0] & 0x0F;
        if status == 0xC0 {
            Some(SeqEvent::ProgramChange { channel: ch, value: msg[1] as i32 })
        } else if status == 0xD0 {
            Some(SeqEvent::ChannelPressure { channel: ch, value: msg[1] as i32 })
        } else {
            None
        }
    } else {
        None
    }
}

/// A three-byte message on channel `c` (0-based) with data bytes `a` and
/// `b` below 128 becomes: a note on for status `0x90 + c` and `b > 0`, a
/// note off for `0x80 + c` and for `0x90 + c` with `b == 0`, controller
/// `a` set to `b` for `0xB0 + c`, the centred bend `128 * b + a - 8192`
/// for `0xE0 + c`, and pressure `a` for `0xD0 + c`; the two-byte
/// `[0xC0 + c, a]` is program `a` and `[0xD0 + c, a]` pressure `a`.
pub proof fn lemma_seq_event_kinds(c: u8, a: u8, b: u8)
    requires
        c < 16,
        a < 128,
        b < 128,
    ensures
        b > 0 ==> seq_event_spec(seq![(0x90 + c) as u8, a, b]) == Some(SeqEvent::NoteOn { channel: c, note: a, velocity: b }),
        seq_event_spec(seq![(0x90 + c) as u8, a, 0u8]) == Some(SeqEvent::NoteOff { channel: c, note: a, velocity: 0 }),
        seq_event_spec(seq![(0x80 + c) as u8, a, b]) == Some(SeqEvent::NoteOff { channel: c, note: a, velocity: b }),
        seq_event_spec(seq![(0xB0 + c) as u8, a, b]) == Some(SeqEvent::Controller { channel: c, param: a as u32, value: b as i32 }),
        seq_event_spec(seq![(0xE0 + c) as u8, a, b]) == Some(SeqEvent::PitchBend { channel: c, value: (128 * b + a - 8192) as i32 }),
        seq_event_spec(seq![(0xD0 + c) as u8, a, b]) == Some(SeqEvent::ChannelPressure { channel: c, value: a as i32 }),
        seq_event_spec(seq![(0xC0 + c) as u8, a]) == Some(SeqEvent::ProgramChange { channel: c, value: a as i32 }),
        seq_event_spec(seq![(0xD0 + c) as u8, a]) == Some(SeqEvent::ChannelPressure { channel: c, value: a as i32 }),
        seq_event_spec(seq![(0xC0 + c) as u8, a, b]) is None,
{
    let s8 = (0x80 + c) as u8;
    let s9 = (0x90 + c) as u8;
    let sb = (0xB0 + c) as u8;
    let sc = (0xC0 + c) as u8;
    let sd = (0xD0 + c) as u8;
    let se = (0xE0 + c) as u8;
    assert(s8 & 0xF0 == 0x80 && s8 & 0x0F == c) by (bit_vector)
        requires
            c < 16,
            s8 == (0x80 + c) as u8,
    ;
    assert(s9 & 0xF0 == 0x90 && s9 & 0x0F == c) by (bit_vector)
        requires
            c < 16,
            s9 == (0x90 + c) as u8,
    ;
    assert(sb & 0xF0 == 0xB0 && sb & 0x0F == c) by (bit_vector)
        requires
            c < 16,
            sb == (0xB0 + c) as u8,
    ;
    assert(sc & 0xF0 == 0xC0 && sc & 0x0F == c) by (bit_vector)
        requires
            c < 16,
            sc == (0xC0 + c) as u8,
    ;
    assert(sd & 0xF0 == 0xD0 && sd & 0x0F == c) by (bit_vector)
        requires
            c < 16,
            sd == (0xD0 + c) as u8,
    ;
    assert(se & 0xF0 == 0xE0 && se & 0x0F == c) by (bit_vector)
        requires
            c < 16,
            se == (0xE0 + c) as u8,
    ;
    assert((((b as i32) << 7u32) | (a as i32)) == 128 * (b as i32) + (a as i32)) by (bit_vector)
        requires
            a < 128,
            b < 128,
    ;
}

} // verus!
