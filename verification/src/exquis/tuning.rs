//! Retuning an Exquis to an equal division of the octave: each pad sounds
//! the nearest 12-TET note, bent to the exact pitch on the pad's channel.
//!
//! Which note and bend reach a pitch is worked out with floating point by
//! the caller; this state keeps them per pad, remembers which pad holds
//! each channel, and rewrites the Exquis's MIDI accordingly.
use vstd::prelude::*;

use crate::num::{dec_digits, dec_plus, push_dec, push_dec_plus};
use crate::text::{push_str, string_of};
use crate::xtn::{BoardLayout, PadEntry};

verus! {

broadcast use vstd::std_specs::hash::group_hash_axioms;

/// The retuning of one pad.
#[derive(Debug, Clone, Copy, PartialEq, Eq, Structural)]
pub struct PadTuning {
    /// The 12-TET MIDI note sent for the pad.
    pub base_note: u8,
    /// Pitch bend (14-bit steps around the centre) reaching the exact pitch.
    pub bend_offset: i32,
    /// The layout's channel for the pad (`Chan_N`).
    pub v_chan: u8,
    /// The layout's key for the pad (`Key_N`).
    pub v_key: u8,
    /// The pad's absolute pitch in steps of the division.
    pub abs_pitch: i32,
}

/// The largest tuning bend that a player's bend can be added to without
/// leaving `i32`.
pub const MAX_TUNING_BEND: i32 = 2147450880;

/// The layout's channel and key of `pad` on a board: its entry, or channel
/// 1 and the pad's own number when the layout leaves it out.
pub open spec fn pad_source(pads: Map<u8, PadEntry>, pad: u8) -> (u8, u8) {
    if pads.contains_key(pad) {
        (pads[pad].chan, pads[pad].key)
    } else {
        (1u8, pad)
    }
}

/// The absolute pitch of `pad`:
/// `(chan - 1) * edo + key + pitch_offset + octave_shift * edo`.
pub open spec fn virtual_pitch_spec(pads: Map<u8, PadEntry>, pad: u8, edo: i32, pitch_offset: i32, octave_shift: i32) -> int {
    let (c, k) = pad_source(pads, pad);
    (c - 1) * edo + k + pitch_offset + octave_shift * edo
}

pub open spec fn fits_i32(x: int) -> bool {
    i32::MIN <= x <= i32::MAX
}

/// Every step of working out the pitch of `pad`, from left to right, stays
/// within `i32`.
pub open spec fn pitch_fits(pads: Map<u8, PadEntry>, pad: u8, edo: i32, pitch_offset: i32, octave_shift: i32) -> bool {
    let (c, k) = pad_source(pads, pad);
    &&& fits_i32((c - 1) * edo)
    &&& fits_i32((c - 1) * edo + k)
    &&& fits_i32((c - 1) * edo + k + pitch_offset)
    &&& fits_i32(octave_shift * edo)
    &&& fits_i32((c - 1) * edo + k + pitch_offset + octave_shift * edo)
}

/// The layout's channel and key of `pad`.
pub fn pad_source_of(board: &BoardLayout, pad: u8) -> (r: (u8, u8))
    ensures
        r == pad_source(board.pads@, pad),
{
    match board.pads.get(&pad) {
        Some(e) => (e.chan, e.key),
        None => (1, pad),
    }
}

/// The absolute pitch of `pad` in steps of the division.
pub fn virtual_pitch(board: &BoardLayout, pad: u8, edo: i32, pitch_offset: i32, octave_shift: i32) -> (r: i32)
    requires
        pitch_fits(board.pads@, pad, edo, pitch_offset, octave_shift),
    ensures
        r == virtual_pitch_spec(board.pads@, pad, edo, pitch_offset, octave_shift),
{
    let (c, k) = pad_source_of(board, pad);
    let a: i32 = (c as i32 - 1) * edo;
    let b: i32 = a + k as i32;
    let d: i32 = b + pitch_offset;
    let e: i32 = octave_shift * edo;
    d + e
}

/// The tuning state of one board: the 61 pads' tunings, the pad sounding
/// on each of the 16 channels, and the tuning bend of each channel.
pub struct TuningState {
    pad_tunings: Vec<PadTuning>,
    channel_pad: Vec<Option<u8>>,
    channel_tuning_bend: Vec<i32>,
    /// What the latest note-on was retuned to, for display.
    pub last_retune_info: Option<String>,
}

/// A [`TuningState`] as plain values.
pub struct TuningModel {
    pub pads: Seq<PadTuning>,
    pub channel_pad: Seq<Option<u8>>,
    pub channel_bend: Seq<i32>,
    pub info: Option<Seq<char>>,
}

pub open spec fn model_wf(m: TuningModel) -> bool {
    &&& m.pads.len() == 61
    &&& m.channel_pad.len() == 16
    &&& m.channel_bend.len() == 16
    &&& forall|i: int| 0 <= i < 61 ==> #[trigger] m.pads[i].bend_offset <= MAX_TUNING_BEND
    &&& forall|i: int| 0 <= i < 16 ==> #[trigger] m.channel_bend[i] <= MAX_TUNING_BEND
}

/// `x` clamped to the 14-bit range.
pub open spec fn clamp14(x: int) -> int {
    if x < 0 { 0 } else if x > 16383 { 16383 } else { x }
}

/// A pitch-bend message on channel `ch` for the 14-bit value `v`.
pub open spec fn bend_message(ch: int, v: int) -> Seq<u8> {
    seq![(0xE0 + ch) as u8, (v % 128) as u8, (v / 128) as u8]
}

/// The 14-bit value of two data bytes as the Exquis sends them
/// (`lo | hi << 7`).
pub open spec fn data14(lo: u8, hi: u8) -> int {
    ((lo as u16) | ((hi as u16) << 7u16)) as int
}

/// The line describing a retuned note-on.
pub open spec fn retune_info(pad: u8, base: u8, bend: i32, ch: int) -> Seq<char> {
    "pad"@ + dec_digits(pad as nat) + "\u{2192}note"@ + dec_digits(base as nat) + " bend="@
        + dec_plus(bend as int) + " (ch"@ + dec_digits(ch as nat) + ")"@
}

/// The messages sent for `msg` and the state after it. A note-on
/// (velocity above 0) of pad 0..=60 first sends the pad's tuning bend on
/// its channel, then the note-on with the pad's base note, and makes the
/// pad the channel's; a note-off, or a note-on with velocity 0, sends it
/// for the base note and frees the channel. A pitch bend is added to the
/// channel's tuning bend. Everything else, and notes of other numbers,
/// pass unchanged.
pub open spec fn process_spec(m: TuningModel, msg: Seq<u8>) -> (TuningModel, Seq<Seq<u8>>) {
    if msg.len() == 0 {
        (m, Seq::empty())
    } else {
        let status = msg[0] / 16;
        let ch = msg[0] % 16;
        if status == 9 && msg.len() >= 3 && msg[2] > 0 {
            if msg[1] > 60 {
                (m, seq![msg])
            } else {
                let t = m.pads[msg[1] as int];
                let m2 = TuningModel {
                    channel_pad: m.channel_pad.update(ch as int, Some(msg[1])),
                    channel_bend: m.channel_bend.update(ch as int, t.bend_offset),
                    info: Some(retune_info(msg[1], t.base_note, t.bend_offset, ch as int)),
                    ..m
                };
                (m2, seq![
                    bend_message(ch as int, clamp14(8192 + t.bend_offset)),
                    seq![(0x90 + ch) as u8, t.base_note, msg[2]],
                ])
            }
        } else if (status == 8 || status == 9) && msg.len() >= 3 {
            if msg[1] > 60 {
                (m, seq![msg])
            } else {
                let t = m.pads[msg[1] as int];
                let m2 = TuningModel {
                    channel_pad: m.channel_pad.update(ch as int, None),
                    channel_bend: m.channel_bend.update(ch as int, 0),
                    ..m
                };
                (m2, seq![seq![msg[0], t.base_note, msg[2]]])
            }
        } else if status == 14 && msg.len() >= 3 {
            let combined = clamp14(data14(msg[1], msg[2]) + m.channel_bend[ch as int]);
            (m, seq![bend_message(ch as int, combined)])
        } else {
            (m, seq![msg])
        }
    }
}

pub open spec fn messages_view(v: Seq<Vec<u8>>) -> Seq<Seq<u8>> {
    v.map_values(|x: Vec<u8>| x@)
}

/// Whether every pad of the board has a pitch that fits, and a tuning bend
/// that a player's bend can be added to.
pub open spec fn board_fits(pads: Map<u8, PadEntry>, edo: i32, pitch_offset: i32, octave_shift: i32, notes: Seq<(u8, i32)>) -> bool {
    &&& notes.len() == 61
    &&& forall|p: u8| p <= 60 ==> #[trigger] pitch_fits(pads, p, edo, pitch_offset, octave_shift)
    &&& forall|i: int| 0 <= i < 61 ==> #[trigger] notes[i].1 <= MAX_TUNING_BEND
}

/// The tuning of pad `p` given its note and bend.
pub open spec fn pad_tuning_spec(pads: Map<u8, PadEntry>, p: u8, edo: i32, pitch_offset: i32, octave_shift: i32, note: (u8, i32)) -> PadTuning {
    PadTuning {
        base_note: note.0,
        bend_offset: note.1,
        v_chan: pad_source(pads, p).0,
        v_key: pad_source(pads, p).1,
        abs_pitch: virtual_pitch_spec(pads, p, edo, pitch_offset, octave_shift) as i32,
    }
}

/// `msg` sent on unchanged.
fn passthrough(msg: &[u8]) -> (r: Vec<Vec<u8>>)
    ensures
        messages_view(r@) == seq![msg@],
{
    let mut v: Vec<u8> = Vec::new();
    let mut i: usize = 0;
    while i < msg.len()
        invariant
            i <= msg@.len(),
            v@ == msg@.take(i as int),
        decreases msg@.len() - i,
    {
        v.push(msg[i]);
        i = i + 1;
        assert(v@ =~= msg@.take(i as int));
    }
    assert(msg@.take(msg@.len() as int) =~= msg@);
    let mut r: Vec<Vec<u8>> = Vec::new();
    r.push(v);
    assert(messages_view(r@) =~= seq![msg@]);
    r
}

/// The pitch-bend message on channel `ch` for the 14-bit value `v`.
fn bend_bytes(ch: u8, v: u16) -> (r: Vec<u8>)
    requires
        ch < 16,
        v <= 16383,
    ensures
        r@ == bend_message(ch as int, v as int),
{
    let a = 0xE0u8 | ch;
    let lo = (v & 0x7F) as u8;
    let hi = (v >> 7) as u8;
    assert(a == 0xE0 + ch) by (bit_vector)
        requires a == 0xE0u8 | ch, ch < 16;
    assert(lo == v % 128 && hi == v / 128) by (bit_vector)
        requires lo == (v & 0x7F) as u8, hi == (v >> 7) as u8, v <= 16383;
    let mut r: Vec<u8> = Vec::new();
    r.push(a);
    r.push(lo);
    r.push(hi);
    assert(r@ =~= bend_message(ch as int, v as int));
    r
}

impl TuningState {
    pub closed spec fn model(&self) -> TuningModel {
        TuningModel {
            pads: self.pad_tunings@,
            channel_pad: self.channel_pad@,
            channel_bend: self.channel_tuning_bend@,
            info: match self.last_retune_info { Some(s) => Some(s@), None => None },
        }
    }

    /// The tables have their sizes and bounds, and each channel's tuning
    /// bend is that of the pad sounding on it.
    pub open spec fn wf(&self) -> bool {
        &&& model_wf(self.model())
        &&& channels_consistent(self.model())
    }

    /// The state for a board with the given pad notes and bends (`notes[p]`
    /// for pad `p`, worked out from [`virtual_pitch`]): no channel holds a
    /// pad yet.
    pub fn from_board(board: &BoardLayout, edo: i32, pitch_offset: i32, octave_shift: i32, notes: &[(u8, i32)]) -> (r: Self)
        requires
            board_fits(board.pads@, edo, pitch_offset, octave_shift, notes@),
        ensures
            r.wf(),
            forall|p: u8| p <= 60 ==> #[trigger] r.model().pads[p as int] == pad_tuning_spec(
                board.pads@, p, edo, pitch_offset, octave_shift, notes@[p as int]),
            r.model().channel_pad == Seq::new(16, |i: int| None::<u8>),
            r.model().channel_bend == Seq::new(16, |i: int| 0i32),
            r.model().info is None,
    {
        let mut pads: Vec<PadTuning> = Vec::new();
        let mut p: u8 = 0;
        while p <= 60
            invariant
                p <= 61,
                pads@.len() == p,
                board_fits(board.pads@, edo, pitch_offset, octave_shift, notes@),
                forall|q: u8| q < p ==> #[trigger] pads@[q as int] == pad_tuning_spec(
                    board.pads@, q, edo, pitch_offset, octave_shift, notes@[q as int]),
                forall|i: int| 0 <= i < p ==> #[trigger] pads@[i].bend_offset <= MAX_TUNING_BEND,
            decreases 61 - p,
        {
            assert(pitch_fits(board.pads@, p, edo, pitch_offset, octave_shift));
            let (c, k) = pad_source_of(board, p);
            let abs = virtual_pitch(board, p, edo, pitch_offset, octave_shift);
            let (note, bend) = notes[p as usize];
            assert(notes@[p as int].1 <= MAX_TUNING_BEND);
            let ghost before = pads@;
            pads.push(PadTuning { base_note: note, bend_offset: bend, v_chan: c, v_key: k, abs_pitch: abs });
            proof {
                assert forall|q: u8| q < p + 1 implies #[trigger] pads@[q as int] == pad_tuning_spec(
                    board.pads@, q, edo, pitch_offset, octave_shift, notes@[q as int]) by {
                    if q < p {
                        assert(pads@[q as int] == before[q as int]);
                    }
                }
            }
            p = p + 1;
        }
        let mut channel_pad: Vec<Option<u8>> = Vec::new();
        let mut channel_tuning_bend: Vec<i32> = Vec::new();
        let mut i: usize = 0;
        while i < 16
            invariant
                i <= 16,
                channel_pad@ == Seq::new(i as nat, |j: int| None::<u8>),
                channel_tuning_bend@ == Seq::new(i as nat, |j: int| 0i32),
            decreases 16 - i,
        {
            channel_pad.push(None);
            channel_tuning_bend.push(0);
            i = i + 1;
            assert(channel_pad@ =~= Seq::new(i as nat, |j: int| None::<u8>));
            assert(channel_tuning_bend@ =~= Seq::new(i as nat, |j: int| 0i32));
        }
        let r = TuningState { pad_tunings: pads, channel_pad, channel_tuning_bend, last_retune_info: None };
        proof {
            lemma_fresh_channels_consistent(r.model());
        }
        r
    }

    /// Rewrites one incoming message: returns what to send on, in order,
    /// and updates which pad holds each channel (see [`process_spec`]).
    pub fn process_message(&mut self, msg: &[u8]) -> (r: Vec<Vec<u8>>)
        requires
            old(self).wf(),
        ensures
            final(self).wf(),
            final(self).model().pads == process_spec(old(self).model(), msg@).0.pads,
            final(self).model().channel_pad == process_spec(old(self).model(), msg@).0.channel_pad,
            final(self).model().channel_bend == process_spec(old(self).model(), msg@).0.channel_bend,
            final(self).model().info == process_spec(old(self).model(), msg@).0.info,
            messages_view(r@) == process_spec(old(self).model(), msg@).1,
    {
        let ghost m = self.model();
        let r = self.step(msg);
        proof {
            if msg@.len() > 0 {
                lemma_retune_law(m, msg@);
            }
        }
        r
    }

    fn step(&mut self, msg: &[u8]) -> (r: Vec<Vec<u8>>)
        requires
            model_wf(old(self).model()),
        ensures
            model_wf(final(self).model()),
            final(self).model().pads == process_spec(old(self).model(), msg@).0.pads,
            final(self).model().channel_pad == process_spec(old(self).model(), msg@).0.channel_pad,
            final(self).model().channel_bend == process_spec(old(self).model(), msg@).0.channel_bend,
            final(self).model().info == process_spec(old(self).model(), msg@).0.info,
            messages_view(r@) == process_spec(old(self).model(), msg@).1,
    {
        if msg.len() == 0 {
            let r: Vec<Vec<u8>> = Vec::new();
            assert(messages_view(r@) =~= Seq::<Seq<u8>>::empty());
            return r;
        }
        let b0 = msg[0];
        let status = b0 & 0xF0;
        let chb = b0 & 0x0F;
        assert(status == (b0 / 16) * 16 && chb == b0 % 16) by (bit_vector)
            requires status == b0 & 0xF0, chb == b0 & 0x0F;
        let ch = chb as usize;
        let ghost m = self.model();
        if status == 0x90 && msg.len() >= 3 && msg[2] > 0 {
            let pad = msg[1];
            if pad > 60 {
                return passthrough(msg);
            }
            let t = self.pad_tunings[pad as usize];
            assert(t.bend_offset <= MAX_TUNING_BEND);
            self.channel_pad.set(ch, Some(pad));
            self.channel_tuning_bend.set(ch, t.bend_offset);
            let mut info: Vec<char> = Vec::new();
            push_str(&mut info, "pad");
            push_dec(&mut info, pad as u64);
            push_str(&mut info, "\u{2192}note");
            push_dec(&mut info, t.base_note as u64);
            push_str(&mut info, " bend=");
            push_dec_plus(&mut info, t.bend_offset as i64);
            push_str(&mut info, " (ch");
            push_dec(&mut info, ch as u64);
            push_str(&mut info, ")");
            self.last_retune_info = Some(string_of(&info));
            let x: i32 = 8192 + t.bend_offset;
            let v: u16 = if x < 0 { 0 } else if x > 16383 { 16383 } else { x as u16 };
            let bend = bend_bytes(chb, v);
            let mut note: Vec<u8> = Vec::new();
            note.push(0x90 | chb);
            note.push(t.base_note);
            note.push(msg[2]);
            assert(0x90u8 | chb == 0x90 + chb) by (bit_vector)
                requires chb < 16;
            assert(note@ =~= seq![(0x90 + (b0 % 16)) as u8, t.base_note, msg@[2]]);
            let mut r: Vec<Vec<u8>> = Vec::new();
            r.push(bend);
            r.push(note);
            proof {
                let sp = process_spec(m, msg@);
                assert(self.model().channel_pad =~= sp.0.channel_pad);
                assert(self.model().channel_bend =~= sp.0.channel_bend);
                assert(messages_view(r@) =~~= sp.1);
                assert forall|i: int| 0 <= i < 16 implies #[trigger] self.model().channel_bend[i] <= MAX_TUNING_BEND by {
                    if i != ch as int {
                        assert(self.model().channel_bend[i] == m.channel_bend[i]);
                    }
                }
            }
            r
        } else if (status == 0x80 || status == 0x90) && msg.len() >= 3 {
            let pad = msg[1];
            if pad > 60 {
                return passthrough(msg);
            }
            let t = self.pad_tunings[pad as usize];
            self.channel_pad.set(ch, None);
            self.channel_tuning_bend.set(ch, 0);
            let mut off: Vec<u8> = Vec::new();
            off.push(b0);
            off.push(t.base_note);
            off.push(msg[2]);
            assert(off@ =~= seq![msg@[0], t.base_note, msg@[2]]);
            let mut r: Vec<Vec<u8>> = Vec::new();
            r.push(off);
            proof {
                let sp = process_spec(m, msg@);
                assert(self.model().channel_pad =~= sp.0.channel_pad);
                assert(self.model().channel_bend =~= sp.0.channel_bend);
                assert(messages_view(r@) =~~= sp.1);
                assert forall|i: int| 0 <= i < 16 implies #[trigger] self.model().channel_bend[i] <= MAX_TUNING_BEND by {
                    if i != ch as int {
                        assert(self.model().channel_bend[i] == m.channel_bend[i]);
                    }
                }
            }
            r
        } else if status == 0xE0 && msg.len() >= 3 {
            let lo = msg[1];
            let hi = msg[2];
            let raw: u16 = (lo as u16) | ((hi as u16) << 7u16);
            assert(raw <= 32767) by (bit_vector)
                requires raw == (lo as u16) | ((hi as u16) << 7u16);
            let tb = self.channel_tuning_bend[ch];
            assert(tb <= MAX_TUNING_BEND);
            let x: i32 = raw as i32 + tb;
            let v: u16 = if x < 0 { 0 } else if x > 16383 { 16383 } else { x as u16 };
            let mut r: Vec<Vec<u8>> = Vec::new();
            r.push(bend_bytes(chb, v));
            proof {
                let sp = process_spec(m, msg@);
                assert(messages_view(r@) =~~= sp.1);
            }
            r
        } else {
            passthrough(msg)
        }
    }

    /// The tuning of pad 0..=60; `None` for another number.
    pub fn pad_tuning(&self, pad: u8) -> (r: Option<PadTuning>)
        requires
            self.wf(),
        ensures
            r == (if pad <= 60 { Some(self.model().pads[pad as int]) } else { None::<PadTuning> }),
    {
        if pad <= 60 {
            Some(self.pad_tunings[pad as usize])
        } else {
            None
        }
    }

    /// The pad sounding on channel `ch`; `None` when none does or `ch` is
    /// not a channel.
    pub fn channel_pad(&self, ch: u8) -> (r: Option<u8>)
        requires
            self.wf(),
        ensures
            r == (if ch < 16 { self.model().channel_pad[ch as int] } else { None::<u8> }),
    {
        if (ch as usize) < 16 {
            self.channel_pad[ch as usize]
        } else {
            None
        }
    }
}

/// A note-off for a pad after its note-on on the same channel is sent for
/// the same base note as the note-on was, and frees the channel again.
pub proof fn lemma_note_off_matches_note_on(m: TuningModel, ch: u8, pad: u8, vel: u8, rel: u8)
    requires
        model_wf(m),
        ch < 16,
        pad <= 60,
        vel > 0,
    ensures
        ({
            let on = process_spec(m, seq![(0x90 + ch) as u8, pad, vel]);
            let off = process_spec(on.0, seq![(0x80 + ch) as u8, pad, rel]);
            &&& on.1.len() == 2
            &&& off.1.len() == 1
            &&& off.1[0][1] == on.1[1][1]
            &&& on.0.channel_pad[ch as int] == Some(pad)
            &&& off.0.channel_pad[ch as int] is None
            &&& off.0.channel_bend[ch as int] == 0
        }),
{
    let on_msg = seq![(0x90 + ch) as u8, pad, vel];
    let off_msg = seq![(0x80 + ch) as u8, pad, rel];
    assert(on_msg[0] / 16 == 9 && on_msg[0] % 16 == ch);
    assert(off_msg[0] / 16 == 8 && off_msg[0] % 16 == ch);
}

/// After a note-on, a centred player bend on its channel sends the same
/// bend as the note-on did: the note keeps its tuned pitch.
pub proof fn lemma_centre_bend_keeps_tuning(m: TuningModel, ch: u8, pad: u8, vel: u8)
    requires
        model_wf(m),
        ch < 16,
        pad <= 60,
        vel > 0,
    ensures
        ({
            let on = process_spec(m, seq![(0x90 + ch) as u8, pad, vel]);
            let bend = process_spec(on.0, seq![(0xE0 + ch) as u8, 0x00u8, 0x40u8]);
            &&& bend.1 == seq![on.1[0]]
            &&& bend.0.channel_pad == on.0.channel_pad
        }),
{
    let on_msg = seq![(0x90 + ch) as u8, pad, vel];
    let b_msg = seq![(0xE0 + ch) as u8, 0x00u8, 0x40u8];
    assert(on_msg[0] / 16 == 9 && on_msg[0] % 16 == ch);
    assert(b_msg[0] / 16 == 14 && b_msg[0] % 16 == ch);
    assert(data14(0x00u8, 0x40u8) == 8192) by (bit_vector);
    let on = process_spec(m, on_msg);
    assert(on.0.channel_bend[ch as int] == m.pads[pad as int].bend_offset);
}

/// A control change goes on unchanged, and nothing about the channels
/// changes.
pub proof fn lemma_control_change_passes(m: TuningModel, msg: Seq<u8>)
    requires
        msg.len() > 0,
        msg[0] / 16 == 11,
    ensures
        process_spec(m, msg).1 == seq![msg],
        process_spec(m, msg).0 == m,
{
}

/// Each channel's tuning bend is that of the pad sounding on it (a pad of
/// the board), or 0 when none is.
pub open spec fn channels_consistent(m: TuningModel) -> bool {
    forall|c: int| 0 <= c < 16 ==> match #[trigger] m.channel_pad[c] {
        Some(p) => p <= 60 && m.channel_bend[c] == m.pads[p as int].bend_offset,
        None => m.channel_bend[c] == 0,
    }
}

/// A fresh tuner (no pad sounding, no bends) is consistent.
pub proof fn lemma_fresh_channels_consistent(m: TuningModel)
    requires
        m.channel_pad == Seq::new(16, |i: int| None::<u8>),
        m.channel_bend == Seq::new(16, |i: int| 0i32),
    ensures
        channels_consistent(m),
{
}

/// How the retuner treats messages on channel `ch = msg[0] % 16`, with `T`
/// the tuning bend of the pad now sounding on `ch` (0 when none): every
/// message keeps the channels consistent; a player's pitch bend is sent on
/// as the clamped sum of its 14-bit value and `T`, the state unchanged; a
/// note-off (or a note-on of velocity 0) of pad 0..=60 is sent with the
/// pad's base note and frees the channel; and any message that is neither
/// a note nor a pitch bend passes unchanged.
pub proof fn lemma_retune_law(m: TuningModel, msg: Seq<u8>)
    requires
        model_wf(m),
        channels_consistent(m),
        msg.len() > 0,
    ensures
        channels_consistent(process_spec(m, msg).0),
        ({
            let ch = (msg[0] % 16) as int;
            let tb: int = match m.channel_pad[ch] {
                Some(p) => m.pads[p as int].bend_offset as int,
                None => 0,
            };
            &&& (msg[0] / 16 == 14 && msg.len() >= 3) ==> process_spec(m, msg).1 == seq![
                bend_message(ch, clamp14(data14(msg[1], msg[2]) + tb)),
            ] && process_spec(m, msg).0 == m
            &&& ((msg[0] / 16 == 8 || (msg[0] / 16 == 9 && msg[2] == 0)) && msg.len() >= 3 && msg[1] <= 60)
                ==> process_spec(m, msg).1 == seq![seq![msg[0], m.pads[msg[1] as int].base_note, msg[2]]]
                && process_spec(m, msg).0.channel_pad[ch] is None
            &&& (msg[0] / 16 != 8 && msg[0] / 16 != 9 && msg[0] / 16 != 14) ==> process_spec(m, msg).1 == seq![msg]
                && process_spec(m, msg).0 == m
        }),
{
    let r = process_spec(m, msg).0;
    let ch = (msg[0] % 16) as int;
    assert forall|c: int| 0 <= c < 16 implies match #[trigger] r.channel_pad[c] {
        Some(p) => p <= 60 && r.channel_bend[c] == r.pads[p as int].bend_offset,
        None => r.channel_bend[c] == 0,
    } by {
        assert(r.pads == m.pads);
        if c != ch {
            assert(r.channel_pad[c] == m.channel_pad[c]);
            assert(r.channel_bend[c] == m.channel_bend[c]);
        }
        assert(m.channel_pad[c] == m.channel_pad[c]);
    }
}

} // verus!
