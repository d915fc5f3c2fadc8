//! What the Exquis commands send: the messages that colour the pads, set
//! one pad, and light the control buttons.
use vstd::prelude::*;

use crate::cli::{MidiMode, PadsCommands};
use crate::exquis::mpe::{event_model, hex_join, shown_lines, DecodedEvent, DisplayEvent};
use crate::num::dec_digits;
use crate::exquis::midi::DeviceSelection;
use crate::xtn::{BoardLayout, PadEntry};
use crate::exquis::proto::{
    color_bytes, enter_dev_mode, fill_all_pads, pad_bytes, repeat_color, set_led_color,
    named_spec, snapshot_fill_color, snapshot_header, snapshot_set_colors, sysex_header, Color, NamedZone,
    DEV_MASK_NO_PADS,
};

verus! {

/// What a `pads` subcommand does.
#[derive(Debug, Clone, PartialEq, Eq)]
pub enum PadsTask {
    Fill { color: Color, device: DeviceSelection, legacy: bool },
    Test { device: DeviceSelection, legacy: bool },
}

/// The task of a `pads` subcommand: clearing is filling with black.
pub fn cmd_pads(cmd: PadsCommands) -> (r: PadsTask)
    ensures
        r == match cmd {
            PadsCommands::Clear { device, legacy } => PadsTask::Fill {
                color: Color { red: 0, green: 0, blue: 0 },
                device,
                legacy,
            },
            PadsCommands::Fill { color, device, legacy } => PadsTask::Fill { color, device, legacy },
            PadsCommands::Test { device, legacy } => PadsTask::Test { device, legacy },
        },
{
    match cmd {
        PadsCommands::Clear { device, legacy } => PadsTask::Fill { color: Color::new(0, 0, 0), device, legacy },
        PadsCommands::Fill { color, device, legacy } => PadsTask::Fill { color, device, legacy },
        PadsCommands::Test { device, legacy } => PadsTask::Test { device, legacy },
    }
}

/// Developer mode for the pad zone only (legacy: pads lose MPE).
pub open spec fn dev_pads_only() -> Seq<u8> {
    sysex_header() + seq![0x00u8, 0x01u8, 0xF7u8]
}

/// Developer mode for every zone but the pads (pads keep MPE).
pub open spec fn dev_no_pads() -> Seq<u8> {
    sysex_header() + seq![0x00u8, DEV_MASK_NO_PADS, 0xF7u8]
}

/// The messages that colour all 61 pads: in legacy mode take over the pad
/// zone and fill it; otherwise keep the pads in MPE and send a snapshot of
/// one colour.
pub fn fill_messages(color: Color, legacy: bool) -> (r: Vec<Vec<u8>>)
    ensures
        r@.len() == 2,
        legacy ==> r@[0]@ == dev_pads_only()
            && r@[1]@ == sysex_header() + seq![0x04u8, 0x00u8] + repeat_color(color, 61) + seq![0xF7u8],
        !legacy ==> r@[0]@ == dev_no_pads()
            && r@[1]@ == snapshot_header() + pad_bytes(Seq::new(61, |i: int| ((36 + i) as u8, color))) + seq![0xF7u8],
{
    let mut r: Vec<Vec<u8>> = Vec::new();
    if legacy {
        r.push(enter_dev_mode(NamedZone::Pads.bit()));
        r.push(fill_all_pads(color));
    } else {
        r.push(enter_dev_mode(DEV_MASK_NO_PADS));
        r.push(snapshot_fill_color(color));
    }
    r
}

/// A pad number above 60.
#[derive(Debug, Clone, Copy, PartialEq, Eq)]
pub struct PadOutOfRange {
    pub pad: u8,
}

/// The colours of a snapshot that sets pad `pad` to `color`, every other
/// pad black.
pub open spec fn one_pad_colors(pad: u8, color: Color) -> Seq<Color> {
    Seq::new(61, |i: int| if i == pad { color } else { Color { red: 0, green: 0, blue: 0 } })
}

/// The messages that set pad `pad` (0..=60) to `color`: in legacy mode
/// take over the pad zone and set that one LED; otherwise a snapshot with
/// the pad coloured and every other pad black.
pub fn pad_set_messages(pad: u8, color: Color, legacy: bool) -> (r: Result<Vec<Vec<u8>>, PadOutOfRange>)
    ensures
        pad > 60 <==> r is Err,
        r matches Err(e) ==> e.pad == pad,
        r matches Ok(m) ==> m@.len() == 2 && if legacy {
            m@[0]@ == dev_pads_only() && m@[1]@ == sysex_header() + seq![0x04u8, pad] + color_bytes(color) + seq![0xF7u8]
        } else {
            m@[0]@ == dev_no_pads() && m@[1]@ == snapshot_header() + pad_bytes(
                Seq::new(61, |i: int| ((36 + i) as u8, one_pad_colors(pad, color)[i])),
            ) + seq![0xF7u8]
        },
{
    if pad > 60 {
        return Err(PadOutOfRange { pad });
    }
    let mut r: Vec<Vec<u8>> = Vec::new();
    if legacy {
        r.push(enter_dev_mode(NamedZone::Pads.bit()));
        r.push(set_led_color(pad, color));
    } else {
        let mut colors = [Color::new(0, 0, 0); 61];
        colors[pad as usize] = color;
        assert(colors@ =~= one_pad_colors(pad, color));
        r.push(enter_dev_mode(DEV_MASK_NO_PADS));
        r.push(snapshot_set_colors(&colors));
    }
    Ok(r)
}

/// The test pattern's palette, repeated over the pads: red, amber, green,
/// blue, white, black.
pub open spec fn test_palette() -> Seq<Color> {
    seq![
        named_spec("red"@).unwrap(),
        named_spec("amber"@).unwrap(),
        named_spec("green"@).unwrap(),
        named_spec("blue"@).unwrap(),
        named_spec("white"@).unwrap(),
        named_spec("black"@).unwrap(),
    ]
}

/// The colour of pad `i` in the test pattern.
pub open spec fn test_color(i: int) -> Color {
    test_palette()[i % 6]
}

proof fn lemma_test_palette()
    ensures
        test_palette() == seq![
            Color { red: 127, green: 0, blue: 0 },
            Color { red: 127, green: 64, blue: 0 },
            Color { red: 0, green: 127, blue: 0 },
            Color { red: 0, green: 0, blue: 127 },
            Color { red: 127, green: 127, blue: 127 },
            Color { red: 0, green: 0, blue: 0 },
        ],
{
    reveal_strlit("black");
    reveal_strlit("red");
    reveal_strlit("green");
    reveal_strlit("blue");
    reveal_strlit("amber");
    reveal_strlit("yellow");
    reveal_strlit("cyan");
    reveal_strlit("magenta");
    reveal_strlit("white");
    assert("red"@[0] != "black"@[0]);
    assert("amber"@[0] != "black"@[0] && "amber"@[0] != "red"@[0] && "amber"@[0] != "green"@[0] && "amber"@[0] != "blue"@[0]);
    assert("green"@[0] != "black"@[0] && "green"@[0] != "red"@[0]);
    assert("blue"@[2] != "black"@[2] && "blue"@[0] != "red"@[0] && "blue"@[0] != "green"@[0]);
    assert("white"@[0] != "black"@[0] && "white"@[0] != "red"@[0] && "white"@[0] != "green"@[0] && "white"@[0] != "blue"@[0]
        && "white"@[0] != "amber"@[0] && "white"@[0] != "yellow"@[0] && "white"@[0] != "cyan"@[0] && "white"@[0] != "magenta"@[0]);
    assert(test_palette() =~= seq![
        Color { red: 127, green: 0, blue: 0 },
        Color { red: 127, green: 64, blue: 0 },
        Color { red: 0, green: 127, blue: 0 },
        Color { red: 0, green: 0, blue: 127 },
        Color { red: 127, green: 127, blue: 127 },
        Color { red: 0, green: 0, blue: 0 },
    ]);
}

fn test_color_exec(i: usize) -> (c: Color)
    ensures
        c == test_color(i as int),
{
    proof {
        lemma_test_palette();
    }
    let k = i % 6;
    if k == 0 {
        Color::new(127, 0, 0)
    } else if k == 1 {
        Color::new(127, 64, 0)
    } else if k == 2 {
        Color::new(0, 127, 0)
    } else if k == 3 {
        Color::new(0, 0, 127)
    } else if k == 4 {
        Color::new(127, 127, 127)
    } else {
        Color::new(0, 0, 0)
    }
}

/// The messages of the pad test pattern: in legacy mode take over the pad
/// zone and set each pad's LED in turn; otherwise one snapshot of all 61
/// pads (MPE kept).
pub fn test_pattern_messages(legacy: bool) -> (r: Vec<Vec<u8>>)
    ensures
        legacy ==> r@.len() == 62 && r@[0]@ == dev_pads_only() && forall|i: int| 0 <= i < 61 ==> (#[trigger] r@[i + 1])@
            == sysex_header() + seq![0x04u8, i as u8] + color_bytes(test_color(i)) + seq![0xF7u8],
        !legacy ==> r@.len() == 2 && r@[0]@ == dev_no_pads() && r@[1]@ == snapshot_header() + pad_bytes(
            Seq::new(61, |i: int| ((36 + i) as u8, test_color(i))),
        ) + seq![0xF7u8],
{
    let mut r: Vec<Vec<u8>> = Vec::new();
    if legacy {
        r.push(enter_dev_mode(NamedZone::Pads.bit()));
        let mut pad: u8 = 0;
        while pad <= 60
            invariant
                pad <= 61,
                r@.len() == pad + 1,
                r@[0]@ == dev_pads_only(),
                forall|i: int| 0 <= i < pad ==> (#[trigger] r@[i + 1])@
                    == sysex_header() + seq![0x04u8, i as u8] + color_bytes(test_color(i)) + seq![0xF7u8],
            decreases 61 - pad,
        {
            r.push(set_led_color(pad, test_color_exec(pad as usize)));
            pad = pad + 1;
        }
    } else {
        let mut colors = [Color::new(0, 0, 0); 61];
        let mut i: usize = 0;
        while i < 61
            invariant
                i <= 61,
                colors@.len() == 61,
                forall|j: int| 0 <= j < i ==> colors@[j] == test_color(j),
            decreases 61 - i,
        {
            colors.set(i, test_color_exec(i));
            i = i + 1;
        }
        assert(Seq::new(61, |j: int| ((36 + j) as u8, colors@[j])) =~= Seq::new(61, |j: int| ((36 + j) as u8, test_color(j))));
        r.push(enter_dev_mode(DEV_MASK_NO_PADS));
        r.push(snapshot_set_colors(&colors));
    }
    r
}

/// Control buttons sit at LED 100 (settings), 106 (down) and 107 (up).
pub const CTRL_SETTINGS: u8 = 100;
pub const CTRL_DOWN: u8 = 106;
pub const CTRL_UP: u8 = 107;

/// Dark violet, the resting colour of a control button (7-bit channels).
pub const CTRL_BASE_RGB: (u8, u8, u8) = (64, 0, 96);

/// Yellow: the octave button in the direction of a shift.
pub const CTRL_ACTIVE_SHIFT_RGB: (u8, u8, u8) = (127, 127, 0);

/// White: a control button held down.
pub const CTRL_PRESSED_RGB: (u8, u8, u8) = (127, 127, 127);

pub open spec fn rgb_color(t: (u8, u8, u8)) -> Color {
    Color { red: t.0, green: t.1, blue: t.2 }
}

/// The resting colour of a control button: the up button is yellow while
/// the board is shifted up, the down button while it is shifted down;
/// otherwise violet.
pub open spec fn ctrl_base_spec(cc: u8, octave_shift: int) -> Color {
    if (cc == CTRL_UP && octave_shift > 0) || (cc == CTRL_DOWN && octave_shift < 0) {
        rgb_color(CTRL_ACTIVE_SHIFT_RGB)
    } else {
        rgb_color(CTRL_BASE_RGB)
    }
}

/// Resting colour of control button `cc` for a board shifted by
/// `octave_shift` octaves.
pub fn ctrl_base_color(cc: u8, octave_shift: i32) -> (r: Color)
    ensures
        r == ctrl_base_spec(cc, octave_shift as int),
{
    if (cc == CTRL_UP && octave_shift > 0) || (cc == CTRL_DOWN && octave_shift < 0) {
        Color::new(CTRL_ACTIVE_SHIFT_RGB.0, CTRL_ACTIVE_SHIFT_RGB.1, CTRL_ACTIVE_SHIFT_RGB.2)
    } else {
        Color::new(CTRL_BASE_RGB.0, CTRL_BASE_RGB.1, CTRL_BASE_RGB.2)
    }
}

/// Colour of a control button held down.
pub fn pressed_color() -> (r: Color)
    ensures
        r == rgb_color(CTRL_PRESSED_RGB),
{
    Color::new(CTRL_PRESSED_RGB.0, CTRL_PRESSED_RGB.1, CTRL_PRESSED_RGB.2)
}

/// The message that lights control button `cc` in `color` (developer mode
/// already on).
pub fn paint_ctrl_button(cc: u8, color: Color) -> (r: Vec<u8>)
    ensures
        r@ == sysex_header() + seq![0x04u8, cc] + color_bytes(color) + seq![0xF7u8],
{
    set_led_color(cc, color)
}

/// The messages that light all control buttons of a board shifted by
/// `octave_shift`: developer mode for the non-pad zones, then settings,
/// down and up in their resting colours.
pub fn paint_all_ctrl_buttons_for_board(octave_shift: i32) -> (r: Vec<Vec<u8>>)
    ensures
        r@.len() == 4,
        r@[0]@ == dev_no_pads(),
        r@[1]@ == sysex_header() + seq![0x04u8, CTRL_SETTINGS] + color_bytes(ctrl_base_spec(CTRL_SETTINGS, octave_shift as int)) + seq![0xF7u8],
        r@[2]@ == sysex_header() + seq![0x04u8, CTRL_DOWN] + color_bytes(ctrl_base_spec(CTRL_DOWN, octave_shift as int)) + seq![0xF7u8],
        r@[3]@ == sysex_header() + seq![0x04u8, CTRL_UP] + color_bytes(ctrl_base_spec(CTRL_UP, octave_shift as int)) + seq![0xF7u8],
{
    let mut r: Vec<Vec<u8>> = Vec::new();
    r.push(enter_dev_mode(DEV_MASK_NO_PADS));
    r.push(paint_ctrl_button(CTRL_SETTINGS, ctrl_base_color(CTRL_SETTINGS, octave_shift)));
    r.push(paint_ctrl_button(CTRL_DOWN, ctrl_base_color(CTRL_DOWN, octave_shift)));
    r.push(paint_ctrl_button(CTRL_UP, ctrl_base_color(CTRL_UP, octave_shift)));
    r
}

/// The absolute pitch of a pad entry with the serve loop's base shift of
/// two octaves plus `shift`, summed left to right as
/// `(chan - 1) * edo + key + pitch_offset + 2 * edo + shift * edo`.
pub open spec fn shifted_pitch(e: PadEntry, edo: i32, pitch_offset: i32, shift: i32) -> int {
    (e.chan - 1) * edo + e.key + pitch_offset + 2 * edo + shift * edo
}

pub open spec fn in_i32(x: int) -> bool {
    i32::MIN <= x <= i32::MAX
}

/// Every partial sum of [`shifted_pitch`] stays within `i32`.
pub open spec fn shifted_pitch_fits(e: PadEntry, edo: i32, pitch_offset: i32, shift: i32) -> bool {
    &&& in_i32((e.chan - 1) * edo)
    &&& in_i32((e.chan - 1) * edo + e.key)
    &&& in_i32((e.chan - 1) * edo + e.key + pitch_offset)
    &&& in_i32(2 * edo)
    &&& in_i32((e.chan - 1) * edo + e.key + pitch_offset + 2 * edo)
    &&& in_i32(shift * edo)
    &&& in_i32(shifted_pitch(e, edo, pitch_offset, shift))
}

/// The nearest 12-TET note of a pitch of `edo` steps per octave lies in
/// 0..=127: `pitch * 12 / edo` rounds (halves away from zero) into range,
/// that is lies strictly between -1/2 and 255/2.
pub open spec fn note12_in_range(pitch: int, edo: int) -> bool {
    -edo < 24 * pitch && 24 * pitch < 255 * edo
}

/// Whether shifting a board by `new_shift` octaves keeps the nearest 12-TET
/// note of every mapped pad inside 0..=127 (an empty board always does).
pub open spec fn shift_in_range_spec(pads: Map<u8, PadEntry>, edo: i32, pitch_offset: i32, new_shift: i32) -> bool {
    forall|p: u8| pads.contains_key(p) ==> #[trigger] note12_in_range(
        shifted_pitch(pads[p], edo, pitch_offset, new_shift),
        edo as int,
    )
}

/// Whether `new_shift` keeps every mapped pad of the board playable.
pub fn shift_in_range(bl: &BoardLayout, edo: i32, pitch_offset: i32, new_shift: i32) -> (r: bool)
    requires
        edo > 0,
        forall|p: u8| bl.pads@.contains_key(p) ==> #[trigger] shifted_pitch_fits(bl.pads@[p], edo, pitch_offset, new_shift),
    ensures
        r == shift_in_range_spec(bl.pads@, edo, pitch_offset, new_shift),
{
    let mut k: u16 = 0;
    while k < 256
        invariant
            k <= 256,
            edo > 0,
            forall|p: u8| bl.pads@.contains_key(p) ==> #[trigger] shifted_pitch_fits(bl.pads@[p], edo, pitch_offset, new_shift),
            forall|p: u8| p < k && bl.pads@.contains_key(p) ==> #[trigger] note12_in_range(
                shifted_pitch(bl.pads@[p], edo, pitch_offset, new_shift),
                edo as int,
            ),
        decreases 256 - k,
    {
        let p = k as u8;
        match bl.pads.get(&p) {
            Some(e) => {
                assert(shifted_pitch_fits(bl.pads@[p], edo, pitch_offset, new_shift));
                let a: i64 = (e.chan as i64 - 1) * edo as i64 + e.key as i64 + pitch_offset as i64
                    + 2 * edo as i64 + new_shift as i64 * edo as i64;
                assert(a == shifted_pitch(*e, edo, pitch_offset, new_shift));
                let ok = -(edo as i64) < 24 * a && 24 * a < 255 * edo as i64;
                if !ok {
                    assert(!note12_in_range(shifted_pitch(bl.pads@[p], edo, pitch_offset, new_shift), edo as int));
                    return false;
                }
            },
            None => {},
        }
        k = k + 1;
    }
    true
}

/// What a control button event does on a serving board (besides a press
/// first lighting the button white).
#[derive(Debug, Clone, PartialEq, Eq)]
pub enum ButtonOutcome {
    /// Released: the button goes back to its resting colour.
    Restore { cc: u8, color: Color },
    /// Up or down accepted: the board is now shifted by `shift` octaves;
    /// retune, and give the other octave button its resting colour.
    Shifted { shift: i32, other_cc: u8, other_color: Color },
    /// Settings: go to the next layout.
    CycleLayout,
    /// Nothing else changes.
    Unchanged,
}

/// The outcome of button `cc` going down (`pressed`) or up on a board now
/// shifted by `shift_before`, whose layout is `board` (if it has one). Up
/// and down move the shift by one octave unless that would take a pad out
/// of MIDI range; settings cycles the layout.
pub open spec fn button_spec(
    board: Option<Map<u8, PadEntry>>,
    edo: i32,
    pitch_offset: i32,
    shift_before: i32,
    cc: u8,
    pressed: bool,
) -> ButtonOutcome {
    if !pressed {
        ButtonOutcome::Restore { cc, color: ctrl_base_spec(cc, shift_before as int) }
    } else if cc == CTRL_UP || cc == CTRL_DOWN {
        let new_shift = if cc == CTRL_UP { shift_before + 1 } else { shift_before - 1 };
        match board {
            Some(pads) => if shift_in_range_spec(pads, edo, pitch_offset, new_shift as i32) {
                let other = if cc == CTRL_UP { CTRL_DOWN } else { CTRL_UP };
                ButtonOutcome::Shifted {
                    shift: new_shift as i32,
                    other_cc: other,
                    other_color: ctrl_base_spec(other, new_shift),
                }
            } else {
                ButtonOutcome::Unchanged
            },
            None => ButtonOutcome::Unchanged,
        }
    } else if cc == CTRL_SETTINGS {
        ButtonOutcome::CycleLayout
    } else {
        ButtonOutcome::Unchanged
    }
}

/// Decides a control button event of the serve loop (see [`button_spec`]).
pub fn serve_button_event(
    board: Option<&BoardLayout>,
    edo: i32,
    pitch_offset: i32,
    shift_before: i32,
    cc: u8,
    pressed: bool,
) -> (r: ButtonOutcome)
    requires
        edo > 0,
        i32::MIN < shift_before < i32::MAX,
        board matches Some(bl) ==> forall|p: u8| bl.pads@.contains_key(p) ==> {
            &&& #[trigger] shifted_pitch_fits(bl.pads@[p], edo, pitch_offset, (shift_before + 1) as i32)
            &&& shifted_pitch_fits(bl.pads@[p], edo, pitch_offset, (shift_before - 1) as i32)
        },
    ensures
        r == button_spec(
            match board { Some(bl) => Some(bl.pads@), None => None },
            edo,
            pitch_offset,
            shift_before,
            cc,
            pressed,
        ),
{
    if !pressed {
        return ButtonOutcome::Restore { cc, color: ctrl_base_color(cc, shift_before) };
    }
    if cc == CTRL_UP || cc == CTRL_DOWN {
        let new_shift: i32 = if cc == CTRL_UP { shift_before + 1 } else { shift_before - 1 };
        match board {
            Some(bl) => {
                assert forall|p: u8| bl.pads@.contains_key(p) implies #[trigger] shifted_pitch_fits(
                    bl.pads@[p], edo, pitch_offset, new_shift) by {
                    assert(shifted_pitch_fits(bl.pads@[p], edo, pitch_offset, (shift_before + 1) as i32));
                    assert(shifted_pitch_fits(bl.pads@[p], edo, pitch_offset, (shift_before - 1) as i32));
                }
                if shift_in_range(bl, edo, pitch_offset, new_shift) {
                    let other: u8 = if cc == CTRL_UP { CTRL_DOWN } else { CTRL_UP };
                    ButtonOutcome::Shifted {
                        shift: new_shift,
                        other_cc: other,
                        other_color: ctrl_base_color(other, new_shift),
                    }
                } else {
                    ButtonOutcome::Unchanged
                }
            },
            None => ButtonOutcome::Unchanged,
        }
    } else if cc == CTRL_SETTINGS {
        ButtonOutcome::CycleLayout
    } else {
        ButtonOutcome::Unchanged
    }
}

/// Up then down on a board returns it to the shift it had, when the pads
/// stay in range at both shifts.
pub proof fn lemma_up_then_down_returns(pads: Map<u8, PadEntry>, edo: i32, pitch_offset: i32, shift: i32)
    requires
        i32::MIN < shift < i32::MAX - 1,
        shift_in_range_spec(pads, edo, pitch_offset, shift),
        shift_in_range_spec(pads, edo, pitch_offset, (shift + 1) as i32),
    ensures
        button_spec(Some(pads), edo, pitch_offset, shift, CTRL_UP, true) is Shifted,
        button_spec(Some(pads), edo, pitch_offset, shift, CTRL_UP, true)->shift == shift + 1,
        button_spec(Some(pads), edo, pitch_offset, (shift + 1) as i32, CTRL_DOWN, true) is Shifted,
        button_spec(Some(pads), edo, pitch_offset, (shift + 1) as i32, CTRL_DOWN, true)->shift == shift,
{
    assert(((shift + 1) as i32 - 1) as i32 == shift);
}

/// A shift the buttons accept keeps every mapped pad inside MIDI range.
pub proof fn lemma_accepted_shift_in_range(
    pads: Map<u8, PadEntry>,
    edo: i32,
    pitch_offset: i32,
    shift: i32,
    cc: u8,
)
    requires
        button_spec(Some(pads), edo, pitch_offset, shift, cc, true) is Shifted,
    ensures
        shift_in_range_spec(pads, edo, pitch_offset, button_spec(Some(pads), edo, pitch_offset, shift, cc, true)->shift),
{
}

/// The lines `midi` prints for a decoded message: the raw bytes in raw
/// mode, nothing in dashboard mode, otherwise the event lines (only the MPE
/// ones when `mpe_only`).
pub fn display_lines(decoded: &DecodedEvent, mode: MidiMode, mpe_only: bool) -> (r: Vec<String>)
    ensures
        r@.map_values(|s: String| s@) == match mode {
            MidiMode::Raw => seq![
                "["@ + dec_digits(decoded.raw.device_number as nat) + "] raw "@ + hex_join(decoded.raw.bytes@),
            ],
            MidiMode::Dashboard => Seq::<Seq<char>>::empty(),
            _ => shown_lines(decoded.events@.map_values(|e: DisplayEvent| event_model(e)), mpe_only),
        },
{
    match mode {
        MidiMode::Raw => {
            let mut r: Vec<String> = Vec::new();
            r.push(decoded.raw_line());
            assert(r@.map_values(|s: String| s@) =~= seq![
                "["@ + dec_digits(decoded.raw.device_number as nat) + "] raw "@ + hex_join(decoded.raw.bytes@),
            ]);
            r
        },
        MidiMode::Dashboard => {
            let r: Vec<String> = Vec::new();
            assert(r@.map_values(|s: String| s@) =~= Seq::<Seq<char>>::empty());
            r
        },
        _ => decoded.event_lines(mpe_only),
    }
}

/// Whether `msg` is a press or release of settings, down or up (a control
/// change on channel 16 with three bytes).
pub open spec fn is_serve_button(msg: Seq<u8>) -> bool {
    msg.len() == 3 && msg[0] == 0xBF && (msg[1] == 100 || msg[1] == 106 || msg[1] == 107)
}

/// The serve buttons held down, by device and button.
pub struct HeldButtons {
    held: Vec<(usize, u8)>,
}

impl View for HeldButtons {
    type V = Set<(usize, u8)>;

    closed spec fn view(&self) -> Set<(usize, u8)> {
        self.held@.to_set()
    }
}

impl HeldButtons {
    /// Each button is listed once.
    pub closed spec fn wf(&self) -> bool {
        self.held@.no_duplicates()
    }

    /// No button held.
    pub fn new() -> (r: Self)
        ensures
            r.wf(),
            r@ == Set::<(usize, u8)>::empty(),
    {
        let r = HeldButtons { held: Vec::new() };
        assert(r.held@.to_set() =~= Set::<(usize, u8)>::empty());
        r
    }

    /// Takes in a message from `device`: for a settings, down or up message
    /// whose pressed state (value not 0) differs from what was held, the
    /// button and its new state; `None` otherwise. The held set follows the
    /// message; other messages leave it alone.
    pub fn edge(&mut self, device: usize, msg: &[u8]) -> (r: Option<(u8, bool)>)
        requires
            old(self).wf(),
        ensures
            final(self).wf(),
            !is_serve_button(msg@) ==> r is None && final(self)@ == old(self)@,
            is_serve_button(msg@) ==> ({
                let k = (device, msg@[1]);
                let pressed = msg@[2] != 0;
                &&& r == (if old(self)@.contains(k) != pressed { Some((msg@[1], pressed)) } else { None })
                &&& final(self)@ == (if pressed { old(self)@.insert(k) } else { old(self)@.remove(k) })
            }),
    {
        if !(msg.len() == 3 && msg[0] == 0xBF && (msg[1] == 100 || msg[1] == 106 || msg[1] == 107)) {
            return None;
        }
        let cc = msg[1];
        let pressed = msg[2] != 0;
        let ghost k = (device, cc);
        let ghost s0 = self.held@;
        let mut pos: usize = 0;
        while pos < self.held.len() && !(self.held[pos].0 == device && self.held[pos].1 == cc)
            invariant
                pos <= self.held@.len(),
                self.held@ == s0,
                k == (device, cc),
                forall|j: int| 0 <= j < pos ==> self.held@[j] != k,
            decreases self.held@.len() - pos,
        {
            pos = pos + 1;
        }
        let found = pos < self.held.len();
        proof {
            if !found {
                assert(!s0.contains(k));
                assert(!s0.to_set().contains(k));
            } else {
                assert(s0[pos as int] == k);
                assert(s0.to_set().contains(k));
            }
        }
        if found == pressed {
            return None;
        }
        if pressed {
            self.held.push((device, cc));
            proof {
                let s1 = self.held@;
                assert(s1 == s0.push(k));
                assert forall|x: (usize, u8)| s1.to_set().contains(x) <==> s0.to_set().insert(k).contains(x) by {
                    if s1.contains(x) {
                        let i = choose|i: int| 0 <= i < s1.len() && s1[i] == x;
                        if i < s0.len() {
                            assert(s0[i] == x);
                        }
                    }
                    if s0.contains(x) {
                        let i = choose|i: int| 0 <= i < s0.len() && s0[i] == x;
                        assert(s1[i] == x);
                    }
                    if x == k {
                        assert(s1[s0.len() as int] == k);
                    }
                }
                assert(self.held@.to_set() =~= s0.to_set().insert(k));
                assert forall|i: int, j: int| 0 <= i < j < self.held@.len() implies self.held@[i] != self.held@[j] by {
                    if j == s0.len() as int {
                        assert(self.held@[i] == s0[i]);
                    }
                }
            }
        } else {
            self.held.remove(pos);
            proof {
                let s1 = self.held@;
                assert(s1 =~= s0.subrange(0, pos as int) + s0.subrange(pos as int + 1, s0.len() as int));
                assert forall|x: (usize, u8)| s1.to_set().contains(x) <==> s0.to_set().remove(k).contains(x) by {
                    if s1.contains(x) {
                        let i = choose|i: int| 0 <= i < s1.len() && s1[i] == x;
                        if i < pos {
                            assert(s0[i] == x);
                        } else {
                            assert(s0[i + 1] == x);
                        }
                        assert(x != k);
                    }
                    if s0.contains(x) && x != k {
                        let i = choose|i: int| 0 <= i < s0.len() && s0[i] == x;
                        assert(i != pos);
                        if i < pos {
                            assert(s1[i] == x);
                        } else {
                            assert(s1[i - 1] == x);
                        }
                    }
                }
                assert(s1.to_set() =~= s0.to_set().remove(k));
                assert forall|i: int, j: int| 0 <= i < j < s1.len() implies s1[i] != s1[j] by {
                    let a = if i < pos { i } else { i + 1 };
                    let b = if j < pos { j } else { j + 1 };
                    assert(s1[i] == s0[a] && s1[j] == s0[b]);
                }
            }
        }
        Some((cc, pressed))
    }
}

} // verus!
