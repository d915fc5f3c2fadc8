//! The decisions of the Wooting play loop that do not depend on analog
//! readings: which cell a key plays, which MIDI channels a board uses, the
//! first LED paint, the MIDI bytes sent and the snapshot cadence.
use vstd::prelude::*;

use std::collections::HashMap;
use std::collections::HashSet;

use crate::settings::BoardSettings;
use crate::settings::ControlBarSettings;
use crate::wooting::control_bar::{append_cmds, paint_restore, restore_spec, RgbCmd};
use crate::wooting::geometry::rotated;
use crate::wooting::hid::{
    ARROW_DOWN, ARROW_LEFT, ARROW_RIGHT, CONTEXT_MENU, LEFT_ALT, LEFT_CONTROL, LEFT_META, RIGHT_ALT,
    SPACE,
};
use crate::wooting::hidmap::{hid_listing, wtn_index_for_loc, wtn_index_spec, HidMap, KeyLoc};
use crate::wooting::modes::AftertouchMode;
use crate::wooting::wtn::{Wtn, WtnCell, WtnModel};

verus! {

broadcast use vstd::std_specs::hash::group_hash_axioms;

/// The cell `idx` of `board`, if both exist.
pub open spec fn cell_at(w: WtnModel, board: u8, idx: int) -> Option<WtnCell> {
    if w.boards.contains_key(board) && 0 <= idx < w.boards[board].len() {
        Some(w.boards[board][idx])
    } else {
        None
    }
}

/// The output channel of a set cell: its 0-based channel moved by the octave
/// shift and the octave hold, clamped to 0..=15.
pub open spec fn shifted_channel(chan: u8, octave_shift: i16, octave_hold: bool) -> u8 {
    let base: int = if chan >= 1 { chan - 1 } else { 0 };
    let v = base + octave_shift + if octave_hold { 1int } else { 0int };
    (if v < 0 { 0 } else if v > 15 { 15 } else { v }) as u8
}

/// Cell `idx` of `board` is set and plays on channel `c`.
pub open spec fn cell_plays(w: WtnModel, board: u8, idx: int, octave_shift: i16, octave_hold: bool, c: int) -> bool {
    match cell_at(w, board, idx) {
        Some(cell) => cell.chan != 0 && shifted_channel(cell.chan, octave_shift, octave_hold) == c,
        None => false,
    }
}

/// Some set cell of `board` plays on channel `c`.
pub open spec fn channel_used(w: WtnModel, board: u8, octave_shift: i16, octave_hold: bool, c: u8) -> bool {
    exists|idx: int|
        0 <= idx < 56 && #[trigger] cell_plays(w, board, idx, octave_shift, octave_hold, c as int)
}

/// The channels the set cells of `board` play on, ascending, each once.
pub fn used_channels(wtn: &Wtn, board: u8, octave_shift: i16, octave_hold: bool) -> (r: Vec<u8>)
    requires
        octave_shift <= i16::MAX - 255,
    ensures
        forall|i: int, j: int| 0 <= i < j < r.len() ==> r[i] < r[j],
        forall|i: int| 0 <= i < r.len() ==> channel_used(wtn@, board, octave_shift, octave_hold, #[trigger] r[i]),
        forall|c: u8| channel_used(wtn@, board, octave_shift, octave_hold, c) ==> r@.contains(c),
{
    let hold: i16 = if octave_hold { 1 } else { 0 };
    let mut seen: Vec<bool> = Vec::new();
    let mut k: usize = 0;
    while k < 16
        invariant
            k <= 16,
            seen.len() == k,
            forall|c: int| 0 <= c < k ==> !seen[c],
        decreases 16 - k,
    {
        seen.push(false);
        k = k + 1;
    }
    let mut idx: usize = 0;
    while idx < 56
        invariant
            idx <= 56,
            seen.len() == 16,
            octave_shift <= i16::MAX - 255,
            hold == if octave_hold { 1i16 } else { 0i16 },
            forall|c: int|
                0 <= c < 16 ==> (#[trigger] seen[c] <==> exists|i: int|
                    0 <= i < idx && #[trigger] cell_plays(wtn@, board, i, octave_shift, octave_hold, c as int)),
        decreases 56 - idx,
    {
        match wtn.cell(board, idx) {
            Some(cell) => {
                if cell.chan != 0 {
                    let base = (cell.chan - 1) as i16;
                    let v = base + octave_shift + hold;
                    let s: u8 = if v < 0 {
                        0
                    } else if v > 15 {
                        15
                    } else {
                        v as u8
                    };
                    assert(s == shifted_channel(cell.chan, octave_shift, octave_hold));
                    seen.set(s as usize, true);
                    assert(cell_at(wtn@, board, idx as int) == Some(cell));
                }
            },
            None => {},
        }
        assert forall|c: int| 0 <= c < 16 implies (#[trigger] seen[c] <==> exists|i: int|
            0 <= i < idx + 1 && #[trigger] cell_plays(wtn@, board, i, octave_shift, octave_hold, c as int)) by {
            if seen[c] && !(exists|i: int|
                0 <= i < idx && #[trigger] cell_plays(wtn@, board, i, octave_shift, octave_hold, c as int)) {
                assert(cell_plays(wtn@, board, idx as int, octave_shift, octave_hold, c));
            }
        }
        idx = idx + 1;
    }
    let mut r: Vec<u8> = Vec::new();
    let mut c: usize = 0;
    while c < 16
        invariant
            c <= 16,
            seen.len() == 16,
            forall|i: int, j: int| 0 <= i < j < r.len() ==> r[i] < r[j],
            forall|i: int| 0 <= i < r.len() ==> #[trigger] r[i] < c,
            forall|i: int| 0 <= i < r.len() ==> seen[#[trigger] r[i] as int],
            forall|d: int| 0 <= d < c && #[trigger] seen[d] ==> r@.contains(d as u8),
        decreases 16 - c,
    {
        if seen[c] {
            let ghost before = r@;
            r.push(c as u8);
            assert(forall|k: int| 0 <= k < before.len() ==> r@[k] == before[k]);
            assert(r@[r.len() - 1] == c as u8);
            assert forall|i: int, j: int| 0 <= i < j < r.len() implies r[i] < r[j] by {
                if j < r.len() - 1 {
                    assert(r[i] == before[i] && r[j] == before[j]);
                } else {
                    assert(r[i] == before[i] || i == r.len() - 1);
                }
            }
            assert forall|d: int| 0 <= d < c + 1 && #[trigger] seen[d] implies r@.contains(d as u8) by {
                if d < c {
                    let k = choose|k: int| 0 <= k < before.len() && before[k] == d as u8;
                    assert(r@[k] == d as u8);
                } else {
                    assert(r@[r.len() - 1] == d as u8);
                }
            }
        }
        c = c + 1;
    }
    assert forall|i: int| 0 <= i < r.len() implies channel_used(wtn@, board, octave_shift, octave_hold, #[trigger] r[i]) by {
        assert(seen[r[i] as int]);
    }
    assert forall|ch: u8| channel_used(wtn@, board, octave_shift, octave_hold, ch) implies r@.contains(ch) by {
        let i = choose|i: int|
            0 <= i < 56 && #[trigger] cell_plays(wtn@, board, i, octave_shift, octave_hold, ch as int);
        assert(seen[ch as int]);
    }
    r
}

/// What a key plays: its location and its set cell on `wtn_board` once the
/// grid is rotated and packed; none for unmapped keys, keys off the grid and
/// unset cells.
pub open spec fn resolve_spec(
    hid: u16,
    m: Map<u16, KeyLoc>,
    compact: Seq<u8>,
    rotation_deg: u16,
    w: WtnModel,
    wtn_board: u8,
) -> Option<(KeyLoc, WtnCell)> {
    if !m.contains_key(hid) {
        None
    } else {
        match wtn_index_spec(m[hid], rotation_deg, compact) {
            None => None,
            Some(idx) => match cell_at(w, wtn_board, idx as int) {
                None => None,
                Some(cell) => if cell.chan == 0 {
                    None
                } else {
                    Some((m[hid], cell))
                },
            },
        }
    }
}

pub fn resolve_cell(
    hid: u16,
    map: &HidMap,
    compact: &[u8; 4],
    rotation_deg: u16,
    wtn: &Wtn,
    wtn_board: u8,
) -> (r: Option<(KeyLoc, WtnCell)>)
    ensures
        r == resolve_spec(hid, map@, compact@, rotation_deg, wtn@, wtn_board),
{
    let loc0 = match map.loc_for(hid) {
        Some(l) => l,
        None => {
            return None;
        },
    };
    let idx = match wtn_index_for_loc(loc0, rotation_deg, compact) {
        Some(i) => i,
        None => {
            return None;
        },
    };
    let cell = match wtn.cell(wtn_board, idx) {
        Some(c) => c,
        None => {
            return None;
        },
    };
    if cell.chan == 0 {
        return None;
    }
    Some((loc0, cell))
}

/// The RGB device index of a board: the first board entry for it decides;
/// without an override (or an entry) it is the board number itself.
pub open spec fn rgb_index_spec(boards: Seq<BoardSettings>, wtn_board: u8) -> u8
    decreases boards.len(),
{
    if boards.len() == 0 {
        wtn_board
    } else if boards[0].wtn_board == wtn_board {
        match boards[0].rgb_device_index {
            Some(i) => i,
            None => wtn_board,
        }
    } else {
        rgb_index_spec(boards.drop_first(), wtn_board)
    }
}

pub fn rgb_index_for_board(boards: &[BoardSettings], wtn_board: u8) -> (r: u8)
    ensures
        r == rgb_index_spec(boards@, wtn_board),
{
    let mut i: usize = 0;
    assert(boards@.skip(0) =~= boards@);
    while i < boards.len()
        invariant
            i <= boards.len(),
            rgb_index_spec(boards@, wtn_board) == rgb_index_spec(boards@.skip(i as int), wtn_board),
        decreases boards.len() - i,
    {
        assert(boards@.skip(i as int).drop_first() =~= boards@.skip(i + 1));
        if boards[i].wtn_board == wtn_board {
            return match boards[i].rgb_device_index {
                Some(x) => x,
                None => wtn_board,
            };
        }
        i = i + 1;
    }
    wtn_board
}

/// The LED commands that show `cells` on one keyboard: for each mapped key
/// (by HID code) whose packed index has a cell, that cell's colour at the
/// key's LED, black for an unset cell.
pub open spec fn cell_led_cmds(
    locs: Seq<(u16, KeyLoc)>,
    cells: Seq<WtnCell>,
    rotation_deg: u16,
    compact: Seq<u8>,
    dev: u8,
) -> Seq<RgbCmd>
    decreases locs.len(),
{
    if locs.len() == 0 {
        Seq::empty()
    } else {
        let rest = cell_led_cmds(locs.drop_last(), cells, rotation_deg, compact, dev);
        let loc = locs.last().1;
        match wtn_index_spec(loc, rotation_deg, compact) {
            None => rest,
            Some(idx) => if idx < cells.len() {
                let cell = cells[idx as int];
                rest.push(
                    RgbCmd {
                        device_index: dev,
                        row: loc.led_row,
                        col: loc.led_col,
                        rgb: if cell.chan == 0 {
                            (0u8, 0u8, 0u8)
                        } else {
                            cell.color
                        },
                    },
                )
            } else {
                rest
            },
        }
    }
}

/// The cells of `board`, none when the layout lacks it.
pub open spec fn board_cells(w: WtnModel, board: u8) -> Seq<WtnCell> {
    if w.boards.contains_key(board) {
        w.boards[board]
    } else {
        Seq::empty()
    }
}

pub fn push_cell_leds(
    out: &mut Vec<RgbCmd>,
    locs: &Vec<(u16, KeyLoc)>,
    cells: &[WtnCell],
    rotation_deg: u16,
    compact: &[u8; 4],
    dev: u8,
)
    ensures
        final(out)@ == old(out)@ + cell_led_cmds(locs@, cells@, rotation_deg, compact@, dev),
{
    let ghost start = out@;
    let mut j: usize = 0;
    while j < locs.len()
        invariant
            j <= locs.len(),
            out@ == start + cell_led_cmds(locs@.take(j as int), cells@, rotation_deg, compact@, dev),
        decreases locs.len() - j,
    {
        let loc = locs[j].1;
        assert(locs@.take(j + 1).drop_last() =~= locs@.take(j as int));
        match wtn_index_for_loc(loc, rotation_deg, compact) {
            Some(idx) => {
                if idx < cells.len() {
                    let cell = cells[idx];
                    let rgb = if cell.chan == 0 {
                        (0u8, 0u8, 0u8)
                    } else {
                        cell.color
                    };
                    out.push(RgbCmd { device_index: dev, row: loc.led_row, col: loc.led_col, rgb });
                }
            },
            None => {},
        }
        j = j + 1;
    }
    assert(locs@.take(locs.len() as int) =~= locs@);
}

/// The first paint of one board: its cells, then the whole control bar.
pub open spec fn board_first_paint(
    w: WtnModel,
    m: Map<u16, KeyLoc>,
    compact_upright: Seq<u8>,
    compact_rotated: Seq<u8>,
    cb: ControlBarSettings,
    mode: AftertouchMode,
    total: u8,
    pair: (u8, u8),
) -> Seq<RgbCmd> {
    let rot: u16 = if pair.0 % 2 == 0 && pair.0 + 1 < total { 180 } else { 0 };
    let compact = if rot == 180 { compact_rotated } else { compact_upright };
    cell_led_cmds(hid_listing(m), board_cells(w, pair.0), rot, compact, pair.1) + restore_spec(
        cb,
        pair.1,
        None,
        mode,
        false,
    )
}

pub open spec fn first_paint(
    w: WtnModel,
    m: Map<u16, KeyLoc>,
    compact_upright: Seq<u8>,
    compact_rotated: Seq<u8>,
    cb: ControlBarSettings,
    mode: AftertouchMode,
    total: u8,
    pairs: Seq<(u8, u8)>,
) -> Seq<RgbCmd>
    decreases pairs.len(),
{
    if pairs.len() == 0 {
        Seq::empty()
    } else {
        first_paint(w, m, compact_upright, compact_rotated, cb, mode, total, pairs.drop_last())
            + board_first_paint(w, m, compact_upright, compact_rotated, cb, mode, total, pairs.last())
    }
}

/// The LEDs painted when play starts, for each `(wtn_board, rgb_index)`
/// pair in order: even boards with a partner are drawn rotated.
pub fn paint_initial_leds(
    wtn: &Wtn,
    map: &HidMap,
    compact_upright: &[u8; 4],
    compact_rotated: &[u8; 4],
    cb: &ControlBarSettings,
    aftertouch_mode: AftertouchMode,
    board_rgb_pairs: &[(u8, u8)],
) -> (r: Vec<RgbCmd>)
    ensures
        r@ == first_paint(
            wtn@,
            map@,
            compact_upright@,
            compact_rotated@,
            *cb,
            aftertouch_mode,
            board_rgb_pairs@.len() as u8,
            board_rgb_pairs@,
        ),
{
    #[verifier::truncate]
    let total: u8 = board_rgb_pairs.len() as u8;
    let locs = map.all_locs();
    let mut out: Vec<RgbCmd> = Vec::new();
    let empty: Vec<WtnCell> = Vec::new();
    let mut p: usize = 0;
    while p < board_rgb_pairs.len()
        invariant
            p <= board_rgb_pairs.len(),
            total == board_rgb_pairs@.len() as u8,
            locs@ == hid_listing(map@),
            empty@ == Seq::<WtnCell>::empty(),
            out@ == first_paint(
                wtn@,
                map@,
                compact_upright@,
                compact_rotated@,
                *cb,
                aftertouch_mode,
                total,
                board_rgb_pairs@.take(p as int),
            ),
        decreases board_rgb_pairs.len() - p,
    {
        let (wtn_board, rgb_idx) = board_rgb_pairs[p];
        let rot: u16 = if rotated(wtn_board, total) {
            180
        } else {
            0
        };
        let compact = if rot == 180 {
            compact_rotated
        } else {
            compact_upright
        };
        match wtn.boards.get(&wtn_board) {
            Some(cells) => push_cell_leds(&mut out, &locs, cells.as_slice(), rot, compact, rgb_idx),
            None => push_cell_leds(&mut out, &locs, empty.as_slice(), rot, compact, rgb_idx),
        }
        let bar = paint_restore(cb, rgb_idx, None, aftertouch_mode, false);
        append_cmds(&mut out, &bar);
        assert(board_rgb_pairs@.take(p + 1).drop_last() =~= board_rgb_pairs@.take(p as int));
        p = p + 1;
    }
    assert(board_rgb_pairs@.take(board_rgb_pairs.len() as int) =~= board_rgb_pairs@);
    out
}

/// Note on: `[0x90 | ch, note, vel]`, each data byte cut to 7 bits.
pub fn note_on_msg(ch: u8, note: u8, vel: u8) -> (r: [u8; 3])
    ensures
        r@ == seq![0x90u8 | (ch & 0x0F), note & 0x7F, vel & 0x7F],
{
    [0x90 | (ch & 0x0F), note & 0x7F, vel & 0x7F]
}

/// Note off: `[0x80 | ch, note, 0]`.
pub fn note_off_msg(ch: u8, note: u8) -> (r: [u8; 3])
    ensures
        r@ == seq![0x80u8 | (ch & 0x0F), note & 0x7F, 0u8],
{
    [0x80 | (ch & 0x0F), note & 0x7F, 0]
}

/// Polyphonic pressure: `[0xA0 | ch, note, pressure]`.
pub fn poly_pressure_msg(ch: u8, note: u8, pressure: u8) -> (r: [u8; 3])
    ensures
        r@ == seq![0xA0u8 | (ch & 0x0F), note & 0x7F, pressure & 0x7F],
{
    [0xA0 | (ch & 0x0F), note & 0x7F, pressure & 0x7F]
}

/// Control change: `[0xB0 | ch, cc, value]`.
pub fn cc_msg(ch: u8, cc: u8, value: u8) -> (r: [u8; 3])
    ensures
        r@ == seq![0xB0u8 | (ch & 0x0F), cc & 0x7F, value & 0x7F],
{
    [0xB0 | (ch & 0x0F), cc & 0x7F, value & 0x7F]
}

/// The 14-bit value of a bend in -8192..=8191 (centre 8192), clamped.
pub open spec fn bend_value(bend: i32) -> u16 {
    let v = bend + 8192;
    (if v < 0 { 0 } else if v > 16383 { 16383 } else { v }) as u16
}

/// Pitch bend: `[0xE0 | ch, lsb, msb]` of the clamped 14-bit value.
pub fn pitch_bend_msg(ch: u8, bend: i32) -> (r: [u8; 3])
    requires
        bend <= i32::MAX - 8192,
    ensures
        r@ == seq![
            0xE0u8 | (ch & 0x0F),
            (bend_value(bend) & 0x7F) as u8,
            ((bend_value(bend) >> 7) & 0x7F) as u8,
        ],
{
    let s = bend + 8192;
    let v: u16 = if s < 0 {
        0
    } else if s > 16383 {
        16383
    } else {
        s as u16
    };
    let lsb = (v & 0x7F) as u8;
    let msb = ((v >> 7) & 0x7F) as u8;
    [0xE0 | (ch & 0x0F), lsb, msb]
}

/// All notes off (CC 123) on each of the 16 channels, channel 0 first.
pub fn all_notes_off_msgs() -> (r: Vec<[u8; 3]>)
    ensures
        r.len() == 16,
        forall|c: int| 0 <= c < 16 ==> (#[trigger] r[c])@ == seq![0xB0u8 | (c as u8), 123u8, 0u8],
{
    let mut r: Vec<[u8; 3]> = Vec::new();
    let mut ch: u8 = 0;
    while ch < 16
        invariant
            ch <= 16,
            r.len() == ch,
            forall|c: int| 0 <= c < ch ==> (#[trigger] r[c])@ == seq![0xB0u8 | (c as u8), 123u8, 0u8],
        decreases 16 - ch,
    {
        r.push([0xB0 | ch, 123, 0]);
        ch = ch + 1;
    }
    r
}

/// The value last sent on channel `ch`, `none` when nothing was.
pub open spec fn last_sent<V>(m: Map<u8, V>, ch: u8, none: V) -> V {
    if m.contains_key(ch) { m[ch] } else { none }
}

/// Going through `chans` in order: the channels whose last value differs
/// from `v` (they get it sent), and the memory of last values after.
pub open spec fn resend_run<V>(chans: Seq<u8>, m: Map<u8, V>, v: V, none: V) -> (Seq<u8>, Map<u8, V>)
    decreases chans.len(),
{
    if chans.len() == 0 {
        (Seq::empty(), m)
    } else {
        let prev = resend_run(chans.drop_last(), m, v, none);
        let ch = chans.last();
        if last_sent(prev.1, ch, none) != v {
            (prev.0.push(ch), prev.1.insert(ch, v))
        } else {
            prev
        }
    }
}

/// `chans` are exactly the channels the board uses, ascending.
pub open spec fn used_channel_seq(w: WtnModel, board: u8, octave_shift: i16, octave_hold: bool, chans: Seq<u8>) -> bool {
    &&& forall|i: int, j: int| 0 <= i < j < chans.len() ==> chans[i] < chans[j]
    &&& forall|i: int| 0 <= i < chans.len() ==> channel_used(w, board, octave_shift, octave_hold, #[trigger] chans[i])
    &&& forall|c: u8| channel_used(w, board, octave_shift, octave_hold, c) ==> chans.contains(c)
}

/// The bytes of a pitch bend on `ch`.
pub open spec fn pitch_bend_bytes(ch: u8, bend: i32) -> Seq<u8> {
    seq![0xE0u8 | (ch & 0x0F), (bend_value(bend) & 0x7F) as u8, ((bend_value(bend) >> 7) & 0x7F) as u8]
}

/// The pitch bends a board's control-bar bend sends: on each channel the
/// board uses, ascending, whose last sent bend (nothing counting as
/// `i32::MIN`) differs; those channels remember the new bend.
pub fn emit_pitchbend_for_board(
    wtn: &Wtn,
    board: u8,
    bend: i32,
    octave_shift: i16,
    octave_hold: bool,
    last_pb: &mut HashMap<u8, i32>,
) -> (r: Vec<[u8; 3]>)
    requires
        octave_shift <= i16::MAX - 255,
        bend <= i32::MAX - 8192,
    ensures
        exists|chans: Seq<u8>| {
            &&& used_channel_seq(wtn@, board, octave_shift, octave_hold, chans)
            &&& final(last_pb)@ == resend_run(chans, old(last_pb)@, bend, i32::MIN).1
            &&& r@.len() == resend_run(chans, old(last_pb)@, bend, i32::MIN).0.len()
            &&& forall|i: int| 0 <= i < r@.len() ==> (#[trigger] r@[i])@ == pitch_bend_bytes(
                resend_run(chans, old(last_pb)@, bend, i32::MIN).0[i], bend)
        },
{
    let chans = used_channels(wtn, board, octave_shift, octave_hold);
    let ghost m0 = last_pb@;
    let mut out: Vec<[u8; 3]> = Vec::new();
    let mut k: usize = 0;
    while k < chans.len()
        invariant
            k <= chans@.len(),
            bend <= i32::MAX - 8192,
            last_pb@ == resend_run(chans@.take(k as int), m0, bend, i32::MIN).1,
            out@.len() == resend_run(chans@.take(k as int), m0, bend, i32::MIN).0.len(),
            forall|i: int| 0 <= i < out@.len() ==> (#[trigger] out@[i])@ == pitch_bend_bytes(
                resend_run(chans@.take(k as int), m0, bend, i32::MIN).0[i], bend),
        decreases chans@.len() - k,
    {
        let ch = chans[k];
        let last: i32 = match last_pb.get(&ch) {
            Some(v) => *v,
            None => i32::MIN,
        };
        assert(chans@.take(k + 1).drop_last() =~= chans@.take(k as int));
        if last != bend {
            out.push(pitch_bend_msg(ch, bend));
            last_pb.insert(ch, bend);
        }
        k = k + 1;
    }
    assert(chans@.take(chans@.len() as int) =~= chans@);
    assert(m0 == old(last_pb)@);
    assert(used_channel_seq(wtn@, board, octave_shift, octave_hold, chans@));
    out
}

/// The bytes of control change `cc` on `ch`.
pub open spec fn cc_bytes(ch: u8, cc: u8, value: u8) -> Seq<u8> {
    seq![0xB0u8 | (ch & 0x0F), cc & 0x7F, value & 0x7F]
}

/// The control changes a board's control-bar CC sends: on each channel
/// the board uses, ascending, whose last value of this CC (nothing counting
/// as 255) differs; those channels remember the new value. `last_cc`
/// holds the values of this one CC number by channel.
pub fn emit_cc_for_board(
    wtn: &Wtn,
    board: u8,
    cc_num: u8,
    value: u8,
    octave_shift: i16,
    octave_hold: bool,
    last_cc: &mut HashMap<u8, u8>,
) -> (r: Vec<[u8; 3]>)
    requires
        octave_shift <= i16::MAX - 255,
    ensures
        exists|chans: Seq<u8>| {
            &&& used_channel_seq(wtn@, board, octave_shift, octave_hold, chans)
            &&& final(last_cc)@ == resend_run(chans, old(last_cc)@, value, u8::MAX).1
            &&& r@.len() == resend_run(chans, old(last_cc)@, value, u8::MAX).0.len()
            &&& forall|i: int| 0 <= i < r@.len() ==> (#[trigger] r@[i])@ == cc_bytes(
                resend_run(chans, old(last_cc)@, value, u8::MAX).0[i], cc_num, value)
        },
{
    let chans = used_channels(wtn, board, octave_shift, octave_hold);
    let ghost m0 = last_cc@;
    let mut out: Vec<[u8; 3]> = Vec::new();
    let mut k: usize = 0;
    while k < chans.len()
        invariant
            k <= chans@.len(),
            last_cc@ == resend_run(chans@.take(k as int), m0, value, u8::MAX).1,
            out@.len() == resend_run(chans@.take(k as int), m0, value, u8::MAX).0.len(),
            forall|i: int| 0 <= i < out@.len() ==> (#[trigger] out@[i])@ == cc_bytes(
                resend_run(chans@.take(k as int), m0, value, u8::MAX).0[i], cc_num, value),
        decreases chans@.len() - k,
    {
        let ch = chans[k];
        let last: u8 = match last_cc.get(&ch) {
            Some(v) => *v,
            None => u8::MAX,
        };
        assert(chans@.take(k + 1).drop_last() =~= chans@.take(k as int));
        if last != value {
            out.push(cc_msg(ch, cc_num, value));
            last_cc.insert(ch, value);
        }
        k = k + 1;
    }
    assert(chans@.take(chans@.len() as int) =~= chans@);
    assert(m0 == old(last_cc)@);
    assert(used_channel_seq(wtn@, board, octave_shift, octave_hold, chans@));
    out
}

/// Whether a held key's new pressure `p` is sent, after `last` was: when
/// it moved by at least `min_step`, or newly reached 0 or 127.
pub fn pressure_due(p: u8, last: u8, min_step: u32) -> (r: bool)
    ensures
        r == ((if p >= last { p - last } else { last - p }) >= min_step
            || (p != last && p == 127) || (p != last && p == 0)),
{
    let d: u32 = if p >= last { (p - last) as u32 } else { (last - p) as u32 };
    d >= min_step || (p != last && p == 127) || (p != last && p == 0)
}

/// The output channel of a key's cell: its 0-based channel moved by the
/// octave shift and hold, clamped to 0..=15.
pub fn out_channel(chan: u8, octave_shift: i16, octave_hold: bool) -> (r: u8)
    requires
        octave_shift <= i16::MAX - 255,
    ensures
        r == shifted_channel(chan, octave_shift, octave_hold),
{
    let base: i16 = if chan >= 1 { (chan - 1) as i16 } else { 0 };
    let hold: i16 = if octave_hold { 1 } else { 0 };
    let v = base + octave_shift + hold;
    if v < 0 {
        0
    } else if v > 15 {
        15
    } else {
        v as u8
    }
}

/// What pressing a control-bar key does.
#[derive(Debug, Clone, Copy, PartialEq, Eq, Structural)]
pub enum BarDown {
    /// Space: toggle the board's octave hold.
    ToggleOctaveHold,
    /// Right Alt: next aftertouch mode (debounced).
    CycleAftertouch,
    /// Left arrow: lower the press threshold, or the aftertouch speed range.
    LowerSetting,
    /// Right arrow: raise the press threshold, or the aftertouch speed range.
    RaiseSetting,
    /// Down arrow: next velocity profile.
    NextVelocityProfile,
    /// Left Ctrl: bend up by the key's depth.
    BendUp,
    /// Left Alt: bend down by the key's depth.
    BendDown,
    /// Left Meta: the board's analog CC follows the key's depth.
    AnalogCc,
    /// Context menu: the next layout.
    CycleLayout,
    /// Any other control-bar key only flashes.
    NoAction,
}

/// The action of a control-bar key going down.
pub fn bar_key_down(h: u16) -> (r: BarDown)
    ensures
        r == if h == SPACE { BarDown::ToggleOctaveHold }
            else if h == RIGHT_ALT { BarDown::CycleAftertouch }
            else if h == ARROW_LEFT { BarDown::LowerSetting }
            else if h == ARROW_RIGHT { BarDown::RaiseSetting }
            else if h == ARROW_DOWN { BarDown::NextVelocityProfile }
            else if h == LEFT_CONTROL { BarDown::BendUp }
            else if h == LEFT_ALT { BarDown::BendDown }
            else if h == LEFT_META { BarDown::AnalogCc }
            else if h == CONTEXT_MENU { BarDown::CycleLayout }
            else { BarDown::NoAction },
{
    if h == SPACE { BarDown::ToggleOctaveHold }
    else if h == RIGHT_ALT { BarDown::CycleAftertouch }
    else if h == ARROW_LEFT { BarDown::LowerSetting }
    else if h == ARROW_RIGHT { BarDown::RaiseSetting }
    else if h == ARROW_DOWN { BarDown::NextVelocityProfile }
    else if h == LEFT_CONTROL { BarDown::BendUp }
    else if h == LEFT_ALT { BarDown::BendDown }
    else if h == LEFT_META { BarDown::AnalogCc }
    else if h == CONTEXT_MENU { BarDown::CycleLayout }
    else { BarDown::NoAction }
}

/// What releasing a control-bar key does before its LEDs are restored.
#[derive(Debug, Clone, Copy, PartialEq, Eq, Structural)]
pub enum BarUp {
    /// Left Ctrl: the up bend goes back to 0.
    ReleaseBendUp,
    /// Left Alt: the down bend goes back to 0.
    ReleaseBendDown,
    /// Left Meta: the analog CC is sent 0.
    ZeroCc,
    /// Other keys: only the LEDs.
    RestoreOnly,
}

/// The action of a control-bar key going up.
pub fn bar_key_up(h: u16) -> (r: BarUp)
    ensures
        r == if h == LEFT_CONTROL { BarUp::ReleaseBendUp }
            else if h == LEFT_ALT { BarUp::ReleaseBendDown }
            else if h == LEFT_META { BarUp::ZeroCc }
            else { BarUp::RestoreOnly },
{
    if h == LEFT_CONTROL { BarUp::ReleaseBendUp }
    else if h == LEFT_ALT { BarUp::ReleaseBendDown }
    else if h == LEFT_META { BarUp::ZeroCc }
    else { BarUp::RestoreOnly }
}

/// Toggles the octave hold of device `dev`; true when it is now on.
pub fn toggle_octave_hold(holds: &mut HashSet<u64>, dev: u64) -> (r: bool)
    ensures
        r == !old(holds)@.contains(dev),
        final(holds)@ == if r { old(holds)@.insert(dev) } else { old(holds)@.remove(dev) },
{
    if holds.contains(&dev) {
        holds.remove(&dev);
        false
    } else {
        holds.insert(dev);
        true
    }
}

/// Milliseconds within which a second aftertouch toggle of a device is
/// ignored.
pub const AFTERTOUCH_DEBOUNCE_MS: u64 = 160;

/// Whether an aftertouch toggle at `now_ms` counts, after the device's
/// last counted one at `last_ms` (a time after `now_ms` counts as no time
/// passed).
pub fn aftertouch_toggle_allowed(last_ms: Option<u64>, now_ms: u64) -> (r: bool)
    ensures
        r == match last_ms {
            Some(t) => (if now_ms >= t { now_ms - t } else { 0 }) >= AFTERTOUCH_DEBOUNCE_MS,
            None => true,
        },
{
    match last_ms {
        Some(t) => now_ms.saturating_sub(t) >= AFTERTOUCH_DEBOUNCE_MS,
        None => true,
    }
}

/// The velocity profile after `idx` among `len`, wrapping.
pub fn next_velocity_index(idx: usize, len: usize) -> (r: usize)
    requires
        len > 0,
        idx < usize::MAX,
    ensures
        r == (idx + 1) % (len as int),
        r < len,
{
    (idx + 1) % len
}

/// Whether the LEDs blank now: not blank yet, no key down, a timeout set,
/// and at least that many seconds idle.
pub fn screensaver_due(active: bool, any_pressed: bool, timeout_sec: u64, idle_ms: u64) -> (r: bool)
    ensures
        r == (!active && !any_pressed && timeout_sec > 0 && idle_ms >= timeout_sec * 1000),
{
    let r = !active && !any_pressed && timeout_sec > 0 && idle_ms / 1000 >= timeout_sec;
    assert((idle_ms / 1000 >= timeout_sec) == (idle_ms >= timeout_sec * 1000)) by (nonlinear_arith);
    r
}

/// Milliseconds between two snapshots of the play loop.
pub const SNAPSHOT_INTERVAL_MS: u64 = 40;

/// Whether a snapshot is due at `now_ms`; when it is, the next one is
/// scheduled an interval later.
pub fn snapshot_due(now_ms: u64, next_at_ms: &mut u64) -> (r: bool)
    requires
        now_ms <= u64::MAX - SNAPSHOT_INTERVAL_MS,
    ensures
        r == (now_ms >= *old(next_at_ms)),
        *final(next_at_ms) == if r {
            (now_ms + SNAPSHOT_INTERVAL_MS) as u64
        } else {
            *old(next_at_ms)
        },
{
    if now_ms >= *next_at_ms {
        *next_at_ms = now_ms + SNAPSHOT_INTERVAL_MS;
        true
    } else {
        false
    }
}

/// The messages the Wooting player sends read back as what was played:
/// posted as sequencer events, a note on on channel `ch` (0..=15) is that
/// note with that velocity, a note off is that note released, a control
/// change is that controller and value, and a pitch bend within
/// -8192..=8191 is that bend (and the touch decoder reads the same x).
pub proof fn lemma_sent_messages_read_back(ch: u8, note: u8, vel: u8, cc: u8, value: u8, bend: i32)
    requires
        ch < 16,
        note < 128,
        0 < vel < 128,
        cc < 128,
        value < 128,
        -8192 <= bend <= 8191,
    ensures
        crate::midi_out::seq_event_spec(seq![0x90u8 | (ch & 0x0F), note & 0x7F, vel & 0x7F]) == Some(
            crate::midi_out::SeqEvent::NoteOn { channel: ch, note, velocity: vel },
        ),
        crate::midi_out::seq_event_spec(seq![0x80u8 | (ch & 0x0F), note & 0x7F, 0u8]) == Some(
            crate::midi_out::SeqEvent::NoteOff { channel: ch, note, velocity: 0 },
        ),
        crate::midi_out::seq_event_spec(seq![0xB0u8 | (ch & 0x0F), cc & 0x7F, value & 0x7F]) == Some(
            crate::midi_out::SeqEvent::Controller { channel: ch, param: cc as u32, value: value as i32 },
        ),
        crate::midi_out::seq_event_spec(
            seq![0xE0u8 | (ch & 0x0F), (bend_value(bend) & 0x7F) as u8, ((bend_value(bend) >> 7) & 0x7F) as u8],
        ) == Some(crate::midi_out::SeqEvent::PitchBend { channel: ch, value: bend }),
        crate::exquis::mpe::bend_of((bend_value(bend) & 0x7F) as u8, ((bend_value(bend) >> 7) & 0x7F) as u8) == bend,
{
    assert((0x90u8 | (ch & 0x0F)) == (0x90 + ch) as u8 && (0x80u8 | (ch & 0x0F)) == (0x80 + ch) as u8 && (0xB0u8 | (ch
        & 0x0F)) == (0xB0 + ch) as u8 && (0xE0u8 | (ch & 0x0F)) == (0xE0 + ch) as u8) by (bit_vector)
        requires
            ch < 16,
    ;
    assert(note & 0x7F == note && vel & 0x7F == vel && cc & 0x7F == cc && value & 0x7F == value) by (bit_vector)
        requires
            note < 128,
            vel < 128,
            cc < 128,
            value < 128,
    ;
    let v = bend_value(bend);
    assert(v as int == bend + 8192);
    let lsb = (v & 0x7F) as u8;
    let msb = ((v >> 7) & 0x7F) as u8;
    assert(lsb < 128 && msb < 128 && 128 * msb + lsb == v) by (bit_vector)
        requires
            v <= 16383,
            lsb == (v & 0x7F) as u8,
            msb == ((v >> 7) & 0x7F) as u8,
    ;
    crate::midi_out::lemma_seq_event_kinds(ch, note, vel);
    crate::midi_out::lemma_seq_event_kinds(ch, cc, value);
    crate::midi_out::lemma_seq_event_kinds(ch, lsb, msb);
    assert((((msb as i16) << 7u32) | (lsb as i16)) == 128 * (msb as i16) + (lsb as i16)) by (bit_vector)
        requires
            lsb < 128,
            msb < 128,
    ;
}

} // verus!
