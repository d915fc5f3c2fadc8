//! What the Exquis serve loop reports to the HUD: each pad's absolute
//! pitch under the current octave shifts, and the single shift on the wire.
use vstd::prelude::*;

use std::collections::HashMap;

use crate::text::eq_str;
use crate::xtn::{BoardLayout, PadEntry};

verus! {

broadcast use vstd::std_specs::hash::group_hash_axioms;

/// The octave shift every board's tuning starts from.
pub const BASE_OCTAVE_SHIFT: i32 = 2;

/// The absolute pitch of a pad entry:
/// `(chan - 1) * edo + key + pitch_offset + octave_shift * edo`.
pub open spec fn entry_pitch(e: PadEntry, edo: i32, pitch_offset: i32, octave_shift: i32) -> int {
    (e.chan - 1) * edo + e.key + pitch_offset + octave_shift * edo
}

pub open spec fn fits_i32(x: int) -> bool {
    i32::MIN <= x <= i32::MAX
}

/// Every step of working out the entry's pitch, from left to right, stays
/// within `i32`.
pub open spec fn entry_pitch_fits(e: PadEntry, edo: i32, pitch_offset: i32, octave_shift: i32) -> bool {
    &&& fits_i32((e.chan - 1) * edo)
    &&& fits_i32((e.chan - 1) * edo + e.key)
    &&& fits_i32((e.chan - 1) * edo + e.key + pitch_offset)
    &&& fits_i32(octave_shift * edo)
    &&& fits_i32(entry_pitch(e, edo, pitch_offset, octave_shift))
}

/// The absolute pitch of a pad entry.
pub fn entry_abs_pitch(e: &PadEntry, edo: i32, pitch_offset: i32, octave_shift: i32) -> (r: i32)
    requires
        entry_pitch_fits(*e, edo, pitch_offset, octave_shift),
    ensures
        r == entry_pitch(*e, edo, pitch_offset, octave_shift),
{
    let a: i32 = (e.chan as i32 - 1) * edo;
    let b: i32 = a + e.key as i32;
    let c: i32 = b + pitch_offset;
    let d: i32 = octave_shift * edo;
    c + d
}

/// A device's octave shift: its entry, or 0.
pub open spec fn shift_of(shifts: Map<usize, i32>, dev: usize) -> i32 {
    if shifts.contains_key(dev) { shifts[dev] } else { 0 }
}

/// The octave shift of device `dev`.
pub fn device_shift(shifts: &HashMap<usize, i32>, dev: usize) -> (r: i32)
    ensures
        r == shift_of(shifts@, dev),
{
    match shifts.get(&dev) {
        Some(s) => *s,
        None => 0,
    }
}

/// The pitch of every pad 0..=60 of a board under `octave_shift`; `None`
/// where the layout has no entry.
pub open spec fn board_row(pads: Map<u8, PadEntry>, edo: i32, pitch_offset: i32, octave_shift: i32) -> Seq<Option<i32>> {
    Seq::new(61, |i: int| if pads.contains_key(i as u8) {
        Some(entry_pitch(pads[i as u8], edo, pitch_offset, octave_shift) as i32)
    } else {
        None
    })
}

pub open spec fn row_fits(pads: Map<u8, PadEntry>, edo: i32, pitch_offset: i32, octave_shift: i32) -> bool {
    forall|p: u8| p <= 60 && pads.contains_key(p) ==> #[trigger] entry_pitch_fits(pads[p], edo, pitch_offset, octave_shift)
}

/// The layout pitches of one board for the HUD.
pub fn board_pitches(board: &BoardLayout, edo: i32, pitch_offset: i32, octave_shift: i32) -> (r: Vec<Option<i32>>)
    requires
        row_fits(board.pads@, edo, pitch_offset, octave_shift),
    ensures
        r@ == board_row(board.pads@, edo, pitch_offset, octave_shift),
{
    let mut row: Vec<Option<i32>> = Vec::new();
    let mut p: u8 = 0;
    while p <= 60
        invariant
            p <= 61,
            row@.len() == p,
            row_fits(board.pads@, edo, pitch_offset, octave_shift),
            forall|i: int| 0 <= i < p ==> #[trigger] row@[i] == board_row(board.pads@, edo, pitch_offset, octave_shift)[i],
        decreases 61 - p,
    {
        match board.pads.get(&p) {
            Some(e) => {
                assert(entry_pitch_fits(board.pads@[p], edo, pitch_offset, octave_shift));
                row.push(Some(entry_abs_pitch(e, edo, pitch_offset, octave_shift)));
            },
            None => {
                row.push(None);
            },
        }
        p = p + 1;
    }
    assert(row@ =~= board_row(board.pads@, edo, pitch_offset, octave_shift));
    row
}

/// The single octave shift the HUD is told: that of the device showing
/// `board0`, else that of the first device, else 0, clamped to `i8`.
pub open spec fn wire_shift_spec(devices: Seq<(usize, Seq<char>)>, shifts: Map<usize, i32>) -> i8 {
    let s: int = if exists|i: int| 0 <= i < devices.len() && devices[i].1 == "board0"@ {
        let i = choose|i: int| 0 <= i < devices.len() && devices[i].1 == "board0"@
            && forall|j: int| 0 <= j < i ==> devices[j].1 != "board0"@;
        shift_of(shifts, devices[i].0) as int
    } else if devices.len() > 0 {
        shift_of(shifts, devices[0].0) as int
    } else {
        0
    };
    (if s < -128 { -128 } else if s > 127 { 127 } else { s }) as i8
}

/// The octave shift for the HUD's wire shape, given the devices and their
/// board names in increasing device order.
pub fn wire_octave_shift(devices: &[(usize, String)], shifts: &HashMap<usize, i32>) -> (r: i8)
    ensures
        r == wire_shift_spec(devices@.map_values(|d: (usize, String)| (d.0, d.1@)), shifts@),
{
    let ghost ds = devices@.map_values(|d: (usize, String)| (d.0, d.1@));
    let mut found: Option<usize> = None;
    let mut i: usize = 0;
    while i < devices.len()
        invariant
            i <= devices@.len(),
            ds == devices@.map_values(|d: (usize, String)| (d.0, d.1@)),
            found is None ==> forall|j: int| 0 <= j < i ==> ds[j].1 != "board0"@,
            found matches Some(k) ==> k < i && ds[k as int].1 == "board0"@
                && forall|j: int| 0 <= j < k ==> ds[j].1 != "board0"@,
        decreases devices@.len() - i,
    {
        if found.is_none() {
            let name = crate::text::chars_of(devices[i].1.as_str());
            if eq_str(&name, "board0") {
                found = Some(i);
            }
        }
        i = i + 1;
    }
    let s: i32 = match found {
        Some(k) => {
            proof {
                let w = choose|w: int| 0 <= w < ds.len() && ds[w].1 == "board0"@
                    && forall|j: int| 0 <= j < w ==> ds[j].1 != "board0"@;
                if w < k {
                } else if k < w {
                    assert(ds[k as int].1 == "board0"@);
                }
                assert(w == k);
            }
            device_shift(shifts, devices[k].0)
        },
        None => {
            if devices.len() > 0 {
                device_shift(shifts, devices[0].0)
            } else {
                0
            }
        },
    };
    if s < -128 {
        -128
    } else if s > 127 {
        127
    } else {
        s as i8
    }
}

} // verus!
