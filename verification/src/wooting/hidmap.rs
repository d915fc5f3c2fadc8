//! Where each HID key of a Wooting 60HE ANSI sits: its cell on the 4x14
//! playable grid and its LED on the 6x14 light grid.
//!
//! Wide keys (the Shifts, Enter) keep contiguous grid columns while their LED
//! column skips the positions that they cover.
use std::collections::HashMap;

use vstd::prelude::*;

use crate::wooting::hid;

verus! {

broadcast use vstd::std_specs::hash::group_hash_axioms;

/// A USB HID usage code.
pub type Hid = u16;

/// A key's cell on the playable grid (rows 0..4, columns 0..14) and its LED
/// position (rows 0..6, columns 0..14).
#[derive(Debug, Clone, Copy, PartialEq, Eq, Structural)]
pub struct KeyLoc {
    pub midi_row: u8,
    pub midi_col: u8,
    pub led_row: u8,
    pub led_col: u8,
}

pub open spec fn key_loc(midi_row: u8, midi_col: u8, led_row: u8, led_col: u8) -> KeyLoc {
    KeyLoc { midi_row, midi_col, led_row, led_col }
}

/// Why a grid transform refused a location.
#[derive(Debug, Clone, Copy, PartialEq, Eq, Structural)]
pub enum GridError {
    /// The location lies outside the 4x14 playable grid.
    OutOfBounds,
    /// Only 0 and 180 degrees are supported.
    UnsupportedRotation(u16),
}

/// HID code -> key location.
#[derive(Debug, Clone)]
pub struct HidMap {
    loc_by_hid: HashMap<u16, KeyLoc>,
}

impl View for HidMap {
    type V = Map<u16, KeyLoc>;

    closed spec fn view(&self) -> Map<u16, KeyLoc> {
        self.loc_by_hid@
    }
}

/// The standard 60% ANSI layout: LED rows 1..=4 hold grid rows 0..=3.
pub open spec fn default_ansi_map() -> Map<u16, KeyLoc> {
    Map::empty()
        .insert(hid::ESCAPE, key_loc(0, 0, 1, 0))
        .insert(hid::N1, key_loc(0, 1, 1, 1))
        .insert(hid::N2, key_loc(0, 2, 1, 2))
        .insert(hid::N3, key_loc(0, 3, 1, 3))
        .insert(hid::N4, key_loc(0, 4, 1, 4))
        .insert(hid::N5, key_loc(0, 5, 1, 5))
        .insert(hid::N6, key_loc(0, 6, 1, 6))
        .insert(hid::N7, key_loc(0, 7, 1, 7))
        .insert(hid::N8, key_loc(0, 8, 1, 8))
        .insert(hid::N9, key_loc(0, 9, 1, 9))
        .insert(hid::N0, key_loc(0, 10, 1, 10))
        .insert(hid::MINUS, key_loc(0, 11, 1, 11))
        .insert(hid::EQUAL, key_loc(0, 12, 1, 12))
        .insert(hid::BACKSPACE, key_loc(0, 13, 1, 13))
        .insert(hid::TAB, key_loc(1, 0, 2, 0))
        .insert(hid::Q, key_loc(1, 1, 2, 1))
        .insert(hid::W, key_loc(1, 2, 2, 2))
        .insert(hid::E, key_loc(1, 3, 2, 3))
        .insert(hid::R, key_loc(1, 4, 2, 4))
        .insert(hid::T, key_loc(1, 5, 2, 5))
        .insert(hid::Y, key_loc(1, 6, 2, 6))
        .insert(hid::U, key_loc(1, 7, 2, 7))
        .insert(hid::I, key_loc(1, 8, 2, 8))
        .insert(hid::O, key_loc(1, 9, 2, 9))
        .insert(hid::P, key_loc(1, 10, 2, 10))
        .insert(hid::BRACKET_LEFT, key_loc(1, 11, 2, 11))
        .insert(hid::BRACKET_RIGHT, key_loc(1, 12, 2, 12))
        .insert(hid::BACKSLASH, key_loc(1, 13, 2, 13))
        .insert(hid::CAPSLOCK, key_loc(2, 0, 3, 0))
        .insert(hid::A, key_loc(2, 1, 3, 1))
        .insert(hid::S, key_loc(2, 2, 3, 2))
        .insert(hid::D, key_loc(2, 3, 3, 3))
        .insert(hid::F, key_loc(2, 4, 3, 4))
        .insert(hid::G, key_loc(2, 5, 3, 5))
        .insert(hid::H, key_loc(2, 6, 3, 6))
        .insert(hid::J, key_loc(2, 7, 3, 7))
        .insert(hid::K, key_loc(2, 8, 3, 8))
        .insert(hid::L, key_loc(2, 9, 3, 9))
        .insert(hid::SEMICOLON, key_loc(2, 10, 3, 10))
        .insert(hid::QUOTE, key_loc(2, 11, 3, 11))
        .insert(hid::ENTER, key_loc(2, 12, 3, 13))
        .insert(hid::LEFT_SHIFT, key_loc(3, 0, 4, 0))
        .insert(hid::Z, key_loc(3, 1, 4, 2))
        .insert(hid::X, key_loc(3, 2, 4, 3))
        .insert(hid::C, key_loc(3, 3, 4, 4))
        .insert(hid::V, key_loc(3, 4, 4, 5))
        .insert(hid::B, key_loc(3, 5, 4, 6))
        .insert(hid::N, key_loc(3, 6, 4, 7))
        .insert(hid::M, key_loc(3, 7, 4, 8))
        .insert(hid::COMMA, key_loc(3, 8, 4, 9))
        .insert(hid::PERIOD, key_loc(3, 9, 4, 10))
        .insert(hid::SLASH, key_loc(3, 10, 4, 11))
        .insert(hid::RIGHT_SHIFT, key_loc(3, 11, 4, 13))
}

/// The map after each override, in order, replaced or added its key.
pub open spec fn with_overrides(m: Map<u16, KeyLoc>, ovs: Seq<(u16, u8, u8, u8, u8)>) -> Map<
    u16,
    KeyLoc,
>
    decreases ovs.len(),
{
    if ovs.len() == 0 {
        m
    } else {
        let o = ovs.last();
        with_overrides(m, ovs.drop_last()).insert(o.0, key_loc(o.1, o.2, o.3, o.4))
    }
}

/// The entries of `m` whose HID code is below `n`, by ascending code.
pub open spec fn hid_listing_upto(m: Map<u16, KeyLoc>, n: int) -> Seq<(u16, KeyLoc)>
    decreases n,
{
    if n <= 0 {
        Seq::empty()
    } else {
        let h = (n - 1) as u16;
        let rest = hid_listing_upto(m, n - 1);
        if m.contains_key(h) {
            rest.push((h, m[h]))
        } else {
            rest
        }
    }
}

/// All entries of `m`, by ascending HID code.
pub open spec fn hid_listing(m: Map<u16, KeyLoc>) -> Seq<(u16, KeyLoc)> {
    hid_listing_upto(m, 65536)
}

/// `s` lists the entries of `m`, each once, by ascending HID code.
pub open spec fn lists_by_hid(s: Seq<(u16, KeyLoc)>, m: Map<u16, KeyLoc>) -> bool {
    &&& forall|i: int, j: int| 0 <= i < j < s.len() ==> s[i].0 < s[j].0
    &&& forall|i: int|
        0 <= i < s.len() ==> m.contains_key(#[trigger] s[i].0) && m[s[i].0] == s[i].1
    &&& forall|h: u16| #[trigger]
        m.contains_key(h) ==> exists|i: int| 0 <= i < s.len() && s[i].0 == h
}

fn put(m: &mut HashMap<u16, KeyLoc>, h: u16, midi_row: u8, midi_col: u8, led_row: u8, led_col: u8)
    ensures
        final(m)@ == old(m)@.insert(h, key_loc(midi_row, midi_col, led_row, led_col)),
{
    m.insert(h, KeyLoc { midi_row, midi_col, led_row, led_col });
}

impl HidMap {
    /// Best guess for a standard 60% ANSI Wooting; `apply_overrides` corrects it.
    pub fn default_60he_ansi_guess() -> (r: Self)
        ensures
            r@ == default_ansi_map(),
    {
        let mut m: HashMap<u16, KeyLoc> = HashMap::new();
        put(&mut m, hid::ESCAPE, 0, 0, 1, 0);
        put(&mut m, hid::N1, 0, 1, 1, 1);
        put(&mut m, hid::N2, 0, 2, 1, 2);
        put(&mut m, hid::N3, 0, 3, 1, 3);
        put(&mut m, hid::N4, 0, 4, 1, 4);
        put(&mut m, hid::N5, 0, 5, 1, 5);
        put(&mut m, hid::N6, 0, 6, 1, 6);
        put(&mut m, hid::N7, 0, 7, 1, 7);
        put(&mut m, hid::N8, 0, 8, 1, 8);
        put(&mut m, hid::N9, 0, 9, 1, 9);
        put(&mut m, hid::N0, 0, 10, 1, 10);
        put(&mut m, hid::MINUS, 0, 11, 1, 11);
        put(&mut m, hid::EQUAL, 0, 12, 1, 12);
        put(&mut m, hid::BACKSPACE, 0, 13, 1, 13);
        put(&mut m, hid::TAB, 1, 0, 2, 0);
        put(&mut m, hid::Q, 1, 1, 2, 1);
        put(&mut m, hid::W, 1, 2, 2, 2);
        put(&mut m, hid::E, 1, 3, 2, 3);
        put(&mut m, hid::R, 1, 4, 2, 4);
        put(&mut m, hid::T, 1, 5, 2, 5);
        put(&mut m, hid::Y, 1, 6, 2, 6);
        put(&mut m, hid::U, 1, 7, 2, 7);
        put(&mut m, hid::I, 1, 8, 2, 8);
        put(&mut m, hid::O, 1, 9, 2, 9);
        put(&mut m, hid::P, 1, 10, 2, 10);
        put(&mut m, hid::BRACKET_LEFT, 1, 11, 2, 11);
        put(&mut m, hid::BRACKET_RIGHT, 1, 12, 2, 12);
        put(&mut m, hid::BACKSLASH, 1, 13, 2, 13);
        put(&mut m, hid::CAPSLOCK, 2, 0, 3, 0);
        put(&mut m, hid::A, 2, 1, 3, 1);
        put(&mut m, hid::S, 2, 2, 3, 2);
        put(&mut m, hid::D, 2, 3, 3, 3);
        put(&mut m, hid::F, 2, 4, 3, 4);
        put(&mut m, hid::G, 2, 5, 3, 5);
        put(&mut m, hid::H, 2, 6, 3, 6);
        put(&mut m, hid::J, 2, 7, 3, 7);
        put(&mut m, hid::K, 2, 8, 3, 8);
        put(&mut m, hid::L, 2, 9, 3, 9);
        put(&mut m, hid::SEMICOLON, 2, 10, 3, 10);
        put(&mut m, hid::QUOTE, 2, 11, 3, 11);
        // The wide Enter key lights the last LED column.
        put(&mut m, hid::ENTER, 2, 12, 3, 13);
        // Wide Shift keys: the LED column skips the positions they cover.
        put(&mut m, hid::LEFT_SHIFT, 3, 0, 4, 0);
        put(&mut m, hid::Z, 3, 1, 4, 2);
        put(&mut m, hid::X, 3, 2, 4, 3);
        put(&mut m, hid::C, 3, 3, 4, 4);
        put(&mut m, hid::V, 3, 4, 4, 5);
        put(&mut m, hid::B, 3, 5, 4, 6);
        put(&mut m, hid::N, 3, 6, 4, 7);
        put(&mut m, hid::M, 3, 7, 4, 8);
        put(&mut m, hid::COMMA, 3, 8, 4, 9);
        put(&mut m, hid::PERIOD, 3, 9, 4, 10);
        put(&mut m, hid::SLASH, 3, 10, 4, 11);
        put(&mut m, hid::RIGHT_SHIFT, 3, 11, 4, 13);
        HidMap { loc_by_hid: m }
    }

    /// Each `(hid, midi_row, midi_col, led_row, led_col)` replaces or adds
    /// that key's location, later entries winning.
    pub fn apply_overrides(&mut self, overrides: &[(u16, u8, u8, u8, u8)])
        ensures
            final(self)@ == with_overrides(old(self)@, overrides@),
    {
        let mut i: usize = 0;
        while i < overrides.len()
            invariant
                i <= overrides.len(),
                self@ == with_overrides(old(self)@, overrides@.take(i as int)),
            decreases overrides.len() - i,
        {
            let (h, midi_row, midi_col, led_row, led_col) = overrides[i];
            self.loc_by_hid.insert(h, KeyLoc { midi_row, midi_col, led_row, led_col });
            assert(overrides@.take(i + 1).drop_last() == overrides@.take(i as int));
            i = i + 1;
        }
        assert(overrides@.take(i as int) == overrides@);
    }

    pub fn loc_for(&self, hid: u16) -> (r: Option<KeyLoc>)
        ensures
            r == (if self@.contains_key(hid) {
                Some(self@[hid])
            } else {
                None
            }),
    {
        match self.loc_by_hid.get(&hid) {
            Some(l) => Some(*l),
            None => None,
        }
    }

    /// Every entry, by ascending HID code.
    pub fn all_locs(&self) -> (r: Vec<(u16, KeyLoc)>)
        ensures
            r@ == hid_listing(self@),
            lists_by_hid(r@, self@),
    {
        let mut out: Vec<(u16, KeyLoc)> = Vec::new();
        let mut i: u32 = 0;
        while i < 65536
            invariant
                i <= 65536,
                out@ == hid_listing_upto(self@, i as int),
                forall|a: int, b: int| 0 <= a < b < out.len() ==> out[a].0 < out[b].0,
                forall|a: int|
                    0 <= a < out.len() ==> out[a].0 < i && self@.contains_key(#[trigger] out[a].0)
                        && self@[out[a].0] == out[a].1,
                forall|h: u16|
                    h < i && #[trigger] self@.contains_key(h) ==> exists|a: int|
                        0 <= a < out.len() && out[a].0 == h,
            decreases 65536 - i,
        {
            let h = i as u16;
            assert(h == (i + 1 - 1) as u16);
            match self.loc_for(h) {
                Some(l) => {
                    let ghost before = out@;
                    out.push((h, l));
                    assert forall|g: u16|
                        g < i + 1 && #[trigger] self@.contains_key(g) implies exists|a: int|
                        0 <= a < out.len() && out[a].0 == g by {
                        if g < i {
                            let a = choose|a: int| 0 <= a < before.len() && before[a].0 == g;
                            assert(out[a].0 == g);
                        } else {
                            assert(out[out.len() - 1].0 == g);
                        }
                    }
                },
                None => {},
            }
            i = i + 1;
        }
        out
    }
}

/// Rotating the playable grid: 0 degrees keeps a location, 180 degrees turns
/// row and column round on the 4x14 grid; the LED position never changes.
pub open spec fn rotate_spec(loc: KeyLoc, rotation_deg: u16) -> Result<KeyLoc, GridError> {
    if rotation_deg == 0 {
        Ok(loc)
    } else if rotation_deg == 180 {
        if loc.midi_row >= 4 || loc.midi_col >= 14 {
            Err(GridError::OutOfBounds)
        } else {
            Ok(
                KeyLoc {
                    midi_row: (3 - loc.midi_row) as u8,
                    midi_col: (13 - loc.midi_col) as u8,
                    led_row: loc.led_row,
                    led_col: loc.led_col,
                },
            )
        }
    } else {
        Err(GridError::UnsupportedRotation(rotation_deg))
    }
}

/// Rotate the 4x14 playable grid by 0 or 180 degrees.
pub fn rotate_4x14(loc: KeyLoc, rotation_deg: u16) -> (r: Result<KeyLoc, GridError>)
    ensures
        r == rotate_spec(loc, rotation_deg),
{
    if rotation_deg == 0 {
        Ok(loc)
    } else if rotation_deg == 180 {
        if loc.midi_row >= 4 || loc.midi_col >= 14 {
            Err(GridError::OutOfBounds)
        } else {
            Ok(
                KeyLoc {
                    midi_row: 3 - loc.midi_row,
                    midi_col: 13 - loc.midi_col,
                    led_row: loc.led_row,
                    led_col: loc.led_col,
                },
            )
        }
    } else {
        Err(GridError::UnsupportedRotation(rotation_deg))
    }
}

pub open spec fn mirror_spec(loc: KeyLoc, mirror: bool) -> Result<KeyLoc, GridError> {
    if !mirror {
        Ok(loc)
    } else if loc.midi_row >= 4 || loc.midi_col >= 14 {
        Err(GridError::OutOfBounds)
    } else {
        Ok(KeyLoc { midi_col: (13 - loc.midi_col) as u8, ..loc })
    }
}

/// Mirror the 4x14 playable grid left to right (when `mirror` is set).
pub fn mirror_cols_4x14(loc: KeyLoc, mirror: bool) -> (r: Result<KeyLoc, GridError>)
    ensures
        r == mirror_spec(loc, mirror),
{
    if !mirror {
        return Ok(loc);
    }
    if loc.midi_row >= 4 || loc.midi_col >= 14 {
        return Err(GridError::OutOfBounds);
    }
    let mut out = loc;
    out.midi_col = 13 - loc.midi_col;
    Ok(out)
}

/// Turning the grid twice by 180 degrees gives back every location on it.
pub proof fn lemma_rotate_twice(loc: KeyLoc)
    requires
        loc.midi_row < 4,
        loc.midi_col < 14,
    ensures
        rotate_spec(loc, 180) is Ok,
        rotate_spec(rotate_spec(loc, 180)->Ok_0, 180) == Ok::<KeyLoc, GridError>(loc),
{
}

/// Mirroring twice gives back every location on the grid.
pub proof fn lemma_mirror_twice(loc: KeyLoc)
    requires
        loc.midi_row < 4,
        loc.midi_col < 14,
    ensures
        mirror_spec(loc, true) is Ok,
        mirror_spec(mirror_spec(loc, true)->Ok_0, true) == Ok::<KeyLoc, GridError>(loc),
{
}

/// `loc` lands on grid row `row` once rotated.
pub open spec fn rotates_into_row(loc: KeyLoc, rotation_deg: u16, row: int) -> bool {
    rotate_spec(loc, rotation_deg) is Ok && rotate_spec(loc, rotation_deg)->Ok_0.midi_row == row
}

pub open spec fn rotated_col(loc: KeyLoc, rotation_deg: u16) -> u8 {
    rotate_spec(loc, rotation_deg)->Ok_0.midi_col
}

/// `v` is the least rotated column below 255 among the keys of `m` on row
/// `row`, or 0 when there is none.
pub open spec fn is_row_offset(m: Map<u16, KeyLoc>, rotation_deg: u16, row: int, v: u8) -> bool {
    if exists|h: u16|
        #![trigger m[h]]
        m.contains_key(h) && rotates_into_row(m[h], rotation_deg, row) && rotated_col(
            m[h],
            rotation_deg,
        ) < 255 {
        &&& exists|h: u16|
            #![trigger m[h]]
            m.contains_key(h) && rotates_into_row(m[h], rotation_deg, row) && rotated_col(
                m[h],
                rotation_deg,
            ) == v
        &&& forall|h: u16|
            #![trigger m[h]]
            m.contains_key(h) && rotates_into_row(m[h], rotation_deg, row) ==> v <= rotated_col(
                m[h],
                rotation_deg,
            )
    } else {
        v == 0
    }
}

/// The least rotated column on row `row` among `locs`, or 255 if none is
/// smaller.
pub open spec fn min_col_over(locs: Seq<(u16, KeyLoc)>, rotation_deg: u16, row: int) -> u8
    decreases locs.len(),
{
    if locs.len() == 0 {
        255
    } else {
        let m = min_col_over(locs.drop_last(), rotation_deg, row);
        let l = locs.last().1;
        if rotates_into_row(l, rotation_deg, row) && rotated_col(l, rotation_deg) < m {
            rotated_col(l, rotation_deg)
        } else {
            m
        }
    }
}

/// The packing offset of grid row `row` (0 when the row is empty).
pub open spec fn compact_offset(m: Map<u16, KeyLoc>, rotation_deg: u16, row: int) -> u8 {
    let v = min_col_over(hid_listing(m), rotation_deg, row);
    if v == 255 {
        0
    } else {
        v
    }
}

/// Per grid row, the smallest column in use after rotation, so that
/// `midi_col - offset[row]` packs each row from column 0 (wide keys leave the
/// first columns of some rows empty).
pub fn compute_compact_col_offsets(map: &HidMap, rotation_deg: u16) -> (r: [u8; 4])
    ensures
        forall|row: int| 0 <= row < 4 ==> #[trigger] r@[row] == compact_offset(map@, rotation_deg, row),
        forall|row: int| 0 <= row < 4 ==> is_row_offset(map@, rotation_deg, row, #[trigger] r@[row]),
{
    let locs = map.all_locs();
    let mut min_col: Vec<u8> = Vec::new();
    min_col.push(255);
    min_col.push(255);
    min_col.push(255);
    min_col.push(255);
    let mut j: usize = 0;
    while j < locs.len()
        invariant
            j <= locs.len(),
            min_col.len() == 4,
            locs@ == hid_listing(map@),
            forall|row: int| 0 <= row < 4 ==> #[trigger] min_col[row] == min_col_over(locs@.take(j as int), rotation_deg, row),
            forall|row: int, k: int|
                0 <= row < 4 && 0 <= k < j && rotates_into_row(#[trigger] locs[k].1, rotation_deg, row)
                    ==> #[trigger] min_col[row] <= rotated_col(locs[k].1, rotation_deg),
            forall|row: int|
                0 <= row < 4 ==> #[trigger] min_col[row] == 255 || exists|k: int|
                    0 <= k < j && rotates_into_row(locs[k].1, rotation_deg, row) && rotated_col(
                        #[trigger] locs[k].1,
                        rotation_deg,
                    ) == min_col[row],
        decreases locs.len() - j,
    {
        let (_, loc0) = locs[j];
        match rotate_4x14(loc0, rotation_deg) {
            Ok(loc) => {
                if loc.midi_row < 4 {
                    let row = loc.midi_row as usize;
                    if loc.midi_col < min_col[row] {
                        min_col.set(row, loc.midi_col);
                    }
                }
            },
            Err(_) => {},
        }
        assert(locs@.take(j + 1).drop_last() =~= locs@.take(j as int));
        j = j + 1;
    }
    assert(locs@.take(locs.len() as int) =~= locs@);
    let mut row: usize = 0;
    while row < 4
        invariant
            row <= 4,
            min_col.len() == 4,
            locs@ == hid_listing(map@),
            forall|r: int| 0 <= r < row ==> #[trigger] min_col[r] == compact_offset(map@, rotation_deg, r),
            forall|r: int| row <= r < 4 ==> #[trigger] min_col[r] == min_col_over(locs@, rotation_deg, r),
            forall|r: int, k: int|
                0 <= r < 4 && 0 <= k < locs.len() && rotates_into_row(#[trigger] locs[k].1, rotation_deg, r)
                    && min_col[r] != 0 ==> #[trigger] min_col[r] <= rotated_col(locs[k].1, rotation_deg),
            forall|r: int|
                0 <= r < row ==> #[trigger] min_col[r] != 255,
            forall|r: int|
                0 <= r < row ==> (#[trigger] min_col[r] == 0 && forall|k: int|
                    0 <= k < locs.len() && rotates_into_row(#[trigger] locs[k].1, rotation_deg, r)
                        ==> rotated_col(locs[k].1, rotation_deg) >= 255) || exists|k: int|
                    0 <= k < locs.len() && rotates_into_row(locs[k].1, rotation_deg, r) && rotated_col(
                        #[trigger] locs[k].1,
                        rotation_deg,
                    ) == min_col[r],
            forall|r: int|
                row <= r < 4 ==> #[trigger] min_col[r] == 255 || exists|k: int|
                    0 <= k < locs.len() && rotates_into_row(locs[k].1, rotation_deg, r) && rotated_col(
                        #[trigger] locs[k].1,
                        rotation_deg,
                    ) == min_col[r],
        decreases 4 - row,
    {
        if min_col[row] == 255 {
            min_col.set(row, 0);
        }
        row = row + 1;
    }
    let r = [min_col[0], min_col[1], min_col[2], min_col[3]];
    assert forall|row: int| 0 <= row < 4 implies is_row_offset(map@, rotation_deg, row, #[trigger] r@[row]) by {
        let m = map@;
        assert(r@[row] == min_col[row]);
        assert forall|h: u16| #[trigger] m.contains_key(h) && rotates_into_row(m[h], rotation_deg, row)
            implies (min_col[row] != 0 ==> min_col[row] <= rotated_col(m[h], rotation_deg))
            && (min_col[row] == 0 ==> true) by {
            let k = choose|k: int| 0 <= k < locs.len() && locs[k].0 == h;
            assert(locs[k].1 == m[h]);
        }
        if exists|h: u16|
            #![trigger m[h]]
            m.contains_key(h) && rotates_into_row(m[h], rotation_deg, row) && rotated_col(m[h], rotation_deg) < 255 {
            let h = choose|h: u16|
                #![trigger m[h]]
                m.contains_key(h) && rotates_into_row(m[h], rotation_deg, row) && rotated_col(m[h], rotation_deg) < 255;
            let k0 = choose|k: int| 0 <= k < locs.len() && locs[k].0 == h;
            assert(locs[k0].1 == m[h]);
            let k = choose|k: int|
                0 <= k < locs.len() && rotates_into_row(locs[k].1, rotation_deg, row) && rotated_col(
                    #[trigger] locs[k].1,
                    rotation_deg,
                ) == min_col[row];
            assert(m.contains_key(locs[k].0) && m[locs[k].0] == locs[k].1);
            if min_col[row] == 0 {
            } else {
            }
        } else {
            if exists|k: int|
                0 <= k < locs.len() && rotates_into_row(locs[k].1, rotation_deg, row) && rotated_col(
                    #[trigger] locs[k].1,
                    rotation_deg,
                ) == min_col[row] {
                let k = choose|k: int|
                    0 <= k < locs.len() && rotates_into_row(locs[k].1, rotation_deg, row) && rotated_col(
                        #[trigger] locs[k].1,
                        rotation_deg,
                    ) == min_col[row];
                assert(m.contains_key(locs[k].0) && m[locs[k].0] == locs[k].1);
            }
        }
    }
    r
}

pub open spec fn wtn_index_spec(loc: KeyLoc, rotation_deg: u16, compact: Seq<u8>) -> Option<usize> {
    match rotate_spec(loc, rotation_deg) {
        Err(_) => None,
        Ok(l) => {
            if l.midi_row >= 4 {
                None
            } else {
                let off = compact[l.midi_row as int];
                if l.midi_col < off || l.midi_col - off >= 14 {
                    None
                } else {
                    Some((l.midi_row * 14 + (l.midi_col - off)) as usize)
                }
            }
        },
    }
}

/// The `.wtn` cell index of a key: rotate, then pack its row by the row's
/// offset. `None` when the key falls outside the 4x14 grid.
pub fn wtn_index_for_loc(loc: KeyLoc, rotation_deg: u16, compact: &[u8; 4]) -> (r: Option<usize>)
    ensures
        r == wtn_index_spec(loc, rotation_deg, compact@),
        r matches Some(i) ==> i < 56,
{
    let l = match rotate_4x14(loc, rotation_deg) {
        Ok(l) => l,
        Err(_) => {
            return None;
        },
    };
    if l.midi_row >= 4 {
        return None;
    }
    let off = compact[l.midi_row as usize];
    if l.midi_col < off {
        return None;
    }
    let col = (l.midi_col - off) as usize;
    if col >= 14 {
        return None;
    }
    Some((l.midi_row as usize) * 14 + col)
}

/// The keys of row `r` of a 60% ANSI keyboard (0 = the number row, 3 =
/// the shift row), from left to right as they sit on the board.
pub open spec fn ansi_row_keys(r: int) -> Seq<u16> {
    if r == 0 {
        seq![hid::ESCAPE, hid::N1, hid::N2, hid::N3, hid::N4, hid::N5, hid::N6, hid::N7, hid::N8, hid::N9, hid::N0, hid::MINUS, hid::EQUAL, hid::BACKSPACE]
    } else if r == 1 {
        seq![hid::TAB, hid::Q, hid::W, hid::E, hid::R, hid::T, hid::Y, hid::U, hid::I, hid::O, hid::P, hid::BRACKET_LEFT, hid::BRACKET_RIGHT, hid::BACKSLASH]
    } else if r == 2 {
        seq![hid::CAPSLOCK, hid::A, hid::S, hid::D, hid::F, hid::G, hid::H, hid::J, hid::K, hid::L, hid::SEMICOLON, hid::QUOTE, hid::ENTER]
    } else {
        seq![hid::LEFT_SHIFT, hid::Z, hid::X, hid::C, hid::V, hid::B, hid::N, hid::M, hid::COMMA, hid::PERIOD, hid::SLASH, hid::RIGHT_SHIFT]
    }
}

/// The default 60% ANSI map follows the keyboard: the `i`-th key from the
/// left on row `r` plays grid row `r`, column `i`, lights LED row `r + 1`,
/// and the LED columns grow from left to right along the row.
pub proof fn lemma_default_rows_in_order(r: int, i: int)
    requires
        0 <= r < 4,
        0 <= i < ansi_row_keys(r).len(),
    ensures
        default_ansi_map().contains_key(ansi_row_keys(r)[i]),
        default_ansi_map()[ansi_row_keys(r)[i]].midi_row == r,
        default_ansi_map()[ansi_row_keys(r)[i]].midi_col == i,
        default_ansi_map()[ansi_row_keys(r)[i]].led_row == r + 1,
        i + 1 < ansi_row_keys(r).len() ==> default_ansi_map()[ansi_row_keys(r)[i]].led_col
            < default_ansi_map()[ansi_row_keys(r)[i + 1]].led_col,
{
    if r == 0 {
        if i == 0 {
            assert(ansi_row_keys(r)[i] == hid::ESCAPE);
            assert(ansi_row_keys(r)[i + 1] == hid::N1);
        } else if i == 1 {
            assert(ansi_row_keys(r)[i] == hid::N1);
            assert(ansi_row_keys(r)[i + 1] == hid::N2);
        } else if i == 2 {
            assert(ansi_row_keys(r)[i] == hid::N2);
            assert(ansi_row_keys(r)[i + 1] == hid::N3);
        } else if i == 3 {
            assert(ansi_row_keys(r)[i] == hid::N3);
            assert(ansi_row_keys(r)[i + 1] == hid::N4);
        } else if i == 4 {
            assert(ansi_row_keys(r)[i] == hid::N4);
            assert(ansi_row_keys(r)[i + 1] == hid::N5);
        } else if i == 5 {
            assert(ansi_row_keys(r)[i] == hid::N5);
            assert(ansi_row_keys(r)[i + 1] == hid::N6);
        } else if i == 6 {
            assert(ansi_row_keys(r)[i] == hid::N6);
            assert(ansi_row_keys(r)[i + 1] == hid::N7);
        } else if i == 7 {
            assert(ansi_row_keys(r)[i] == hid::N7);
            assert(ansi_row_keys(r)[i + 1] == hid::N8);
        } else if i == 8 {
            assert(ansi_row_keys(r)[i] == hid::N8);
            assert(ansi_row_keys(r)[i + 1] == hid::N9);
        } else if i == 9 {
            assert(ansi_row_keys(r)[i] == hid::N9);
            assert(ansi_row_keys(r)[i + 1] == hid::N0);
        } else if i == 10 {
            assert(ansi_row_keys(r)[i] == hid::N0);
            assert(ansi_row_keys(r)[i + 1] == hid::MINUS);
        } else if i == 11 {
            assert(ansi_row_keys(r)[i] == hid::MINUS);
            assert(ansi_row_keys(r)[i + 1] == hid::EQUAL);
        } else if i == 12 {
            assert(ansi_row_keys(r)[i] == hid::EQUAL);
            assert(ansi_row_keys(r)[i + 1] == hid::BACKSPACE);
        } else if i == 13 {
            assert(ansi_row_keys(r)[i] == hid::BACKSPACE);
        }
    } else if r == 1 {
        if i == 0 {
            assert(ansi_row_keys(r)[i] == hid::TAB);
            assert(ansi_row_keys(r)[i + 1] == hid::Q);
        } else if i == 1 {
            assert(ansi_row_keys(r)[i] == hid::Q);
            assert(ansi_row_keys(r)[i + 1] == hid::W);
        } else if i == 2 {
            assert(ansi_row_keys(r)[i] == hid::W);
            assert(ansi_row_keys(r)[i + 1] == hid::E);
        } else if i == 3 {
            assert(ansi_row_keys(r)[i] == hid::E);
            assert(ansi_row_keys(r)[i + 1] == hid::R);
        } else if i == 4 {
            assert(ansi_row_keys(r)[i] == hid::R);
            assert(ansi_row_keys(r)[i + 1] == hid::T);
        } else if i == 5 {
            assert(ansi_row_keys(r)[i] == hid::T);
            assert(ansi_row_keys(r)[i + 1] == hid::Y);
        } else if i == 6 {
            assert(ansi_row_keys(r)[i] == hid::Y);
            assert(ansi_row_keys(r)[i + 1] == hid::U);
        } else if i == 7 {
            assert(ansi_row_keys(r)[i] == hid::U);
            assert(ansi_row_keys(r)[i + 1] == hid::I);
        } else if i == 8 {
            assert(ansi_row_keys(r)[i] == hid::I);
            assert(ansi_row_keys(r)[i + 1] == hid::O);
        } else if i == 9 {
            assert(ansi_row_keys(r)[i] == hid::O);
            assert(ansi_row_keys(r)[i + 1] == hid::P);
        } else if i == 10 {
            assert(ansi_row_keys(r)[i] == hid::P);
            assert(ansi_row_keys(r)[i + 1] == hid::BRACKET_LEFT);
        } else if i == 11 {
            assert(ansi_row_keys(r)[i] == hid::BRACKET_LEFT);
            assert(ansi_row_keys(r)[i + 1] == hid::BRACKET_RIGHT);
        } else if i == 12 {
            assert(ansi_row_keys(r)[i] == hid::BRACKET_RIGHT);
            assert(ansi_row_keys(r)[i + 1] == hid::BACKSLASH);
        } else if i == 13 {
            assert(ansi_row_keys(r)[i] == hid::BACKSLASH);
        }
    } else if r == 2 {
        if i == 0 {
            assert(ansi_row_keys(r)[i] == hid::CAPSLOCK);
            assert(ansi_row_keys(r)[i + 1] == hid::A);
        } else if i == 1 {
            assert(ansi_row_keys(r)[i] == hid::A);
            assert(ansi_row_keys(r)[i + 1] == hid::S);
        } else if i == 2 {
            assert(ansi_row_keys(r)[i] == hid::S);
            assert(ansi_row_keys(r)[i + 1] == hid::D);
        } else if i == 3 {
            assert(ansi_row_keys(r)[i] == hid::D);
            assert(ansi_row_keys(r)[i + 1] == hid::F);
        } else if i == 4 {
            assert(ansi_row_keys(r)[i] == hid::F);
            assert(ansi_row_keys(r)[i + 1] == hid::G);
        } else if i == 5 {
            assert(ansi_row_keys(r)[i] == hid::G);
            assert(ansi_row_keys(r)[i + 1] == hid::H);
        } else if i == 6 {
            assert(ansi_row_keys(r)[i] == hid::H);
            assert(ansi_row_keys(r)[i + 1] == hid::J);
        } else if i == 7 {
            assert(ansi_row_keys(r)[i] == hid::J);
            assert(ansi_row_keys(r)[i + 1] == hid::K);
        } else if i == 8 {
            assert(ansi_row_keys(r)[i] == hid::K);
            assert(ansi_row_keys(r)[i + 1] == hid::L);
        } else if i == 9 {
            assert(ansi_row_keys(r)[i] == hid::L);
            assert(ansi_row_keys(r)[i + 1] == hid::SEMICOLON);
        } else if i == 10 {
            assert(ansi_row_keys(r)[i] == hid::SEMICOLON);
            assert(ansi_row_keys(r)[i + 1] == hid::QUOTE);
        } else if i == 11 {
            assert(ansi_row_keys(r)[i] == hid::QUOTE);
            assert(ansi_row_keys(r)[i + 1] == hid::ENTER);
        } else if i == 12 {
            assert(ansi_row_keys(r)[i] == hid::ENTER);
        }
    } else if r == 3 {
        if i == 0 {
            assert(ansi_row_keys(r)[i] == hid::LEFT_SHIFT);
            assert(ansi_row_keys(r)[i + 1] == hid::Z);
        } else if i == 1 {
            assert(ansi_row_keys(r)[i] == hid::Z);
            assert(ansi_row_keys(r)[i + 1] == hid::X);
        } else if i == 2 {
            assert(ansi_row_keys(r)[i] == hid::X);
            assert(ansi_row_keys(r)[i + 1] == hid::C);
        } else if i == 3 {
            assert(ansi_row_keys(r)[i] == hid::C);
            assert(ansi_row_keys(r)[i + 1] == hid::V);
        } else if i == 4 {
            assert(ansi_row_keys(r)[i] == hid::V);
            assert(ansi_row_keys(r)[i + 1] == hid::B);
        } else if i == 5 {
            assert(ansi_row_keys(r)[i] == hid::B);
            assert(ansi_row_keys(r)[i + 1] == hid::N);
        } else if i == 6 {
            assert(ansi_row_keys(r)[i] == hid::N);
            assert(ansi_row_keys(r)[i + 1] == hid::M);
        } else if i == 7 {
            assert(ansi_row_keys(r)[i] == hid::M);
            assert(ansi_row_keys(r)[i + 1] == hid::COMMA);
        } else if i == 8 {
            assert(ansi_row_keys(r)[i] == hid::COMMA);
            assert(ansi_row_keys(r)[i + 1] == hid::PERIOD);
        } else if i == 9 {
            assert(ansi_row_keys(r)[i] == hid::PERIOD);
            assert(ansi_row_keys(r)[i + 1] == hid::SLASH);
        } else if i == 10 {
            assert(ansi_row_keys(r)[i] == hid::SLASH);
            assert(ansi_row_keys(r)[i + 1] == hid::RIGHT_SHIFT);
        } else if i == 11 {
            assert(ansi_row_keys(r)[i] == hid::RIGHT_SHIFT);
        }
    }
}

/// Every key of the default map is one of the keyboard's four rows.
pub proof fn lemma_default_keys_are_row_keys(h: u16)
    requires
        default_ansi_map().contains_key(h),
    ensures
        exists|r: int, i: int| 0 <= r < 4 && 0 <= i < ansi_row_keys(r).len() && ansi_row_keys(r)[i] == h,
{
    if h == hid::ESCAPE {
        assert(ansi_row_keys(0)[0] == hid::ESCAPE);
    } else if h == hid::N1 {
        assert(ansi_row_keys(0)[1] == hid::N1);
    } else if h == hid::N2 {
        assert(ansi_row_keys(0)[2] == hid::N2);
    } else if h == hid::N3 {
        assert(ansi_row_keys(0)[3] == hid::N3);
    } else if h == hid::N4 {
        assert(ansi_row_keys(0)[4] == hid::N4);
    } else if h == hid::N5 {
        assert(ansi_row_keys(0)[5] == hid::N5);
    } else if h == hid::N6 {
        assert(ansi_row_keys(0)[6] == hid::N6);
    } else if h == hid::N7 {
        assert(ansi_row_keys(0)[7] == hid::N7);
    } else if h == hid::N8 {
        assert(ansi_row_keys(0)[8] == hid::N8);
    } else if h == hid::N9 {
        assert(ansi_row_keys(0)[9] == hid::N9);
    } else if h == hid::N0 {
        assert(ansi_row_keys(0)[10] == hid::N0);
    } else if h == hid::MINUS {
        assert(ansi_row_keys(0)[11] == hid::MINUS);
    } else if h == hid::EQUAL {
        assert(ansi_row_keys(0)[12] == hid::EQUAL);
    } else if h == hid::BACKSPACE {
        assert(ansi_row_keys(0)[13] == hid::BACKSPACE);
    } else if h == hid::TAB {
        assert(ansi_row_keys(1)[0] == hid::TAB);
    } else if h == hid::Q {
        assert(ansi_row_keys(1)[1] == hid::Q);
    } else if h == hid::W {
        assert(ansi_row_keys(1)[2] == hid::W);
    } else if h == hid::E {
        assert(ansi_row_keys(1)[3] == hid::E);
    } else if h == hid::R {
        assert(ansi_row_keys(1)[4] == hid::R);
    } else if h == hid::T {
        assert(ansi_row_keys(1)[5] == hid::T);
    } else if h == hid::Y {
        assert(ansi_row_keys(1)[6] == hid::Y);
    } else if h == hid::U {
        assert(ansi_row_keys(1)[7] == hid::U);
    } else if h == hid::I {
        assert(ansi_row_keys(1)[8] == hid::I);
    } else if h == hid::O {
        assert(ansi_row_keys(1)[9] == hid::O);
    } else if h == hid::P {
        assert(ansi_row_keys(1)[10] == hid::P);
    } else if h == hid::BRACKET_LEFT {
        assert(ansi_row_keys(1)[11] == hid::BRACKET_LEFT);
    } else if h == hid::BRACKET_RIGHT {
        assert(ansi_row_keys(1)[12] == hid::BRACKET_RIGHT);
    } else if h == hid::BACKSLASH {
        assert(ansi_row_keys(1)[13] == hid::BACKSLASH);
    } else if h == hid::CAPSLOCK {
        assert(ansi_row_keys(2)[0] == hid::CAPSLOCK);
    } else if h == hid::A {
        assert(ansi_row_keys(2)[1] == hid::A);
    } else if h == hid::S {
        assert(ansi_row_keys(2)[2] == hid::S);
    } else if h == hid::D {
        assert(ansi_row_keys(2)[3] == hid::D);
    } else if h == hid::F {
        assert(ansi_row_keys(2)[4] == hid::F);
    } else if h == hid::G {
        assert(ansi_row_keys(2)[5] == hid::G);
    } else if h == hid::H {
        assert(ansi_row_keys(2)[6] == hid::H);
    } else if h == hid::J {
        assert(ansi_row_keys(2)[7] == hid::J);
    } else if h == hid::K {
        assert(ansi_row_keys(2)[8] == hid::K);
    } else if h == hid::L {
        assert(ansi_row_keys(2)[9] == hid::L);
    } else if h == hid::SEMICOLON {
        assert(ansi_row_keys(2)[10] == hid::SEMICOLON);
    } else if h == hid::QUOTE {
        assert(ansi_row_keys(2)[11] == hid::QUOTE);
    } else if h == hid::ENTER {
        assert(ansi_row_keys(2)[12] == hid::ENTER);
    } else if h == hid::LEFT_SHIFT {
        assert(ansi_row_keys(3)[0] == hid::LEFT_SHIFT);
    } else if h == hid::Z {
        assert(ansi_row_keys(3)[1] == hid::Z);
    } else if h == hid::X {
        assert(ansi_row_keys(3)[2] == hid::X);
    } else if h == hid::C {
        assert(ansi_row_keys(3)[3] == hid::C);
    } else if h == hid::V {
        assert(ansi_row_keys(3)[4] == hid::V);
    } else if h == hid::B {
        assert(ansi_row_keys(3)[5] == hid::B);
    } else if h == hid::N {
        assert(ansi_row_keys(3)[6] == hid::N);
    } else if h == hid::M {
        assert(ansi_row_keys(3)[7] == hid::M);
    } else if h == hid::COMMA {
        assert(ansi_row_keys(3)[8] == hid::COMMA);
    } else if h == hid::PERIOD {
        assert(ansi_row_keys(3)[9] == hid::PERIOD);
    } else if h == hid::SLASH {
        assert(ansi_row_keys(3)[10] == hid::SLASH);
    } else if h == hid::RIGHT_SHIFT {
        assert(ansi_row_keys(3)[11] == hid::RIGHT_SHIFT);
    }
}

/// The key of the standard 60% ANSI layout on grid row `row`, column
/// `col`, if any.
spec fn default_key_at(row: u8, col: u8) -> Option<u16> {
    if row == 0 && col == 0 {
        Some(hid::ESCAPE)
    } else if row == 0 && col == 1 {
        Some(hid::N1)
    } else if row == 0 && col == 2 {
        Some(hid::N2)
    } else if row == 0 && col == 3 {
        Some(hid::N3)
    } else if row == 0 && col == 4 {
        Some(hid::N4)
    } else if row == 0 && col == 5 {
        Some(hid::N5)
    } else if row == 0 && col == 6 {
        Some(hid::N6)
    } else if row == 0 && col == 7 {
        Some(hid::N7)
    } else if row == 0 && col == 8 {
        Some(hid::N8)
    } else if row == 0 && col == 9 {
        Some(hid::N9)
    } else if row == 0 && col == 10 {
        Some(hid::N0)
    } else if row == 0 && col == 11 {
        Some(hid::MINUS)
    } else if row == 0 && col == 12 {
        Some(hid::EQUAL)
    } else if row == 0 && col == 13 {
        Some(hid::BACKSPACE)
    } else if row == 1 && col == 0 {
        Some(hid::TAB)
    } else if row == 1 && col == 1 {
        Some(hid::Q)
    } else if row == 1 && col == 2 {
        Some(hid::W)
    } else if row == 1 && col == 3 {
        Some(hid::E)
    } else if row == 1 && col == 4 {
        Some(hid::R)
    } else if row == 1 && col == 5 {
        Some(hid::T)
    } else if row == 1 && col == 6 {
        Some(hid::Y)
    } else if row == 1 && col == 7 {
        Some(hid::U)
    } else if row == 1 && col == 8 {
        Some(hid::I)
    } else if row == 1 && col == 9 {
        Some(hid::O)
    } else if row == 1 && col == 10 {
        Some(hid::P)
    } else if row == 1 && col == 11 {
        Some(hid::BRACKET_LEFT)
    } else if row == 1 && col == 12 {
        Some(hid::BRACKET_RIGHT)
    } else if row == 1 && col == 13 {
        Some(hid::BACKSLASH)
    } else if row == 2 && col == 0 {
        Some(hid::CAPSLOCK)
    } else if row == 2 && col == 1 {
        Some(hid::A)
    } else if row == 2 && col == 2 {
        Some(hid::S)
    } else if row == 2 && col == 3 {
        Some(hid::D)
    } else if row == 2 && col == 4 {
        Some(hid::F)
    } else if row == 2 && col == 5 {
        Some(hid::G)
    } else if row == 2 && col == 6 {
        Some(hid::H)
    } else if row == 2 && col == 7 {
        Some(hid::J)
    } else if row == 2 && col == 8 {
        Some(hid::K)
    } else if row == 2 && col == 9 {
        Some(hid::L)
    } else if row == 2 && col == 10 {
        Some(hid::SEMICOLON)
    } else if row == 2 && col == 11 {
        Some(hid::QUOTE)
    } else if row == 2 && col == 12 {
        Some(hid::ENTER)
    } else if row == 3 && col == 0 {
        Some(hid::LEFT_SHIFT)
    } else if row == 3 && col == 1 {
        Some(hid::Z)
    } else if row == 3 && col == 2 {
        Some(hid::X)
    } else if row == 3 && col == 3 {
        Some(hid::C)
    } else if row == 3 && col == 4 {
        Some(hid::V)
    } else if row == 3 && col == 5 {
        Some(hid::B)
    } else if row == 3 && col == 6 {
        Some(hid::N)
    } else if row == 3 && col == 7 {
        Some(hid::M)
    } else if row == 3 && col == 8 {
        Some(hid::COMMA)
    } else if row == 3 && col == 9 {
        Some(hid::PERIOD)
    } else if row == 3 && col == 10 {
        Some(hid::SLASH)
    } else if row == 3 && col == 11 {
        Some(hid::RIGHT_SHIFT)
    } else {
        None
    }
}

proof fn lemma_default_cells_distinct()
    ensures
        forall|h: u16| #[trigger] default_ansi_map().contains_key(h) ==> default_key_at(
            default_ansi_map()[h].midi_row,
            default_ansi_map()[h].midi_col,
        ) == Some(h),
{
}

/// In the standard 60% ANSI map two different keys never share a `.wtn`
/// cell: whatever the row offsets, at 0 or 180 degrees a key that gets an
/// index gets one no other key of the map gets.
pub proof fn lemma_default_map_distinct_indices(h1: u16, h2: u16, rotation_deg: u16, compact: Seq<u8>)
    requires
        default_ansi_map().contains_key(h1),
        default_ansi_map().contains_key(h2),
        h1 != h2,
        rotation_deg == 0 || rotation_deg == 180,
        compact.len() == 4,
        wtn_index_spec(default_ansi_map()[h1], rotation_deg, compact) is Some,
    ensures
        wtn_index_spec(default_ansi_map()[h2], rotation_deg, compact) != wtn_index_spec(
            default_ansi_map()[h1],
            rotation_deg,
            compact,
        ),
{
    let m = default_ansi_map();
    lemma_default_cells_distinct();
    let a = m[h1];
    let b = m[h2];
    lemma_wtn_index_law(a, b, rotation_deg, compact);
    assert(default_key_at(a.midi_row, a.midi_col) == Some(h1));
    assert(default_key_at(b.midi_row, b.midi_col) == Some(h2));
}

/// A `.wtn` cell index is row-major: the key's grid row times 14 plus its
/// packed column (column less the row's offset, 0..=13). So the index is
/// below 56, its row is `index / 14`, and two keys get the same index only
/// when they land on the same grid row and column.
pub proof fn lemma_wtn_index_law(a: KeyLoc, b: KeyLoc, rotation_deg: u16, compact: Seq<u8>)
    requires
        compact.len() == 4,
        wtn_index_spec(a, rotation_deg, compact) is Some,
    ensures
        ({
            let la = rotate_spec(a, rotation_deg)->Ok_0;
            let i = wtn_index_spec(a, rotation_deg, compact)->0;
            &&& rotate_spec(a, rotation_deg) is Ok
            &&& i < 56
            &&& i / 14 == la.midi_row
            &&& i % 14 == la.midi_col - compact[la.midi_row as int]
        }),
        wtn_index_spec(b, rotation_deg, compact) == wtn_index_spec(a, rotation_deg, compact) ==> ({
            let la = rotate_spec(a, rotation_deg)->Ok_0;
            let lb = rotate_spec(b, rotation_deg)->Ok_0;
            &&& rotate_spec(b, rotation_deg) is Ok
            &&& la.midi_row == lb.midi_row
            &&& la.midi_col == lb.midi_col
        }),
{
    let la = rotate_spec(a, rotation_deg)->Ok_0;
    let ca = la.midi_col - compact[la.midi_row as int];
    assert(0 <= ca < 14);
    assert((la.midi_row * 14 + ca) / 14 == la.midi_row && (la.midi_row * 14 + ca) % 14 == ca) by (nonlinear_arith)
        requires
            0 <= ca < 14,
            0 <= la.midi_row < 4,
    ;
    if wtn_index_spec(b, rotation_deg, compact) == wtn_index_spec(a, rotation_deg, compact) {
        let lb = rotate_spec(b, rotation_deg)->Ok_0;
        let cb = lb.midi_col - compact[lb.midi_row as int];
        assert(0 <= cb < 14);
        assert((lb.midi_row * 14 + cb) / 14 == lb.midi_row && (lb.midi_row * 14 + cb) % 14 == cb) by (nonlinear_arith)
            requires
                0 <= cb < 14,
                0 <= lb.midi_row < 4,
        ;
        assert(la.midi_row * 14 + ca == lb.midi_row * 14 + cb);
    }
}

} // verus!
