//! Absolute pitches for the live HUD: per board, the pitch of every `.wtn`
//! cell, and the pitches of the keys being held.
use std::collections::BTreeMap;

use vstd::prelude::*;

use crate::wooting::wtn::{Wtn, WtnCell};

verus! {

broadcast use {vstd::std_specs::hash::group_hash_axioms, vstd::std_specs::btree::group_btree_axioms};

/// `x` fits an `i32`.
pub open spec fn fits_i32(x: int) -> bool {
    i32::MIN <= x <= i32::MAX
}

/// `a * edo + b + off` and each partial result of it fit an `i32`.
pub open spec fn pitch_fits(a: int, edo: int, b: int, off: int) -> bool {
    fits_i32(a * edo) && fits_i32(a * edo + b) && fits_i32(a * edo + b + off)
}

/// A cell's absolute pitch: `(chan - 1) * edo + key + pitch_offset`, none
/// for a cell whose channel is 0 (not set).
pub open spec fn cell_pitch(c: WtnCell, edo: i32, off: i32) -> Option<i32> {
    if c.chan == 0 {
        None
    } else {
        Some(((c.chan - 1) * edo + c.key + off) as i32)
    }
}

/// The EDO a layout uses: its own, else 12.
pub open spec fn layout_edo(w: Wtn) -> i32 {
    match w.edo {
        Some(e) => e,
        None => 12,
    }
}

/// Every set cell's pitch fits an `i32`.
pub open spec fn layout_pitches_fit(w: Wtn) -> bool {
    forall|b: u8, i: int|
        #![trigger w@.boards[b][i]]
        w@.boards.contains_key(b) && 0 <= i < w@.boards[b].len() && w@.boards[b][i].chan != 0
            ==> pitch_fits(
            w@.boards[b][i].chan - 1,
            layout_edo(w) as int,
            w@.boards[b][i].key as int,
            w.pitch_offset as int,
        )
}

fn row_pitches(cells: &Vec<WtnCell>, edo: i32, off: i32) -> (r: Vec<Option<i32>>)
    requires
        forall|i: int|
            0 <= i < cells.len() && #[trigger] cells[i].chan != 0 ==> pitch_fits(
                cells[i].chan - 1,
                edo as int,
                cells[i].key as int,
                off as int,
            ),
    ensures
        r@ == cells@.map_values(|c: WtnCell| cell_pitch(c, edo, off)),
{
    let mut r: Vec<Option<i32>> = Vec::new();
    let mut i: usize = 0;
    while i < cells.len()
        invariant
            i <= cells.len(),
            forall|k: int|
                0 <= k < cells.len() && #[trigger] cells[k].chan != 0 ==> pitch_fits(
                    cells[k].chan - 1,
                    edo as int,
                    cells[k].key as int,
                    off as int,
                ),
            r@ == cells@.take(i as int).map_values(|c: WtnCell| cell_pitch(c, edo, off)),
        decreases cells.len() - i,
    {
        let c = cells[i];
        if c.chan == 0 {
            r.push(None);
        } else {
            let a = (c.chan as i32 - 1) * edo;
            let v = a + c.key as i32 + off;
            r.push(Some(v));
        }
        i = i + 1;
        assert(r@ =~= cells@.take(i as int).map_values(|c: WtnCell| cell_pitch(c, edo, off)));
    }
    assert(cells@.take(cells.len() as int) =~= cells@);
    r
}

/// Per board of the layout, the pitch of each of its cells (none for unset
/// cells), keyed by board number.
pub fn build_layout_pitches(wtn: &Wtn) -> (r: BTreeMap<u8, Vec<Option<i32>>>)
    requires
        layout_pitches_fit(*wtn),
    ensures
        r@.dom() == wtn@.boards.dom(),
        forall|b: u8|
            #[trigger] r@.contains_key(b) ==> r@[b]@ == wtn@.boards[b].map_values(
                |c: WtnCell| cell_pitch(c, layout_edo(*wtn), wtn.pitch_offset),
            ),
{
    let edo = match wtn.edo {
        Some(e) => e,
        None => 12,
    };
    let mut out: BTreeMap<u8, Vec<Option<i32>>> = BTreeMap::new();
    let mut b: u16 = 0;
    while b < 256
        invariant
            b <= 256,
            edo == layout_edo(*wtn),
            layout_pitches_fit(*wtn),
            forall|k: u8| #[trigger] out@.contains_key(k) <==> (k < b && wtn@.boards.contains_key(k)),
            forall|k: u8|
                #[trigger] out@.contains_key(k) ==> out@[k]@ == wtn@.boards[k].map_values(
                    |c: WtnCell| cell_pitch(c, edo, wtn.pitch_offset),
                ),
        decreases 256 - b,
    {
        let bu = b as u8;
        match wtn.boards.get(&bu) {
            Some(cells) => {
                assert(cells@ == wtn@.boards[bu]);
                let row = row_pitches(cells, edo, wtn.pitch_offset);
                out.insert(bu, row);
            },
            None => {},
        }
        b = b + 1;
    }
    assert(out@.dom() =~= wtn@.boards.dom());
    out
}

/// The pitch of a held key: `out_ch * edo + note + pitch_offset`.
pub open spec fn held_pitch(e: (u8, u8, u8), edo: i32, off: i32) -> i32 {
    (e.1 * edo + e.2 + off) as i32
}

/// The pitches of the held keys on board `b`, in the order they are held.
pub open spec fn held_on_board(held: Seq<(u8, u8, u8)>, b: u8, edo: i32, off: i32) -> Seq<i32>
    decreases held.len(),
{
    if held.len() == 0 {
        Seq::empty()
    } else {
        let rest = held_on_board(held.drop_last(), b, edo, off);
        if held.last().0 == b {
            rest.push(held_pitch(held.last(), edo, off))
        } else {
            rest
        }
    }
}

proof fn lemma_held_on_board_empty(held: Seq<(u8, u8, u8)>, b: u8, edo: i32, off: i32)
    requires
        forall|k: int| 0 <= k < held.len() ==> (#[trigger] held[k]).0 != b,
    ensures
        held_on_board(held, b, edo, off) == Seq::<i32>::empty(),
    decreases held.len(),
{
    if held.len() > 0 {
        lemma_held_on_board_empty(held.drop_last(), b, edo, off);
    }
}

/// Bucket the held keys `(wtn_board, out_ch, note)` by board: every board in
/// `boards_present` has an entry (possibly empty), and each board holding a
/// key lists its pitches in order.
pub fn pressed_from_held(held: &[(u8, u8, u8)], edo: i32, pitch_offset: i32, boards_present: &[u8]) -> (r:
    BTreeMap<u8, Vec<i32>>)
    requires
        forall|i: int|
            0 <= i < held.len() ==> pitch_fits(
                (#[trigger] held[i]).1 as int,
                edo as int,
                held[i].2 as int,
                pitch_offset as int,
            ),
    ensures
        forall|b: u8|
            #[trigger] r@.contains_key(b) <==> (boards_present@.contains(b) || exists|i: int|
                0 <= i < held.len() && held[i].0 == b),
        forall|b: u8|
            #[trigger] r@.contains_key(b) ==> r@[b]@ == held_on_board(held@, b, edo, pitch_offset),
{
    let mut pressed: BTreeMap<u8, Vec<i32>> = BTreeMap::new();
    let mut j: usize = 0;
    while j < boards_present.len()
        invariant
            j <= boards_present.len(),
            forall|b: u8|
                #[trigger] pressed@.contains_key(b) <==> exists|k: int|
                    0 <= k < j && boards_present[k] == b,
            forall|b: u8| #[trigger] pressed@.contains_key(b) ==> pressed@[b]@ == Seq::<i32>::empty(),
        decreases boards_present.len() - j,
    {
        pressed.insert(boards_present[j], Vec::new());
        assert forall|b: u8| #[trigger] pressed@.contains_key(b) <==> exists|k: int|
            0 <= k < j + 1 && boards_present[k] == b by {
            if b == boards_present[j as int] {
                assert(boards_present[j as int] == b);
            }
        }
        j = j + 1;
    }
    assert forall|b: u8| #[trigger] pressed@.contains_key(b) <==> boards_present@.contains(b) by {
        if boards_present@.contains(b) {
            let k = choose|k: int| 0 <= k < boards_present@.len() && boards_present@[k] == b;
            assert(boards_present[k] == b);
        }
    }
    let mut i: usize = 0;
    while i < held.len()
        invariant
            i <= held.len(),
            forall|k: int|
                0 <= k < held.len() ==> pitch_fits(
                    (#[trigger] held[k]).1 as int,
                    edo as int,
                    held[k].2 as int,
                    pitch_offset as int,
                ),
            forall|b: u8|
                #[trigger] pressed@.contains_key(b) <==> (boards_present@.contains(b) || exists|k: int|
                    0 <= k < i && held[k].0 == b),
            forall|b: u8|
                #[trigger] pressed@.contains_key(b) ==> pressed@[b]@ == held_on_board(
                    held@.take(i as int),
                    b,
                    edo,
                    pitch_offset,
                ),
        decreases held.len() - i,
    {
        let (wb, out_ch, note) = held[i];
        let abs = (out_ch as i32) * edo + note as i32 + pitch_offset;
        let ghost before = pressed@;
        let mut v = match pressed.remove(&wb) {
            Some(v) => v,
            None => Vec::new(),
        };
        v.push(abs);
        pressed.insert(wb, v);
        assert(held@.take(i + 1).drop_last() =~= held@.take(i as int));
        assert forall|b: u8| #[trigger] pressed@.contains_key(b) implies pressed@[b]@ == held_on_board(
            held@.take(i + 1),
            b,
            edo,
            pitch_offset,
        ) by {
            let s1 = held@.take(i + 1);
            assert(s1.last() == held[i as int]);
            if b != wb && pressed@.contains_key(b) {
                assert(before.contains_key(b));
            }
            if b == wb && !before.contains_key(b) {
                assert forall|k: int| 0 <= k < held@.take(i as int).len() implies held@.take(i as int)[k].0 != b by {
                    assert(held@.take(i as int)[k] == held[k]);
                }
                lemma_held_on_board_empty(held@.take(i as int), b, edo, pitch_offset);
            }
        }
        assert forall|b: u8| #[trigger] pressed@.contains_key(b) <==> (boards_present@.contains(b)
            || exists|k: int| 0 <= k < i + 1 && held[k].0 == b) by {
            if b == wb {
                assert(held[i as int].0 == b);
            }
        }
        i = i + 1;
    }
    assert(held@.take(held.len() as int) =~= held@);
    pressed
}

} // verus!
