//! What the HUD server works out from a snapshot before sending it: the
//! sounding pitch classes, the steps between them, and the chord names.
use vstd::prelude::*;

use crate::hud::chordnam::{chords_found, cps_view, find_chord_names, norm_pc, ChordPatterns, ChordResult};
use crate::hud::xenharm::{insert_unique, strictly_increasing};

verus! {

/// `x` is the pitch class (modulo `edo`) of a sounding pitch.
pub open spec fn sounding_class(pressed: Seq<Vec<i32>>, edo: i32, x: i32) -> bool {
    exists|a: int, b: int|
        0 <= a < pressed.len() && 0 <= b < pressed[a]@.len() && (pressed[a]@[b] as int) % (edo as int) == x
}

/// The pitch classes of the sounding pitches, in increasing order, each
/// once.
pub fn pressed_pitch_classes(pressed: &Vec<Vec<i32>>, edo: i32) -> (r: Vec<i32>)
    requires
        edo > 0,
    ensures
        strictly_increasing(r@),
        forall|x: i32| r@.contains(x) <==> sounding_class(pressed@, edo, x),
        forall|i: int| 0 <= i < r@.len() ==> 0 <= #[trigger] r@[i] < edo,
{
    let mut out: Vec<i32> = Vec::new();
    let mut a: usize = 0;
    while a < pressed.len()
        invariant
            edo > 0,
            a <= pressed@.len(),
            strictly_increasing(out@),
            forall|x: i32| out@.contains(x) ==> 0 <= x < edo,
            forall|x: i32| out@.contains(x) <==> (exists|i: int, b: int|
                0 <= i < a && 0 <= b < pressed@[i]@.len() && (pressed@[i]@[b] as int) % (edo as int) == x),
        decreases pressed@.len() - a,
    {
        let row = &pressed[a];
        let mut b: usize = 0;
        while b < row.len()
            invariant
                edo > 0,
                a < pressed@.len(),
                row == pressed@[a as int],
                b <= row@.len(),
                strictly_increasing(out@),
                forall|x: i32| out@.contains(x) ==> 0 <= x < edo,
                forall|x: i32| out@.contains(x) <==> ((exists|i: int, k: int|
                    0 <= i < a && 0 <= k < pressed@[i]@.len() && (pressed@[i]@[k] as int) % (edo as int) == x)
                    || (exists|k: int| 0 <= k < b && (row@[k] as int) % (edo as int) == x)),
            decreases row@.len() - b,
        {
            let pc = norm_pc(edo, row[b]);
            insert_unique(&mut out, pc);
            b = b + 1;
        }
        assert forall|x: i32| out@.contains(x) <==> (exists|i: int, k: int|
            0 <= i < a + 1 && 0 <= k < pressed@[i]@.len() && (pressed@[i]@[k] as int) % (edo as int) == x) by {
            if exists|k: int| 0 <= k < b && (row@[k] as int) % (edo as int) == x {
                let k = choose|k: int| 0 <= k < b && (row@[k] as int) % (edo as int) == x;
                assert(0 <= a < a + 1 && 0 <= k < pressed@[a as int]@.len() && (pressed@[a as int]@[k] as int) % (edo as int) == x);
            }
            if exists|i: int, k: int| 0 <= i < a + 1 && 0 <= k < pressed@[i]@.len() && (pressed@[i]@[k] as int) % (edo as int) == x {
                let (i, k) = choose|i: int, k: int| 0 <= i < a + 1 && 0 <= k < pressed@[i]@.len() && (pressed@[i]@[k] as int) % (edo as int) == x;
                if i == a {
                    assert(0 <= k < b && (row@[k] as int) % (edo as int) == x);
                }
            }
        }
        a = a + 1;
    }
    assert forall|i: int| 0 <= i < out@.len() implies 0 <= #[trigger] out@[i] < edo by {
        assert(out@.contains(out@[i]));
    }
    out
}

/// `x` is a positive step (modulo `edo`) from one of the classes to
/// another.
pub open spec fn step_between(pcs: Seq<i32>, edo: i32, x: i32) -> bool {
    x > 0 && exists|i: int, j: int|
        0 <= i < pcs.len() && 0 <= j < pcs.len() && i != j && ((pcs[j] - pcs[i]) as int) % (edo as int) == x
}

/// The positive steps from each pitch class to each other one, modulo
/// `edo`, in increasing order, each once.
pub fn interval_steps(pcs: &Vec<i32>, edo: i32) -> (r: Vec<i32>)
    requires
        edo > 0,
        forall|i: int| 0 <= i < pcs@.len() ==> 0 <= #[trigger] pcs@[i] < edo,
    ensures
        strictly_increasing(r@),
        forall|x: i32| r@.contains(x) <==> step_between(pcs@, edo, x),
{
    let mut out: Vec<i32> = Vec::new();
    let mut i: usize = 0;
    while i < pcs.len()
        invariant
            edo > 0,
            i <= pcs@.len(),
            forall|t: int| 0 <= t < pcs@.len() ==> 0 <= #[trigger] pcs@[t] < edo,
            strictly_increasing(out@),
            forall|x: i32| out@.contains(x) <==> (x > 0 && exists|a: int, b: int|
                0 <= a < i && 0 <= b < pcs@.len() && a != b && ((pcs@[b] - pcs@[a]) as int) % (edo as int) == x),
        decreases pcs@.len() - i,
    {
        let mut j: usize = 0;
        while j < pcs.len()
            invariant
                edo > 0,
                i < pcs@.len(),
                j <= pcs@.len(),
                forall|t: int| 0 <= t < pcs@.len() ==> 0 <= #[trigger] pcs@[t] < edo,
                strictly_increasing(out@),
                forall|x: i32| out@.contains(x) <==> (x > 0 && ((exists|a: int, b: int|
                    0 <= a < i && 0 <= b < pcs@.len() && a != b && ((pcs@[b] - pcs@[a]) as int) % (edo as int) == x)
                    || (exists|b: int| 0 <= b < j && i != b && ((pcs@[b] - pcs@[i as int]) as int) % (edo as int) == x))),
            decreases pcs@.len() - j,
        {
            if i != j {
                let d = norm_pc(edo, pcs[j] - pcs[i]);
                if d > 0 {
                    insert_unique(&mut out, d);
                }
            }
            j = j + 1;
        }
        assert forall|x: i32| out@.contains(x) <==> (x > 0 && exists|a: int, b: int|
            0 <= a < i + 1 && 0 <= b < pcs@.len() && a != b && ((pcs@[b] - pcs@[a]) as int) % (edo as int) == x) by {
            if x > 0 && exists|b: int| 0 <= b < j && i != b && ((pcs@[b] - pcs@[i as int]) as int) % (edo as int) == x {
                let b = choose|b: int| 0 <= b < j && i != b && ((pcs@[b] - pcs@[i as int]) as int) % (edo as int) == x;
                assert(0 <= i < i + 1 && 0 <= b < pcs@.len() && i != b && ((pcs@[b] - pcs@[i as int]) as int) % (edo as int) == x);
            }
            if x > 0 && exists|a: int, b: int| 0 <= a < i + 1 && 0 <= b < pcs@.len() && a != b && ((pcs@[b] - pcs@[a]) as int) % (edo as int) == x {
                let (a, b) = choose|a: int, b: int| 0 <= a < i + 1 && 0 <= b < pcs@.len() && a != b && ((pcs@[b] - pcs@[a]) as int) % (edo as int) == x;
                if a == i {
                    assert(0 <= b < j && i != b && ((pcs@[b] - pcs@[i as int]) as int) % (edo as int) == x);
                }
            }
        }
        i = i + 1;
    }
    out
}

/// The chord names of what is sounding: none without a division or with
/// fewer than two pitch classes; otherwise one result per pitch class as
/// root, from the given tables.
pub fn chord_for_pressed(
    exact: &Vec<ChordPatterns>,
    embed: &Vec<ChordPatterns>,
    approx: &Vec<ChordPatterns>,
    edo: i32,
    pressed: &Vec<Vec<i32>>,
) -> (r: Vec<ChordResult>)
    ensures
        edo <= 0 ==> r@.len() == 0,
        edo > 0 ==> exists|pcs: Seq<i32>| {
            &&& strictly_increasing(pcs)
            &&& forall|x: i32| pcs.contains(x) <==> sounding_class(pressed@, edo, x)
            &&& if pcs.len() < 2 {
                r@.len() == 0
            } else {
                chords_found(cps_view(exact@), cps_view(embed@), cps_view(approx@), edo, pcs, r@)
            }
        },
{
    if edo <= 0 {
        return Vec::new();
    }
    let pcs = pressed_pitch_classes(pressed, edo);
    if pcs.len() < 2 {
        return Vec::new();
    }
    find_chord_names(exact, embed, approx, edo, &pcs)
}

} // verus!
