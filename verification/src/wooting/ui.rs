//! The integer part of the Wooting serve view's Controls panel.
use vstd::prelude::*;

use crate::num::{dec_digits, push_dec};
use crate::text::{join_sep, push_joined, push_str, string_of};

verus! {

/// A connected board as the view lists it: its layout board and whether
/// its octave hold is on.
#[derive(Debug, Clone)]
pub struct DeviceLine {
    pub wtn_board: u8,
    pub octave_hold: bool,
}

/// A held key as the view lists it.
#[derive(Debug, Clone)]
pub struct HeldKeyDisplay {
    pub wtn_board: u8,
    pub channel: u8,
    pub note: u8,
    /// The latest poly-pressure value sent (0 before any).
    pub pressure: u8,
    /// Milliseconds since the note became held.
    pub age_ms: u32,
}

/// `  board<n>`, followed by ` [hold]` when its octave hold is on.
pub open spec fn device_line_text(d: DeviceLine) -> Seq<char> {
    "  board"@ + dec_digits(d.wtn_board as nat) + if d.octave_hold { " [hold]"@ } else { Seq::empty() }
}

/// The device lines of the Controls panel: the device count, then each
/// device in the given order, joined by line feeds.
pub open spec fn devices_spec(count: u8, holds: Seq<DeviceLine>) -> Seq<char> {
    join_sep(seq!["Devices: "@ + dec_digits(count as nat)] + holds.map_values(|d: DeviceLine| device_line_text(d)), "\n"@)
}

/// The Controls panel's device lines.
pub fn devices_text(count: u8, holds: &[DeviceLine]) -> (r: String)
    ensures
        r@ == devices_spec(count, holds@),
{
    let mut out: Vec<char> = Vec::new();
    let mut first: Vec<char> = Vec::new();
    push_str(&mut first, "Devices: ");
    push_dec(&mut first, count as u64);
    push_joined(&mut out, &first, "\n", true, Ghost(Seq::empty()));
    let ghost mut ps: Seq<Seq<char>> = seq![first@];
    let ghost all = seq![first@] + holds@.map_values(|d: DeviceLine| device_line_text(d));
    let mut i: usize = 0;
    while i < holds.len()
        invariant
            i <= holds@.len(),
            all == seq![first@] + holds@.map_values(|d: DeviceLine| device_line_text(d)),
            ps == all.take(i + 1),
            out@ == join_sep(ps, "\n"@),
        decreases holds@.len() - i,
    {
        let d = &holds[i];
        let mut line: Vec<char> = Vec::new();
        push_str(&mut line, "  board");
        push_dec(&mut line, d.wtn_board as u64);
        if d.octave_hold {
            push_str(&mut line, " [hold]");
        }
        assert(line@ =~= device_line_text(holds@[i as int]));
        push_joined(&mut out, &line, "\n", false, Ghost(ps));
        proof {
            ps = ps.push(line@);
            assert(ps =~= all.take(i + 2));
        }
        i = i + 1;
    }
    assert(ps =~= all);
    string_of(&out)
}

} // verus!
