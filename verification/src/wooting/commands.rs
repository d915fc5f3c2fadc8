//! The computing halves of the Wooting commands: the LEDs that show a
//! board's cells, and the `list` lines of the connected keyboards.
use vstd::prelude::*;

use crate::num::{dec_digits, hex_fixed, push_dec, push_hex_fixed};
use crate::text::{push_all, push_str, string_of};
use crate::wooting::analog::DeviceInfo;
use crate::wooting::control_bar::RgbCmd;
use crate::wooting::hidmap::{compact_offset, compute_compact_col_offsets, hid_listing, HidMap, KeyLoc};
use crate::wooting::serve::{cell_led_cmds, push_cell_leds};
use crate::wooting::wtn::WtnCell;

verus! {

/// The packing offsets of the four grid rows.
pub open spec fn compact_seq(m: Map<u16, KeyLoc>, rotation_deg: u16) -> Seq<u8> {
    seq![
        compact_offset(m, rotation_deg, 0),
        compact_offset(m, rotation_deg, 1),
        compact_offset(m, rotation_deg, 2),
        compact_offset(m, rotation_deg, 3),
    ]
}

/// The LED colours that show `cells` on keyboard `dev_idx` (the LED grid
/// itself is never rotated; rotation only changes which cell a key shows).
pub fn paint_board(dev_idx: u8, cells: &[WtnCell], map: &HidMap, rotation_deg: u16) -> (r: Vec<RgbCmd>)
    ensures
        r@ == cell_led_cmds(hid_listing(map@), cells@, rotation_deg, compact_seq(map@, rotation_deg), dev_idx),
{
    let compact = compute_compact_col_offsets(map, rotation_deg);
    assert(compact@ =~= compact_seq(map@, rotation_deg));
    let locs = map.all_locs();
    let mut out: Vec<RgbCmd> = Vec::new();
    push_cell_leds(&mut out, &locs, cells, rotation_deg, &compact, dev_idx);
    assert(out@ =~= cell_led_cmds(hid_listing(map@), cells@, rotation_deg, compact_seq(map@, rotation_deg), dev_idx));
    out
}

/// The `list` entry of keyboard number `idx`.
pub open spec fn wooting_entry(idx: nat, d: DeviceInfo) -> Seq<char> {
    "["@ + dec_digits(idx) + "] "@ + d.manufacturer@ + " "@ + d.name@ + "\n  id: wooting:"@ + hex_fixed(
        d.id as nat,
        16,
    ) + "\n  usb: "@ + hex_fixed(d.vendor_id as nat, 4) + ":"@ + hex_fixed(d.product_id as nat, 4)
        + "\n  kind: wooting-analog\n"@
}

fn wooting_entry_exec(idx: usize, d: &DeviceInfo) -> (s: String)
    ensures
        s@ == wooting_entry(idx as nat, *d),
{
    let mut v: Vec<char> = Vec::new();
    push_str(&mut v, "[");
    push_dec(&mut v, idx as u64);
    push_str(&mut v, "] ");
    push_str(&mut v, d.manufacturer.as_str());
    push_str(&mut v, " ");
    push_str(&mut v, d.name.as_str());
    push_str(&mut v, "\n  id: wooting:");
    push_hex_fixed(&mut v, d.id, 16);
    push_str(&mut v, "\n  usb: ");
    push_hex_fixed(&mut v, d.vendor_id as u64, 4);
    push_str(&mut v, ":");
    push_hex_fixed(&mut v, d.product_id as u64, 4);
    push_str(&mut v, "\n  kind: wooting-analog\n");
    string_of(&v)
}

/// One `list` entry per keyboard, numbered on from `start_index`.
pub fn list_wootings(start_index: usize, devs: &[DeviceInfo]) -> (r: Vec<String>)
    requires
        start_index + devs.len() <= usize::MAX,
    ensures
        r.len() == devs.len(),
        forall|i: int| 0 <= i < devs.len() ==> (#[trigger] r[i])@ == wooting_entry((start_index + i) as nat, devs[i]),
{
    let mut out: Vec<String> = Vec::new();
    let mut i: usize = 0;
    while i < devs.len()
        invariant
            i <= devs.len(),
            start_index + devs.len() <= usize::MAX,
            out.len() == i,
            forall|k: int| 0 <= k < i ==> (#[trigger] out[k])@ == wooting_entry((start_index + k) as nat, devs[k]),
        decreases devs.len() - i,
    {
        let s = wooting_entry_exec(start_index + i, &devs[i]);
        out.push(s);
        i = i + 1;
    }
    out
}

} // verus!
