//! Reading the USB identity out of a Windows MIDI device interface path,
//! such as `\\?\usb#vid_2985&pid_0007#363534493233#{guid}\global`.
use vstd::prelude::*;

use crate::num::{parse_hex, parse_hex_bounded};
use crate::text::{
    ascii_lower, ascii_upper, chars_of, contains, find, lower_chars, slice_of, split_once,
    split_once_chars, string_of, upper_chars,
};
use crate::usb::{first_occurrence, lemma_first_occurrence_at};

verus! {

/// Which side of a MIDI port a driver query is about.
#[derive(Debug, Clone, Copy, PartialEq, Eq)]
pub enum MidiDirection {
    Input,
    Output,
}

/// The serial field of the text after `usb#`: what lies between the first
/// and the second `#` (or the end).
pub open spec fn serial_field(rest: Seq<char>) -> Seq<char> {
    match split_once(rest, '#') {
        Some((serial, _)) => serial,
        None => rest,
    }
}

/// The four characters after the first `tag` in the lower-cased `vidpid`,
/// read as hexadecimal; `None` when the tag is missing or too close to the
/// end.
pub open spec fn id_after(vidpid: Seq<char>, tag: Seq<char>) -> Option<int> {
    let at = first_occurrence(ascii_lower(vidpid), tag) + 4;
    if !contains(ascii_lower(vidpid), tag) || vidpid.len() < at + 4 {
        None
    } else {
        parse_hex_bounded(vidpid.subrange(at, at + 4), 0xFFFF)
    }
}

/// The ids and serial found in the part of a path after `usb#`: the
/// `vid_`/`pid_` field runs to the first `#`, the serial to the next one.
#[verifier::opaque]
pub open spec fn after_usb_spec(after: Seq<char>) -> Option<(int, int, Seq<char>)> {
    match split_once(after, '#') {
        None => None,
        Some((vidpid, rest)) => {
            let serial = serial_field(rest);
            if serial.len() == 0 {
                None
            } else {
                match (id_after(vidpid, "vid_"@), id_after(vidpid, "pid_"@)) {
                    (Some(v), Some(p)) => Some((v, p, ascii_upper(serial))),
                    _ => None,
                }
            }
        },
    }
}

/// What `parse_usb_serial` gives for a path: `(vendor id, product id,
/// upper-cased serial)`, or `None` for a path that is not a USB interface
/// path with a serial and both ids.
pub open spec fn usb_serial_spec(path: Seq<char>) -> Option<(int, int, Seq<char>)> {
    let lower = ascii_lower(path);
    if !contains(lower, "usb#"@) {
        None
    } else {
        after_usb_spec(path.skip(first_occurrence(lower, "usb#"@) + 4))
    }
}

/// The first occurrence of `p` in `s`.
fn first_at(s: &[char], p: &[char]) -> (r: Option<usize>)
    ensures
        match r {
            Some(i) => contains(s@, p@) && i == first_occurrence(s@, p@) && i + p@.len() <= s@.len(),
            None => !contains(s@, p@),
        },
{
    match find(s, p) {
        Some(i) => {
            proof {
                lemma_first_occurrence_at(s@, p@, i as int);
            }
            Some(i)
        },
        None => None,
    }
}

/// The id after `tag` in `vidpid`, `tag` being found in `lv`, the lower
/// case of `vidpid`.
fn parse_id_after(vidpid: &[char], lv: &[char], tag: &[char]) -> (r: Option<u16>)
    requires
        lv@ == ascii_lower(vidpid@),
        tag@.len() == 4,
    ensures
        match r {
            Some(v) => id_after(vidpid@, tag@) == Some(v as int),
            None => id_after(vidpid@, tag@) is None,
        },
{
    let at = match first_at(lv, tag) {
        Some(i) => {
            let n = lv.len();
            assert(i + 4 <= n);
            i + 4
        },
        None => {
            return None;
        },
    };
    if vidpid.len() < 4 || vidpid.len() - 4 < at {
        return None;
    }
    let digits = slice_of(vidpid, at, at + 4);
    match parse_hex(&digits, 0xFFFF) {
        Some(v) => Some(v as u16),
        None => None,
    }
}

fn parse_after_usb(after: &[char]) -> (r: Option<(u16, u16, String)>)
    ensures
        match r {
            Some((v, p, s)) => after_usb_spec(after@) == Some((v as int, p as int, s@)),
            None => after_usb_spec(after@) is None,
        },
{
    proof {
        reveal(after_usb_spec);
        reveal_strlit("vid_");
        reveal_strlit("pid_");
    }
    let (vidpid, rest) = match split_once_chars(after, '#') {
        Some(parts) => parts,
        None => {
            return None;
        },
    };
    let serial = match split_once_chars(&rest, '#') {
        Some((s, _)) => s,
        None => rest,
    };
    if serial.len() == 0 {
        return None;
    }
    let lv = lower_chars(&vidpid);
    let vid_tag = chars_of("vid_");
    let pid_tag = chars_of("pid_");
    let vid = match parse_id_after(&vidpid, &lv, &vid_tag) {
        Some(v) => v,
        None => {
            return None;
        },
    };
    let pid = match parse_id_after(&vidpid, &lv, &pid_tag) {
        Some(v) => v,
        None => {
            return None;
        },
    };
    let upper = upper_chars(&serial);
    Some((vid, pid, string_of(&upper)))
}

/// Split a Windows USB interface path
/// `\\?\usb#vid_xxxx&pid_yyyy#<serial>#{class-guid}\global` into
/// `(vendor_id, product_id, serial)`, the serial upper-cased. Paths of
/// devices that are not on USB (loopMIDI, software synths) give `None`.
pub fn parse_usb_serial(path: &str) -> (r: Option<(u16, u16, String)>)
    ensures
        match r {
            Some((v, p, s)) => usb_serial_spec(path@) == Some((v as int, p as int, s@)),
            None => usb_serial_spec(path@) is None,
        },
{
    proof {
        reveal_strlit("usb#");
    }
    let chars = chars_of(path);
    let lower = lower_chars(&chars);
    let usb_tag = chars_of("usb#");
    let usb_pos = match first_at(&lower, &usb_tag) {
        Some(i) => i,
        None => {
            return None;
        },
    };
    assert(lower@.len() == chars@.len());
    let n = chars.len();
    assert(usb_pos + 4 <= n);
    let after = slice_of(&chars, usb_pos + 4, chars.len());
    assert(after@ == path@.skip(usb_pos + 4));
    parse_after_usb(&after)
}

} // verus!
