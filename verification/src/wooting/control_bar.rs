//! Control-bar LEDs (the bottom row of a 60HE): a base colour, then the
//! Space-hold and aftertouch-mode overlays, and flashes on key presses.
//!
//! Each painter returns the LED commands in the order they are to be sent;
//! the overlay order (base, then Space, then aftertouch mode) is what keeps
//! the indicators visible after a repaint.
use vstd::prelude::*;

use crate::settings::{cols_entries, lookup_cols, ControlBarSettings};
use crate::wooting::hid;
use crate::wooting::modes::AftertouchMode;

verus! {

/// One LED colour command for the RGB painter.
#[derive(Debug, Clone, Copy, PartialEq, Eq)]
pub struct RgbCmd {
    pub device_index: u8,
    pub row: u8,
    pub col: u8,
    pub rgb: (u8, u8, u8),
}

/// Base colour of the bar (red).
pub const BASE_RGB: (u8, u8, u8) = (255, 0, 0);
/// Flash on a key press (white).
pub const HIGHLIGHT_RGB: (u8, u8, u8) = (255, 255, 255);
/// Flash for an arrow key (cyan).
pub const ARROW_FLASH_RGB: (u8, u8, u8) = (0, 255, 255);
pub const AFTERTOUCH_OFF_RGB: (u8, u8, u8) = (0, 128, 255);
pub const AFTERTOUCH_PEAK_RGB: (u8, u8, u8) = (255, 255, 0);

/// The settings name of a control-bar key.
pub open spec fn hid_name_spec(h: u16) -> Option<Seq<char>> {
    if h == hid::LEFT_CONTROL {
        Some("LeftCtrl"@)
    } else if h == hid::LEFT_META {
        Some("LeftMeta"@)
    } else if h == hid::LEFT_ALT {
        Some("LeftAlt"@)
    } else if h == hid::SPACE {
        Some("Space"@)
    } else if h == hid::RIGHT_ALT {
        Some("RightAlt"@)
    } else if h == hid::CONTEXT_MENU {
        Some("ContextMenu"@)
    } else if h == hid::RIGHT_CONTROL {
        Some("RightCtrl"@)
    } else {
        None
    }
}

/// The name under which the settings list a control-bar key.
pub fn hid_name(h: u16) -> (r: Option<&'static str>)
    ensures
        match r {
            Some(s) => hid_name_spec(h) == Some(s@),
            None => hid_name_spec(h) is None,
        },
{
    if h == hid::LEFT_CONTROL {
        Some("LeftCtrl")
    } else if h == hid::LEFT_META {
        Some("LeftMeta")
    } else if h == hid::LEFT_ALT {
        Some("LeftAlt")
    } else if h == hid::SPACE {
        Some("Space")
    } else if h == hid::RIGHT_ALT {
        Some("RightAlt")
    } else if h == hid::CONTEXT_MENU {
        Some("ContextMenu")
    } else if h == hid::RIGHT_CONTROL {
        Some("RightCtrl")
    } else {
        None
    }
}

/// The configured columns of the key called `name`.
pub open spec fn cols_of_name(cb: ControlBarSettings, name: Seq<char>) -> Option<Seq<u8>> {
    lookup_cols(cols_entries(cb.led_cols_by_hid@), name)
}

/// The columns a control-bar key lights (none for other keys).
pub open spec fn cols_of_hid(cb: ControlBarSettings, h: u16) -> Seq<u8> {
    match hid_name_spec(h) {
        Some(n) => match cols_of_name(cb, n) {
            Some(c) => c,
            None => Seq::empty(),
        },
        None => Seq::empty(),
    }
}

fn cols_for_name(cb: &ControlBarSettings, name: &str) -> (r: Option<Vec<u8>>)
    ensures
        match r {
            Some(v) => cols_of_name(*cb, name@) == Some(v@),
            None => cols_of_name(*cb, name@) is None,
        },
{
    cb.cols_named(name)
}

/// The LED columns of a control-bar key; empty when it is not one or has
/// no columns configured.
pub fn cols_for_hid(cb: &ControlBarSettings, h: u16) -> (r: Vec<u8>)
    ensures
        r@ == cols_of_hid(*cb, h),
{
    match hid_name(h) {
        Some(n) => match cols_for_name(cb, n) {
            Some(v) => v,
            None => Vec::new(),
        },
        None => Vec::new(),
    }
}

pub open spec fn is_arrow(h: u16) -> bool {
    h == hid::ARROW_LEFT || h == hid::ARROW_RIGHT || h == hid::ARROW_DOWN || h == hid::ARROW_UP
}

/// A named key with configured columns, or an arrow key.
pub fn is_control_bar(cb: &ControlBarSettings, h: u16) -> (r: bool)
    ensures
        r == ((hid_name_spec(h) matches Some(n) && cols_of_name(*cb, n) is Some) || is_arrow(h)),
{
    let named = match hid_name(h) {
        Some(n) => cb.cols_named(n).is_some(),
        None => false,
    };
    named || h == hid::ARROW_LEFT || h == hid::ARROW_RIGHT || h == hid::ARROW_DOWN
        || h == hid::ARROW_UP
}

pub open spec fn arrow_target_spec(h: u16) -> Option<u16> {
    if h == hid::ARROW_LEFT {
        Some(hid::RIGHT_ALT)
    } else if h == hid::ARROW_DOWN {
        Some(hid::CONTEXT_MENU)
    } else if h == hid::ARROW_RIGHT {
        Some(hid::RIGHT_CONTROL)
    } else {
        None
    }
}

/// The key whose LED flashes for an arrow: Left -> RightAlt,
/// Down -> ContextMenu, Right -> RightCtrl.
pub fn arrow_flash_target(h: u16) -> (r: Option<u16>)
    ensures
        r == arrow_target_spec(h),
{
    if h == hid::ARROW_LEFT {
        Some(hid::RIGHT_ALT)
    } else if h == hid::ARROW_DOWN {
        Some(hid::CONTEXT_MENU)
    } else if h == hid::ARROW_RIGHT {
        Some(hid::RIGHT_CONTROL)
    } else {
        None
    }
}

pub open spec fn aftertouch_color_spec(mode: AftertouchMode, base_rgb: (u8, u8, u8)) -> (u8, u8, u8) {
    match mode {
        AftertouchMode::SpeedMapped => base_rgb,
        AftertouchMode::PeakMapped => AFTERTOUCH_PEAK_RGB,
        AftertouchMode::Off => AFTERTOUCH_OFF_RGB,
    }
}

/// Colour of the RightAlt indicator for an aftertouch mode.
pub fn aftertouch_mode_color(mode: AftertouchMode, base_rgb: (u8, u8, u8)) -> (r: (u8, u8, u8))
    ensures
        r == aftertouch_color_spec(mode, base_rgb),
{
    match mode {
        AftertouchMode::SpeedMapped => base_rgb,
        AftertouchMode::PeakMapped => AFTERTOUCH_PEAK_RGB,
        AftertouchMode::Off => AFTERTOUCH_OFF_RGB,
    }
}

pub open spec fn space_color_spec(hold: bool, base_rgb: (u8, u8, u8)) -> (u8, u8, u8) {
    if hold {
        HIGHLIGHT_RGB
    } else {
        base_rgb
    }
}

/// Colour of the Space indicator: white while the octave hold is on.
pub fn space_color(hold: bool, base_rgb: (u8, u8, u8)) -> (r: (u8, u8, u8))
    ensures
        r == space_color_spec(hold, base_rgb),
{
    if hold {
        HIGHLIGHT_RGB
    } else {
        base_rgb
    }
}

/// One command per column, in column-list order.
pub open spec fn cmds_spec(dev: u8, row: u8, cols: Seq<u8>, rgb: (u8, u8, u8)) -> Seq<RgbCmd> {
    cols.map_values(|c: u8| RgbCmd { device_index: dev, row, col: c, rgb })
}

/// Columns 0..=13.
pub open spec fn full_row() -> Seq<u8> {
    Seq::new(14, |i: int| i as u8)
}

/// Appends all of `src` to `out`.
pub fn append_cmds(out: &mut Vec<RgbCmd>, src: &Vec<RgbCmd>)
    ensures
        final(out)@ == old(out)@ + src@,
{
    let ghost start = out@;
    let mut i: usize = 0;
    while i < src.len()
        invariant
            i <= src.len(),
            out@ == start + src@.take(i as int),
        decreases src.len() - i,
    {
        out.push(src[i]);
        i = i + 1;
        assert(out@ =~= start + src@.take(i as int));
    }
    assert(src@.take(src.len() as int) =~= src@);
}

fn push_cmds(out: &mut Vec<RgbCmd>, dev: u8, row: u8, cols: &[u8], rgb: (u8, u8, u8))
    ensures
        final(out)@ == old(out)@ + cmds_spec(dev, row, cols@, rgb),
{
    let ghost start = out@;
    let mut i: usize = 0;
    while i < cols.len()
        invariant
            i <= cols.len(),
            out@ == start + cmds_spec(dev, row, cols@.take(i as int), rgb),
        decreases cols.len() - i,
    {
        out.push(RgbCmd { device_index: dev, row, col: cols[i], rgb });
        i = i + 1;
        assert(cmds_spec(dev, row, cols@.take(i as int), rgb) =~= cmds_spec(
            dev,
            row,
            cols@.take(i - 1),
            rgb,
        ).push(RgbCmd { device_index: dev, row, col: cols@[i - 1], rgb }));
    }
    assert(cols@.take(cols.len() as int) =~= cols@);
}

fn full_row_cols() -> (r: Vec<u8>)
    ensures
        r@ == full_row(),
{
    let mut r: Vec<u8> = Vec::new();
    let mut c: u8 = 0;
    while c <= 13
        invariant
            c <= 14,
            r@ == Seq::new(c as nat, |i: int| i as u8),
        decreases 14 - c,
    {
        r.push(c);
        c = c + 1;
        assert(r@ =~= Seq::new(c as nat, |i: int| i as u8));
    }
    r
}

pub open spec fn flash_spec(cb: ControlBarSettings, dev_idx: u8, h: u16) -> Seq<RgbCmd> {
    match arrow_target_spec(h) {
        Some(t) => cmds_spec(dev_idx, cb.row, cols_of_hid(cb, t), ARROW_FLASH_RGB),
        None => if hid_name_spec(h) is Some {
            cmds_spec(dev_idx, cb.row, cols_of_hid(cb, h), HIGHLIGHT_RGB)
        } else {
            Seq::empty()
        },
    }
}

/// The flash on a key press: cyan on an arrow's indicator key, white on the
/// columns of any other named control-bar key, nothing otherwise.
pub fn paint_flash_on_down(cb: &ControlBarSettings, dev_idx: u8, h: u16) -> (r: Vec<RgbCmd>)
    ensures
        r@ == flash_spec(*cb, dev_idx, h),
{
    let (led_hid, flash_rgb) = match arrow_flash_target(h) {
        Some(t) => (t, ARROW_FLASH_RGB),
        None => {
            if hid_name(h).is_some() {
                (h, HIGHLIGHT_RGB)
            } else {
                return Vec::new();
            }
        },
    };
    let cols = cols_for_hid(cb, led_hid);
    let mut out: Vec<RgbCmd> = Vec::new();
    push_cmds(&mut out, dev_idx, cb.row, &cols, flash_rgb);
    out
}

pub open spec fn space_indicator_spec(
    cb: ControlBarSettings,
    dev_idx: u8,
    base_rgb: (u8, u8, u8),
    hold: bool,
) -> Seq<RgbCmd> {
    match cols_of_name(cb, "Space"@) {
        Some(cols) => cmds_spec(dev_idx, cb.row, cols, space_color_spec(hold, base_rgb)),
        None => Seq::empty(),
    }
}

pub open spec fn aftertouch_indicator_spec(
    cb: ControlBarSettings,
    dev_idx: u8,
    base_rgb: (u8, u8, u8),
    mode: AftertouchMode,
) -> Seq<RgbCmd> {
    match cols_of_name(cb, "RightAlt"@) {
        Some(cols) => cmds_spec(dev_idx, cb.row, cols, aftertouch_color_spec(mode, base_rgb)),
        None => Seq::empty(),
    }
}

/// The Space key's columns in its indicator colour.
pub fn paint_spacebar_indicator(
    cb: &ControlBarSettings,
    dev_idx: u8,
    base_rgb: (u8, u8, u8),
    hold: bool,
) -> (r: Vec<RgbCmd>)
    ensures
        r@ == space_indicator_spec(*cb, dev_idx, base_rgb, hold),
{
    let mut out: Vec<RgbCmd> = Vec::new();
    match cols_for_name(cb, "Space") {
        Some(cols) => {
            let rgb = space_color(hold, base_rgb);
            push_cmds(&mut out, dev_idx, cb.row, &cols, rgb);
        },
        None => {},
    }
    out
}

/// The RightAlt key's columns in the aftertouch-mode colour.
pub fn paint_aftertouch_mode_indicator(
    cb: &ControlBarSettings,
    dev_idx: u8,
    base_rgb: (u8, u8, u8),
    mode: AftertouchMode,
) -> (r: Vec<RgbCmd>)
    ensures
        r@ == aftertouch_indicator_spec(*cb, dev_idx, base_rgb, mode),
{
    let mut out: Vec<RgbCmd> = Vec::new();
    match cols_for_name(cb, "RightAlt") {
        Some(cols) => {
            let rgb = aftertouch_mode_color(mode, base_rgb);
            push_cmds(&mut out, dev_idx, cb.row, &cols, rgb);
        },
        None => {},
    }
    out
}

/// The base coat of a repaint: the whole row, or only the columns of the
/// affected key (an arrow stands for its indicator key).
pub open spec fn restore_base_spec(cb: ControlBarSettings, dev_idx: u8, affected: Option<u16>) -> Seq<
    RgbCmd,
> {
    match affected {
        Some(h) => {
            let target = match arrow_target_spec(h) {
                Some(t) => t,
                None => h,
            };
            match hid_name_spec(target) {
                Some(n) => match cols_of_name(cb, n) {
                    Some(cols) => cmds_spec(dev_idx, cb.row, cols, BASE_RGB),
                    None => Seq::empty(),
                },
                None => Seq::empty(),
            }
        },
        None => cmds_spec(dev_idx, cb.row, full_row(), BASE_RGB),
    }
}

/// Base coat, then the Space overlay, then the aftertouch overlay.
pub open spec fn restore_spec(
    cb: ControlBarSettings,
    dev_idx: u8,
    affected: Option<u16>,
    aftertouch_mode: AftertouchMode,
    octave_hold: bool,
) -> Seq<RgbCmd> {
    restore_base_spec(cb, dev_idx, affected) + space_indicator_spec(cb, dev_idx, BASE_RGB, octave_hold)
        + aftertouch_indicator_spec(cb, dev_idx, BASE_RGB, aftertouch_mode)
}

/// Repaint after a release (`affected` = the key) or of the whole bar
/// (`None`): base red, then the Space overlay, then the aftertouch overlay.
pub fn paint_restore(
    cb: &ControlBarSettings,
    dev_idx: u8,
    affected: Option<u16>,
    aftertouch_mode: AftertouchMode,
    octave_hold: bool,
) -> (r: Vec<RgbCmd>)
    ensures
        r@ == restore_spec(*cb, dev_idx, affected, aftertouch_mode, octave_hold),
{
    let mut out: Vec<RgbCmd> = Vec::new();
    match affected {
        Some(h) => {
            let target = match arrow_flash_target(h) {
                Some(t) => t,
                None => h,
            };
            match hid_name(target) {
                Some(name) => match cols_for_name(cb, name) {
                    Some(cols) => push_cmds(&mut out, dev_idx, cb.row, &cols, BASE_RGB),
                    None => {},
                },
                None => {},
            }
        },
        None => {
            let cols = full_row_cols();
            push_cmds(&mut out, dev_idx, cb.row, &cols, BASE_RGB);
        },
    }
    assert(out@ =~= Seq::<RgbCmd>::empty() + restore_base_spec(*cb, dev_idx, affected));
    let space = paint_spacebar_indicator(cb, dev_idx, BASE_RGB, octave_hold);
    let at = paint_aftertouch_mode_indicator(cb, dev_idx, BASE_RGB, aftertouch_mode);
    let mut i: usize = 0;
    let ghost base = out@;
    while i < space.len()
        invariant
            i <= space.len(),
            out@ == base + space@.take(i as int),
        decreases space.len() - i,
    {
        out.push(space[i]);
        i = i + 1;
        assert(out@ =~= base + space@.take(i as int));
    }
    assert(space@.take(space.len() as int) =~= space@);
    let ghost mid = out@;
    let mut j: usize = 0;
    while j < at.len()
        invariant
            j <= at.len(),
            out@ == mid + at@.take(j as int),
        decreases at.len() - j,
    {
        out.push(at[j]);
        j = j + 1;
        assert(out@ =~= mid + at@.take(j as int));
    }
    assert(at@.take(at.len() as int) =~= at@);
    out
}

/// Every column 0..=13 black (screensaver), unnamed LEDs such as Fn included.
pub fn paint_off(cb: &ControlBarSettings, dev_idx: u8) -> (r: Vec<RgbCmd>)
    ensures
        r@ == cmds_spec(dev_idx, cb.row, full_row(), (0u8, 0u8, 0u8)),
{
    let cols = full_row_cols();
    let mut out: Vec<RgbCmd> = Vec::new();
    push_cmds(&mut out, dev_idx, cb.row, &cols, (0, 0, 0));
    assert(out@ =~= cmds_spec(dev_idx, cb.row, full_row(), (0u8, 0u8, 0u8)));
    out
}

} // verus!
