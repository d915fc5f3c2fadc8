//! USB HID usage codes (keyboard page) of the keys on a 60% ANSI board.
use vstd::prelude::*;

verus! {

pub const ESCAPE: u16 = 0x29;
pub const N1: u16 = 0x1E;
pub const N2: u16 = 0x1F;
pub const N3: u16 = 0x20;
pub const N4: u16 = 0x21;
pub const N5: u16 = 0x22;
pub const N6: u16 = 0x23;
pub const N7: u16 = 0x24;
pub const N8: u16 = 0x25;
pub const N9: u16 = 0x26;
pub const N0: u16 = 0x27;
pub const MINUS: u16 = 0x2D;
pub const EQUAL: u16 = 0x2E;
pub const BACKSPACE: u16 = 0x2A;

pub const TAB: u16 = 0x2B;
pub const Q: u16 = 0x14;
pub const W: u16 = 0x1A;
pub const E: u16 = 0x08;
pub const R: u16 = 0x15;
pub const T: u16 = 0x17;
pub const Y: u16 = 0x1C;
pub const U: u16 = 0x18;
pub const I: u16 = 0x0C;
pub const O: u16 = 0x12;
pub const P: u16 = 0x13;
pub const BRACKET_LEFT: u16 = 0x2F;
pub const BRACKET_RIGHT: u16 = 0x30;
pub const BACKSLASH: u16 = 0x31;

pub const CAPSLOCK: u16 = 0x39;
pub const A: u16 = 0x04;
pub const S: u16 = 0x16;
pub const D: u16 = 0x07;
pub const F: u16 = 0x09;
pub const G: u16 = 0x0A;
pub const H: u16 = 0x0B;
pub const J: u16 = 0x0D;
pub const K: u16 = 0x0E;
pub const L: u16 = 0x0F;
pub const SEMICOLON: u16 = 0x33;
pub const QUOTE: u16 = 0x34;
pub const ENTER: u16 = 0x28;

pub const LEFT_SHIFT: u16 = 0xE1;
pub const Z: u16 = 0x1D;
pub const X: u16 = 0x1B;
pub const C: u16 = 0x06;
pub const V: u16 = 0x19;
pub const B: u16 = 0x05;
pub const N: u16 = 0x11;
pub const M: u16 = 0x10;
pub const COMMA: u16 = 0x36;
pub const PERIOD: u16 = 0x37;
pub const SLASH: u16 = 0x38;
pub const RIGHT_SHIFT: u16 = 0xE5;

pub const LEFT_CONTROL: u16 = 0xE0;
pub const LEFT_META: u16 = 0xE3;
pub const LEFT_ALT: u16 = 0xE2;
pub const SPACE: u16 = 0x2C;
pub const RIGHT_ALT: u16 = 0xE6;
pub const RIGHT_META: u16 = 0xE7;
/// Wooting's own Fn key (not a standard usage code).
pub const FN: u16 = 0xFF;
pub const RIGHT_CONTROL: u16 = 0xE4;

pub const ARROW_RIGHT: u16 = 0x4F;
pub const ARROW_LEFT: u16 = 0x50;
pub const ARROW_DOWN: u16 = 0x51;
pub const ARROW_UP: u16 = 0x52;

/// The application / context-menu key (on the Fn layer of a 60HE ANSI).
pub const CONTEXT_MENU: u16 = 0x65;

} // verus!
