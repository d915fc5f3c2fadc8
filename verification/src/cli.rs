//! The command line's plain values: subcommand choices and their arguments.
use vstd::prelude::*;

use crate::exquis::midi::DeviceSelection;
use crate::exquis::proto::{Color, NamedZone};

verus! {

/// `dev on` or `dev off`.
#[derive(Debug, Clone, Copy, PartialEq, Eq, Structural)]
pub enum DevAction {
    On,
    Off,
}

/// How `midi` shows what arrives.
#[derive(Debug, Clone, Copy, PartialEq, Eq, Structural)]
pub enum MidiMode {
    Hybrid,
    Stream,
    Dashboard,
    Raw,
}

/// Arguments of `midi`: the device (all when none), the view, and the
/// logging options.
#[derive(Debug, Clone)]
pub struct MidiArgs {
    pub device: Option<DeviceSelection>,
    pub mode: MidiMode,
    pub mpe_only: bool,
    pub no_log: bool,
    pub log_raw: bool,
    pub log_file: Option<String>,
}

/// A `pads` subcommand, each for a device selection; `legacy` takes the
/// pads over in developer mode instead of sending a snapshot.
#[derive(Debug, Clone, PartialEq, Eq)]
pub enum PadsCommands {
    /// Set all pads black.
    Clear { device: DeviceSelection, legacy: bool },
    /// Fill all pads with one colour.
    Fill { color: Color, device: DeviceSelection, legacy: bool },
    /// Write a test pattern.
    Test { device: DeviceSelection, legacy: bool },
}

/// Arguments of `pads`.
#[derive(Debug, Clone)]
pub struct PadsArgs {
    pub command: PadsCommands,
}

/// The developer-mode zones taken over by default: pads, encoders, slider,
/// up/down and the other buttons; everything but the settings button.
pub fn default_zone_mask() -> (r: u8)
    ensures
        r == 0x2Fu8,
{
    let r = NamedZone::Pads.bit() | NamedZone::Encoders.bit() | NamedZone::Slider.bit()
        | NamedZone::UpDown.bit() | NamedZone::OtherButtons.bit();
    assert(0x01u8 | 0x02u8 | 0x04u8 | 0x08u8 | 0x20u8 == 0x2Fu8) by (bit_vector);
    r
}

} // verus!
