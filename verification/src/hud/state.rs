//! The layout part of what the HUD is sent.
use vstd::prelude::*;

verus! {

/// Version of the HUD's wire shape.
pub const SCHEMA_VERSION: u32 = 1;

/// The active layout: its id, display name, divisions of the octave and
/// pitch offset.
#[derive(Debug, Clone)]
pub struct LayoutInfo {
    pub id: String,
    pub name: String,
    pub edo: u32,
    pub pitch_offset: i32,
}

} // verus!
