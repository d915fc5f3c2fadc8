//! Aftertouch modes of the Wooting backend, cycled by the RightAlt key.
use vstd::prelude::*;

verus! {

#[derive(Debug, Clone, Copy, PartialEq, Eq, Structural)]
pub enum AftertouchMode {
    SpeedMapped,
    PeakMapped,
    Off,
}

pub open spec fn mode_name(m: AftertouchMode) -> Seq<char> {
    match m {
        AftertouchMode::SpeedMapped => "speed-mapped"@,
        AftertouchMode::PeakMapped => "peak-mapped"@,
        AftertouchMode::Off => "off"@,
    }
}

pub open spec fn next_mode(m: AftertouchMode) -> AftertouchMode {
    match m {
        AftertouchMode::SpeedMapped => AftertouchMode::PeakMapped,
        AftertouchMode::PeakMapped => AftertouchMode::Off,
        AftertouchMode::Off => AftertouchMode::SpeedMapped,
    }
}

impl AftertouchMode {
    pub fn name(&self) -> (r: &'static str)
        ensures
            r@ == mode_name(*self),
    {
        match self {
            AftertouchMode::SpeedMapped => "speed-mapped",
            AftertouchMode::PeakMapped => "peak-mapped",
            AftertouchMode::Off => "off",
        }
    }

    /// SpeedMapped -> PeakMapped -> Off -> SpeedMapped.
    pub fn next(self) -> (r: Self)
        ensures
            r == next_mode(self),
    {
        match self {
            AftertouchMode::SpeedMapped => AftertouchMode::PeakMapped,
            AftertouchMode::PeakMapped => AftertouchMode::Off,
            AftertouchMode::Off => AftertouchMode::SpeedMapped,
        }
    }
}

/// Three presses of the mode key bring every mode back, and fewer never do.
pub proof fn lemma_mode_cycle(m: AftertouchMode)
    ensures
        next_mode(next_mode(next_mode(m))) == m,
        next_mode(m) != m,
        next_mode(next_mode(m)) != m,
{
}

} // verus!
