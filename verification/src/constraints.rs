//! Caller-supplied preferences that drive the negotiation: per-axis
//! constraint specifications and their defaults.

use vstd::prelude::*;

verus! {

/// Video field order `NONE` (progressive frames), the default field setting
/// handed to the device.
pub const FIELD_NONE: u32 = 1;

/// How strongly a boolean property of a format (emulation, compression)
/// is wanted. `Only` and `Never` filter candidates; `Prefer` and
/// `DoNotPrefer` only order them; `NoPreference` does neither.
#[derive(Clone, Copy, Debug)]
pub enum Pref {
    Only,
    Never,
    Prefer,
    DoNotPrefer,
    NoPreference,
}

/// Which end of an ordered candidate space is preferred.
#[derive(Clone, Copy, Debug)]
pub enum Dir {
    Highest,
    Lowest,
}

/// Preferences for the format axis: emulation and compression preferences
/// plus an optional priority list of four-byte format codes. When the list
/// is present, candidates whose code is absent from it are excluded, and a
/// lower list index outranks every other preference.
#[derive(Debug)]
pub struct Fmt {
    pub emulate: Pref,
    pub compress: Pref,
    pub priorities: Option<Vec<[u8; 4]>>,
}

impl Default for Fmt {
    /// No filtering, no ordering preference, no priority list.
    fn default() -> (d: Fmt)
        ensures
            d.emulate is NoPreference,
            d.compress is NoPreference,
            d.priorities is None,
    {
        Fmt { emulate: Pref::NoPreference, compress: Pref::NoPreference, priorities: None }
    }
}

/// Preference for one discrete/stepwise axis (resolution or frame
/// interval): the preferred direction and an optional inclusive bound.
/// With `Highest` the limit caps the ceiling; with `Lowest` it sets the
/// floor.
#[derive(Clone, Copy, Debug)]
pub struct DisStepConstraint {
    pub dir: Dir,
    pub limit: Option<(u32, u32)>,
}

/// Constraint on the resolution axis.
pub type Res = DisStepConstraint;

/// Constraint on the frame-interval axis.
pub type Speed = DisStepConstraint;

/// The full preference set of one negotiation: per-axis constraints plus
/// the field order and buffer count copied verbatim into the result.
#[derive(Debug)]
pub struct Constraints {
    pub formats: Option<Fmt>,
    pub resolutions: Option<Res>,
    pub speeds: Option<Speed>,
    pub field: u32,
    pub nbuffers: u32,
}

impl Default for Constraints {
    /// Unconstrained on every axis, progressive field order, two buffers.
    fn default() -> (c: Constraints)
        ensures
            c.formats is None,
            c.resolutions is None,
            c.speeds is None,
            c.field == FIELD_NONE,
            c.nbuffers == 2,
    {
        Constraints {
            formats: None,
            resolutions: None,
            speeds: None,
            field: FIELD_NONE,
            nbuffers: 2,
        }
    }
}

} // verus!
