//! Numerical diagnostics gate: off by default, explicit opt-in.

use vstd::prelude::*;

verus! {

#[derive(Clone, Copy, Debug, PartialEq, Eq)]
pub enum Stage {
    Activation,
    Logits,
    Loss,
    Gradient,
    Parameter,
    AdamMoment,
}

/// The first non-finite value found by a scan.
#[derive(Clone, Copy, Debug, PartialEq, Eq)]
pub enum Fault {
    NaN { index: usize },
    Infinity { index: usize, negative: bool },
}

impl Fault {
    /// Position of the faulty value.
    pub fn index(self) -> (r: usize)
        ensures
            self matches Fault::NaN { index } ==> r == index,
            self matches Fault::Infinity { index, .. } ==> r == index,
    {
        match self {
            Fault::NaN { index } => index,
            Fault::Infinity { index, .. } => index,
        }
    }
}

/// Opt-in gate; scanning happens only when enabled.
#[derive(Clone, Copy, Debug, PartialEq, Eq)]
pub struct Diagnostics {
    pub enabled: bool,
}

impl Diagnostics {
    pub fn off() -> (r: Diagnostics)
        ensures
            !r.enabled,
    {
        Diagnostics { enabled: false }
    }

    pub fn on() -> (r: Diagnostics)
        ensures
            r.enabled,
    {
        Diagnostics { enabled: true }
    }
}

impl Default for Diagnostics {
    fn default() -> (r: Diagnostics)
        ensures
            !r.enabled,
    {
        Diagnostics::off()
    }
}

} // verus!
