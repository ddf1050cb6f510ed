//! Duplicate vs split send policies.

use vstd::prelude::*;

use crate::header::{PayloadType, PriorityClass};

verus! {

#[derive(Clone, Copy, Debug, PartialEq, Eq, Structural)]
pub enum SendMode {
    /// Replicate the same datagram on every path (control / haptic).
    Duplicate,
    /// Choose one path by weighted schedule (video / bulk telemetry).
    Split,
}

pub open spec fn spec_mode_for(priority: PriorityClass) -> SendMode {
    match priority {
        PriorityClass::Control | PriorityClass::Haptic => SendMode::Duplicate,
        _ => SendMode::Split,
    }
}

/// Control and haptic traffic is duplicated on every path; everything else is split.
pub fn mode_for(priority: PriorityClass, payload_type: PayloadType) -> (r: SendMode)
    ensures
        r == spec_mode_for(priority),
{
    match priority {
        PriorityClass::Control | PriorityClass::Haptic => SendMode::Duplicate,
        _ => SendMode::Split,
    }
}

} // verus!
