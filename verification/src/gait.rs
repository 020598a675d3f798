//! The legs of a four-legged robot and the two phases of a leg's step.
use vstd::prelude::*;

verus! {

/// The four legs: front left, front right, back left, back right.
#[derive(Debug, Clone, Copy, PartialEq, Eq, Structural)]
pub enum LegId {
    FrontLeft,
    FrontRight,
    BackLeft,
    BackRight,
}

/// A leg either stands on the ground, carrying weight, or swings forward
/// in the air.
#[derive(Debug, Clone, Copy, PartialEq, Eq, Structural)]
pub enum LegPhase {
    Stance,
    Swing,
}

} // verus!
