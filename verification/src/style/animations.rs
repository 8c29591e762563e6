//! Animation settings.
use vstd::prelude::*;

verus! {

/// Whether an animation runs.
#[derive(Debug, Clone, Copy, PartialEq)]
pub enum AnimationPlayState {
    Running,
    Paused,
}

/// What an animation applies before it starts and after it ends.
#[derive(Debug, Clone, Copy, PartialEq)]
pub enum AnimationFillMode {
    /// `none`
    NoFill,
    Forwards,
    Backwards,
    Both,
}

/// The direction in which an animation plays its iterations.
#[derive(Debug, Clone, Copy, PartialEq)]
pub enum AnimationDirection {
    Normal,
    Reverse,
    Alternate,
    AlternateReverse,
}

} // verus!
