//! Why a pushed value is turned away.

use vstd::prelude::*;

verus! {

/// Why a pushed value is turned away.
#[derive(Clone, Copy, Debug, PartialEq, Eq, Structural)]
pub enum CrdsGossipError {
    /// The wallclock of the value is outside of the window around the local time.
    PushMessageTimeout,
    /// The table holds a version of the value that the new one does not override.
    PushMessageOldVersion,
}

} // verus!
