//! The ways in which a call can be refused.

use vstd::prelude::*;

verus! {

/// Why a call had no effect.
#[derive(Clone, Copy, Debug, PartialEq, Eq, Structural)]
pub enum Error {
    /// The channel count or the sample rate has not been set yet.
    NotConfigured,
    /// A value lies outside the range that the control supports.
    OutOfRange,
    /// The setting can be read but not written.
    ReadOnly,
    /// The buffer holds fewer samples than the call speaks of.
    ShortBuffer,
}

} // verus!
