//! Independent noise streams. They keep apart uses of the noise that must not
//! be correlated: two quantities drawn for the same agent and step from one
//! stream would come from the same word.

use vstd::prelude::*;

verus! {

/// Direction of the Brownian kick.
pub const IMPULSE_ANGLE: u32 = 0;

} // verus!
