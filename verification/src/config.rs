//! Integer settings of the simulation, kept in one place.

use vstd::prelude::*;

verus! {

/// Default width of the thermal grid, in cells.
pub const GRID_W: usize = 512;

/// Default height of the thermal grid, in cells.
pub const GRID_H: usize = 288;

/// Steps an episode lasts before it is truncated (60 s at 60 steps per second).
pub const MAX_EPISODE_STEPS: u64 = 3600;

/// Seed of the noise: fixed so that a run can be reproduced.
pub const RNG_SEED: u64 = 0x5EED_B12E_1234_5678;

} // verus!
