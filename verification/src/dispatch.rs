//! How the diffusion sub-steps are laid out on the GPU: how many workgroups
//! cover the grid, which buffer each pass reads and writes, and where the
//! result is after the last pass. The sub-steps never leave the card, so the
//! two buffers alternate as source and destination.

use vstd::prelude::*;

verus! {

/// Direction of one pass between the two storage buffers.
#[derive(Clone, Copy, PartialEq, Eq, Debug, Structural)]
pub enum PassDirection {
    /// Reads buffer `a`, writes buffer `b`.
    AToB,
    /// Reads buffer `b`, writes buffer `a`.
    BToA,
}

pub open spec fn direction_of(pass: int) -> PassDirection {
    if pass % 2 == 0 {
        PassDirection::AToB
    } else {
        PassDirection::BToA
    }
}

/// Direction of pass number `pass` (counted from 0): the passes alternate,
/// starting from `a`, where the grid is uploaded.
pub fn pass_direction(pass: u32) -> (d: PassDirection)
    ensures
        d == direction_of(pass as int),
{
    if pass % 2 == 0 {
        PassDirection::AToB
    } else {
        PassDirection::BToA
    }
}

/// Whether the result of `substeps` chained passes is left in buffer `b`
/// (otherwise it is in `a`).
pub fn result_in_b(substeps: u32) -> (r: bool)
    ensures
        r == (substeps % 2 == 1),
{
    substeps % 2 == 1
}

/// Bytes that one cell of the grid takes on the card (a 32-bit float).
pub const CELL_BYTES: u64 = 4;

/// Size in bytes of a storage buffer that holds a grid of `width` by
/// `height` cells.
pub fn grid_bytes(width: usize, height: usize) -> (b: u64)
    requires
        width * height <= usize::MAX,
        width * height * CELL_BYTES <= u64::MAX,
    ensures
        b == width * height * CELL_BYTES,
{
    let cells: usize = width * height;
    (cells as u64) * CELL_BYTES
}

/// Whether the buffers made for a grid of `dims` (height, width) serve a
/// grid of `height` by `width` as they are; otherwise they are made anew.
pub fn buffers_fit(dims: Option<(usize, usize)>, height: usize, width: usize) -> (r: bool)
    ensures
        r == (dims == Some((height, width))),
{
    match dims {
        Some((h, w)) => h == height && w == width,
        None => false,
    }
}

/// Number of workgroups of `side` invocations needed to cover `n` cells:
/// `n / side` rounded up.
pub fn workgroup_count(n: usize, side: usize) -> (g: u32)
    requires
        side > 0,
        n / side + 1 <= u32::MAX,
    ensures
        g * side >= n,
        g == 0 || (g - 1) * side < n,
{
    let q = n / side;
    let g = if n % side != 0 {
        q + 1
    } else {
        q
    };
    proof {
        assert(q * side + n % side == n) by (nonlinear_arith)
            requires
                side > 0,
                q == n / side,
        ;
        assert(0 <= n % side < side) by (nonlinear_arith)
            requires
                side > 0,
        ;
        if g > 0 {
            assert((g - 1) * side < n) by (nonlinear_arith)
                requires
                    q * side + n % side == n,
                    0 <= n % side < side,
                    g == (if n % side != 0 {
                        q + 1
                    } else {
                        q as int
                    }),
                    g > 0,
            ;
        }
        assert(g * side >= n) by (nonlinear_arith)
            requires
                q * side + n % side == n,
                0 <= n % side < side,
                g == (if n % side != 0 {
                    q + 1
                } else {
                    q as int
                }),
        ;
    }
    g as u32
}

/// The buffer read back after the last pass is the one that pass wrote:
/// after an odd number of passes the result is in `b`, after an even number
/// in `a` (where it started when there was no pass at all).
pub proof fn lemma_result_is_written_by_the_last_pass(substeps: u32)
    requires
        substeps >= 1,
    ensures
        (substeps % 2 == 1) <==> direction_of(substeps - 1) == PassDirection::AToB,
{
}

} // verus!
