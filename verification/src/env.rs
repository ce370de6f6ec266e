//! How a world reads the actions of its agents.
//!
//! The action tensor is `[N, ACTION_DIM]` in C order, indexed by slot and not
//! by position among the live agents: the hole a removed agent leaves stays
//! there until another agent takes it, so row `i` always refers to the same
//! agent.

use vstd::prelude::*;

verus! {

/// Components of an agent's action: a push in the plane.
pub const ACTION_DIM: usize = 2;

/// First index of the row of `slot` in an action tensor of `len` numbers,
/// or `None` when the tensor is too short to hold that row (such an agent is
/// not piloted this step).
pub fn action_offset(slot: u32, len: usize) -> (r: Option<usize>)
    ensures
        r == (if slot * ACTION_DIM + ACTION_DIM <= len {
            Some((slot * ACTION_DIM) as usize)
        } else {
            None::<usize>
        }),
{
    match (slot as usize).checked_mul(ACTION_DIM) {
        Some(base) => match base.checked_add(ACTION_DIM) {
            Some(end) => {
                if end <= len {
                    Some(base)
                } else {
                    None
                }
            },
            None => None,
        },
        None => None,
    }
}

/// The rows of two different slots never overlap, so no agent is steered by
/// another agent's numbers.
pub proof fn lemma_action_rows_are_disjoint(slot1: u32, slot2: u32)
    requires
        slot1 != slot2,
    ensures
        slot1 * ACTION_DIM + ACTION_DIM <= slot2 * ACTION_DIM || slot2 * ACTION_DIM + ACTION_DIM
            <= slot1 * ACTION_DIM,
{
}

} // verus!
