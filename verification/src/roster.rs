use vstd::prelude::*;

verus! {

/// Laps in a race unless configured otherwise.
pub const DEFAULT_LAP_COUNT: u32 = 1;

/// Electrons a reduction pad hands out on the standard track.
pub const PAD_ELECTRON_GAIN: i32 = 8;

/// Electrons an oxidation hazard takes away on the standard track.
pub const HAZARD_ELECTRON_LOSS: i32 = 8;

/// Index of the standard track's checkpoint.
pub const TRACK_CHECKPOINT_INDEX: u32 = 0;

/// Electrons the player's bike starts with.
pub const PLAYER_STARTING_ELECTRONS: i32 = 0;

/// Electrons the AI bike in lane `ai_index` (counted from the lane next to the
/// player's) starts with: four per lane away from the middle AI lane, negative
/// on one side, positive on the other.
pub fn ai_starting_electrons(ai_index: u32) -> (electrons: i32)
    requires
        (ai_index - 3) * 4 <= i32::MAX,
    ensures
        electrons == (ai_index - 3) * 4,
{
    (ai_index as i32 - 3) * 4
}

} // verus!
