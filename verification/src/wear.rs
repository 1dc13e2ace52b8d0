use vstd::prelude::*;

verus! {

/// Which way a bike's electron balance pushes its body this frame.
#[derive(Clone, Copy, PartialEq, Eq, Structural, Debug)]
pub enum RedoxPressure {
    /// The bike lacks `excess` electrons: rust builds up and integrity falls in
    /// proportion to it.
    Oxidizing { excess: u32 },
    /// The bike holds `surplus` spare electrons: integrity recovers in proportion
    /// to it.
    Reducing { surplus: u32 },
    /// No electrons either way: nothing changes.
    Balanced,
}

/// The redox pressure on a bike holding `electrons` electrons: oxidizing by the
/// deficit when negative, reducing by the surplus when positive, balanced at zero.
/// The deficit of `i32::MIN` has no `i32` negation, so that count is excluded.
pub fn redox_pressure(electrons: i32) -> (pressure: RedoxPressure)
    requires
        electrons != i32::MIN,
    ensures
        electrons < 0 ==> pressure == (RedoxPressure::Oxidizing { excess: (-electrons) as u32 }),
        electrons > 0 ==> pressure == (RedoxPressure::Reducing { surplus: electrons as u32 }),
        electrons == 0 ==> pressure == RedoxPressure::Balanced,
{
    if electrons < 0 {
        RedoxPressure::Oxidizing { excess: (-electrons) as u32 }
    } else if electrons > 0 {
        RedoxPressure::Reducing { surplus: electrons as u32 }
    } else {
        RedoxPressure::Balanced
    }
}

/// A bike's integrity ran out and it corroded.
#[derive(Clone, Copy, PartialEq, Eq, Structural, Debug)]
pub struct CorrosionEvent {
    pub bike: u64,
}

/// What happens to one bike's corrosion state this frame.
#[derive(Clone, Copy, PartialEq, Eq, Structural, Debug)]
pub enum CorrosionStep {
    /// The bike corrodes: it is disabled, its recovery timer starts and the
    /// corrosion is announced.
    Corrode(CorrosionEvent),
    /// The bike's recovery is over: it is enabled again with part of its
    /// integrity restored.
    Recover,
    /// Nothing changes.
    Unchanged,
}

/// The corrosion decision for one bike. A bike that is not corroded corrodes
/// once its integrity is depleted; a corroded bike recovers once its recovery
/// timer has run out, and its integrity plays no part until then.
pub fn corrosion_system(
    bike: u64,
    corroded: bool,
    integrity_depleted: bool,
    recovery_finished: bool,
) -> (step: CorrosionStep)
    ensures
        !corroded && integrity_depleted ==> step == CorrosionStep::Corrode((CorrosionEvent { bike })),
        corroded && recovery_finished ==> step == CorrosionStep::Recover,
        (!corroded && !integrity_depleted) || (corroded && !recovery_finished) ==> step
            == CorrosionStep::Unchanged,
{
    if !corroded {
        if integrity_depleted {
            CorrosionStep::Corrode(CorrosionEvent { bike })
        } else {
            CorrosionStep::Unchanged
        }
    } else if recovery_finished {
        CorrosionStep::Recover
    } else {
        CorrosionStep::Unchanged
    }
}

} // verus!
