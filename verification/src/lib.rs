//! Rules of a redox bike race: the race phases, the electron economy between
//! bikes and the track's zones, the wear that follows from it, checkpoint and
//! lap bookkeeping, the standings and the end of the race.

pub mod electrons;
pub mod laps;
pub mod phase;
pub mod ranking;
pub mod roster;
pub mod wear;
