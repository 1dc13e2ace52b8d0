use vstd::prelude::*;

use crate::ranking::Leaderboard;

verus! {

/// The phase a race is in. A race starts with a countdown, then the bikes race,
/// and the race is over once some bike has completed the configured laps.
#[derive(Clone, Copy, PartialEq, Eq, Structural, Debug, Hash)]
pub enum RacePhase {
    Countdown,
    Racing,
    Finished,
}

impl Default for RacePhase {
    fn default() -> (phase: Self)
        ensures
            phase == RacePhase::Countdown,
    {
        RacePhase::Countdown
    }
}

/// The position of a phase in the course of a race.
pub open spec fn phase_order(phase: RacePhase) -> nat {
    match phase {
        RacePhase::Countdown => 0,
        RacePhase::Racing => 1,
        RacePhase::Finished => 2,
    }
}

/// What the countdown decides at the end of a frame: once the countdown timer has
/// run out the race starts, otherwise the phase is left as it is.
pub fn countdown_system(timer_finished: bool) -> (next: Option<RacePhase>)
    ensures
        next == (if timer_finished { Some(RacePhase::Racing) } else { None::<RacePhase> }),
        next matches Some(p) ==> phase_order(p) == phase_order(RacePhase::Countdown) + 1,
{
    if timer_finished {
        Some(RacePhase::Racing)
    } else {
        None
    }
}

/// The race is over; `ranking` is the standings at that moment.
pub struct RaceFinishedEvent {
    pub ranking: Vec<u64>,
}

/// Whether some bike has completed at least `lap_count` laps.
pub open spec fn someone_finished(laps: Seq<u32>, lap_count: u32) -> bool {
    exists|i: int| 0 <= i < laps.len() && #[trigger] laps[i] >= lap_count
}

/// What the end-of-race check decides, given each bike's completed laps: as soon
/// as any one bike has completed `lap_count` laps, the race moves to
/// `Finished` and the finish is announced with the current standings; otherwise
/// nothing happens.
pub fn race_finish_system(laps: &Vec<u32>, lap_count: u32, leaderboard: &Leaderboard) -> (outcome:
    Option<(RacePhase, RaceFinishedEvent)>)
    ensures
        outcome is Some <==> someone_finished(laps@, lap_count),
        forall|i: int| 0 <= i < laps@.len() && #[trigger] laps@[i] >= lap_count ==> outcome is Some,
        outcome is None ==> forall|i: int| 0 <= i < laps@.len() ==> #[trigger] laps@[i] < lap_count,
        outcome matches Some((phase, event)) ==> {
            &&& phase == RacePhase::Finished
            &&& phase_order(phase) == phase_order(RacePhase::Racing) + 1
            &&& event.ranking@ == leaderboard.0@
        },
{
    let mut i: usize = 0;
    while i < laps.len()
        invariant
            i <= laps@.len(),
            forall|j: int| 0 <= j < i ==> #[trigger] laps@[j] < lap_count,
        decreases laps@.len() - i,
    {
        if laps[i] >= lap_count {
            let mut ranking: Vec<u64> = Vec::new();
            let mut k: usize = 0;
            while k < leaderboard.0.len()
                invariant
                    k <= leaderboard.0@.len(),
                    ranking@ == leaderboard.0@.take(k as int),
                decreases leaderboard.0@.len() - k,
            {
                ranking.push(leaderboard.0[k]);
                assert(leaderboard.0@.take(k + 1) =~= leaderboard.0@.take(k as int).push(
                    leaderboard.0@[k as int],
                ));
                k += 1;
            }
            assert(leaderboard.0@.take(k as int) =~= leaderboard.0@);
            return Some((RacePhase::Finished, RaceFinishedEvent { ranking }));
        }
        i += 1;
    }
    proof {
        lemma_finish_decided_by_every_bike(laps@, lap_count);
    }
    None
}

/// Every bike counts for the end of the race, wherever it stands in the list: the
/// race is over once any one bike has completed `lap_count` laps, and goes on
/// exactly while every bike has completed fewer.
pub proof fn lemma_finish_decided_by_every_bike(laps: Seq<u32>, lap_count: u32)
    ensures
        forall|i: int| 0 <= i < laps.len() && #[trigger] laps[i] >= lap_count ==> someone_finished(
            laps,
            lap_count,
        ),
        !someone_finished(laps, lap_count) <==> forall|i: int|
            0 <= i < laps.len() ==> #[trigger] laps[i] < lap_count,
{
}

} // verus!
