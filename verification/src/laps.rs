use std::collections::HashSet;
use std::time::Duration;
use vstd::prelude::*;

verus! {

broadcast use vstd::std_specs::hash::group_hash_axioms;

/// How far a bike is through the race: the laps it has completed and the
/// checkpoints it has passed since it last crossed the finish line.
pub struct LapProgress {
    pub current_lap: u32,
    pub checkpoints_hit: HashSet<u32>,
}

impl Default for LapProgress {
    fn default() -> (progress: Self)
        ensures
            progress.current_lap == 0,
            progress.checkpoints_hit@ == Set::<u32>::empty(),
    {
        LapProgress { current_lap: 0, checkpoints_hit: HashSet::new() }
    }
}

/// A checkpoint gate on the track.
#[derive(Clone, Copy, PartialEq, Eq, Structural, Debug)]
pub struct Checkpoint {
    pub index: u32,
}

/// A bike passed checkpoint `index` for the first time in its current lap.
#[derive(Clone, Copy, PartialEq, Eq, Structural, Debug)]
pub struct CheckpointPassedEvent {
    pub bike: u64,
    pub index: u32,
}

/// A bike completed lap number `lap`, at race time `time`.
#[derive(Clone, Copy)]
pub struct LapCompletedEvent {
    pub bike: u64,
    pub lap: u32,
    pub time: Duration,
}

/// What one bike's pass over the checkpoints and finish lines announces.
pub struct LapEvents {
    pub checkpoints: Vec<CheckpointPassedEvent>,
    pub laps: Vec<LapCompletedEvent>,
}

/// Completing one more lap would take the lap counter past `u32::MAX`.
#[derive(Clone, Copy, PartialEq, Eq, Structural, Debug)]
pub struct LapOverflow;

/// The indices, in order, of the checkpoints in `gates` that are announced when
/// `hits` were already passed: each gate whose index is not yet passed is
/// announced and counts as passed from then on.
pub open spec fn announced(hits: Set<u32>, gates: Seq<Checkpoint>) -> Seq<u32>
    decreases gates.len(),
{
    if gates.len() == 0 {
        Seq::empty()
    } else if hits.contains(gates[0].index) {
        announced(hits, gates.skip(1))
    } else {
        seq![gates[0].index] + announced(hits.insert(gates[0].index), gates.skip(1))
    }
}

/// The set of indices of `gates`.
pub open spec fn gate_indices(gates: Seq<Checkpoint>) -> Set<u32> {
    Set::new(|x: u32| exists|k: int| 0 <= k < gates.len() && #[trigger] gates[k].index == x)
}

/// Whether the bike completes a lap: it is at a finish line and has passed at
/// least one checkpoint in this lap, counting those it passes now.
pub open spec fn completes_lap(hits: Set<u32>, gates: Seq<Checkpoint>, finish_lines: nat) -> bool {
    finish_lines > 0 && !(hits + gate_indices(gates)).is_empty()
}

pub open spec fn passed_event(bike: u64, index: u32) -> CheckpointPassedEvent {
    CheckpointPassedEvent { bike, index }
}

proof fn lemma_announced_step(hits: Set<u32>, gates: Seq<Checkpoint>, i: int)
    requires
        0 <= i < gates.len(),
    ensures
        announced(hits, gates.skip(i)) == (if hits.contains(gates[i].index) {
            announced(hits, gates.skip(i + 1))
        } else {
            seq![gates[i].index] + announced(hits.insert(gates[i].index), gates.skip(i + 1))
        }),
{
    assert(gates.skip(i).skip(1) =~= gates.skip(i + 1));
    assert(gates.skip(i)[0] == gates[i]);
}

proof fn lemma_gate_indices_step(gates: Seq<Checkpoint>, i: int)
    requires
        0 <= i < gates.len(),
    ensures
        gate_indices(gates.take(i + 1)) == gate_indices(gates.take(i)).insert(gates[i].index),
{
    let a = gate_indices(gates.take(i + 1));
    let b = gate_indices(gates.take(i)).insert(gates[i].index);
    assert forall|x: u32| a.contains(x) implies b.contains(x) by {
        let k = choose|k: int| 0 <= k < gates.take(i + 1).len() && #[trigger] gates.take(i + 1)[k].index == x;
        if k < i {
            assert(gates.take(i)[k].index == x);
        }
    }
    assert forall|x: u32| b.contains(x) implies a.contains(x) by {
        if x == gates[i].index {
            assert(gates.take(i + 1)[i].index == x);
        } else {
            let k = choose|k: int| 0 <= k < gates.take(i).len() && #[trigger] gates.take(i)[k].index == x;
            assert(gates.take(i + 1)[k].index == x);
        }
    }
    assert(a =~= b);
}

/// Checkpoint and finish-line bookkeeping for one bike during one frame.
/// `gates` are the checkpoints the bike is within trigger range of, in the order
/// the checkpoints are visited; `finish_lines` is how many finish lines it is
/// within trigger range of; `elapsed` is the race time.
///
/// Each gate whose index the bike has not passed in this lap is recorded and
/// announced once. Then, if the bike is at a finish line and has passed some
/// checkpoint in this lap, the lap is completed: the lap counter goes up by one,
/// the passed checkpoints are forgotten, and the completed lap is announced with
/// the race time. Where that lap would take the counter past `u32::MAX`, nothing
/// is changed and the overflow is reported.
pub fn checkpoint_and_lap_system(
    bike: u64,
    progress: &mut LapProgress,
    gates: &Vec<Checkpoint>,
    finish_lines: usize,
    elapsed: Duration,
) -> (result: Result<LapEvents, LapOverflow>)
    ensures
        finish_lines == 0 ==> result is Ok && final(progress).current_lap == old(
            progress,
        ).current_lap,
        result matches Ok(events) ==> (events.laps@.len() > 0 <==> (finish_lines > 0 && (!old(
            progress,
        ).checkpoints_hit@.is_empty() || gates@.len() > 0))),
        result is Err <==> (completes_lap(
            old(progress).checkpoints_hit@,
            gates@,
            finish_lines as nat,
        ) && old(progress).current_lap == u32::MAX),
        result is Err ==> final(progress).current_lap == old(progress).current_lap
            && final(progress).checkpoints_hit@ == old(progress).checkpoints_hit@,
        result matches Ok(events) ==> {
            let hits = old(progress).checkpoints_hit@;
            let lap = old(progress).current_lap;
            &&& events.checkpoints@ == announced(hits, gates@).map_values(
                |i: u32| passed_event(bike, i),
            )
            &&& if completes_lap(hits, gates@, finish_lines as nat) {
                &&& final(progress).current_lap == lap + 1
                &&& final(progress).checkpoints_hit@ == Set::<u32>::empty()
                &&& events.laps@.len() == 1
                &&& events.laps@[0].bike == bike
                &&& events.laps@[0].lap == lap + 1
                &&& events.laps@[0].time == elapsed
            } else {
                &&& final(progress).current_lap == lap
                &&& final(progress).checkpoints_hit@ == hits + gate_indices(gates@)
                &&& events.laps@.len() == 0
            }
        },
{
    let ghost hits0 = progress.checkpoints_hit@;
    let ghost lap0 = progress.current_lap;
    proof {
        lemma_lap_needs_finish_line(hits0, gates@, finish_lines as nat);
    }
    proof {
        if gates@.len() > 0 {
            assert(gate_indices(gates@).contains(gates@[0].index));
            assert((hits0 + gate_indices(gates@)).contains(gates@[0].index));
        } else {
            assert(gate_indices(gates@) =~= Set::<u32>::empty());
            assert(hits0 + gate_indices(gates@) =~= hits0);
        }
    }
    let completes = finish_lines > 0 && (!progress.checkpoints_hit.is_empty() || gates.len() > 0);
    if completes && progress.current_lap == u32::MAX {
        return Err(LapOverflow);
    }
    let mut checkpoints: Vec<CheckpointPassedEvent> = Vec::new();
    let mut i: usize = 0;
    proof {
        assert(gates@.skip(0) =~= gates@);
        assert(gate_indices(gates@.take(0)) =~= Set::<u32>::empty());
        assert(hits0 + Set::<u32>::empty() =~= hits0);
    }
    while i < gates.len()
        invariant
            i <= gates@.len(),
            progress.current_lap == lap0,
            progress.checkpoints_hit@ == hits0 + gate_indices(gates@.take(i as int)),
            checkpoints@ + announced(progress.checkpoints_hit@, gates@.skip(i as int)).map_values(
                |x: u32| passed_event(bike, x),
            ) == announced(hits0, gates@).map_values(|x: u32| passed_event(bike, x)),
        decreases gates@.len() - i,
    {
        let index = gates[i].index;
        let ghost before = progress.checkpoints_hit@;
        proof {
            lemma_announced_step(before, gates@, i as int);
            lemma_gate_indices_step(gates@, i as int);
        }
        let ghost done = checkpoints@;
        let fresh = progress.checkpoints_hit.insert(index);
        if fresh {
            checkpoints.push(CheckpointPassedEvent { bike, index });
            let ghost rest = announced(before.insert(index), gates@.skip(i + 1));
            assert((seq![index] + rest).map_values(|x: u32| passed_event(bike, x)) =~= seq![
                passed_event(bike, index),
            ] + rest.map_values(|x: u32| passed_event(bike, x)));
            assert(checkpoints@ + rest.map_values(|x: u32| passed_event(bike, x)) =~= done
                + (seq![index] + rest).map_values(|x: u32| passed_event(bike, x)));
        } else {
            assert(progress.checkpoints_hit@ =~= before);
        }
        assert(progress.checkpoints_hit@ =~= hits0 + gate_indices(gates@.take(i + 1)));
        i += 1;
    }
    assert(gates@.take(i as int) =~= gates@);
    let mut laps: Vec<LapCompletedEvent> = Vec::new();
    if finish_lines > 0 && !progress.checkpoints_hit.is_empty() {
        progress.current_lap = progress.current_lap + 1;
        progress.checkpoints_hit.clear();
        laps.push(LapCompletedEvent { bike, lap: progress.current_lap, time: elapsed });
    }
    Ok(LapEvents { checkpoints, laps })
}

proof fn lemma_gate_indices_skip(gates: Seq<Checkpoint>)
    requires
        gates.len() > 0,
    ensures
        gate_indices(gates.skip(1)).subset_of(gate_indices(gates)),
        gate_indices(gates).contains(gates[0].index),
{
    assert forall|x: u32| gate_indices(gates.skip(1)).contains(x) implies gate_indices(gates).contains(x) by {
        let k = choose|k: int| 0 <= k < gates.skip(1).len() && #[trigger] gates.skip(1)[k].index == x;
        assert(gates[k + 1].index == x);
    }
    assert(gates[0].index == gates[0].index);
}

/// The checkpoints announced in one pass are new to the lap and distinct.
pub proof fn lemma_announced_are_new(hits: Set<u32>, gates: Seq<Checkpoint>)
    ensures
        forall|k: int| 0 <= k < announced(hits, gates).len() ==> !hits.contains(
            #[trigger] announced(hits, gates)[k],
        ),
        forall|k: int, l: int|
            0 <= k < l < announced(hits, gates).len() ==> #[trigger] announced(hits, gates)[k]
                != #[trigger] announced(hits, gates)[l],
    decreases gates.len(),
{
    if gates.len() > 0 {
        let g0 = gates[0].index;
        if hits.contains(g0) {
            lemma_announced_are_new(hits, gates.skip(1));
            assert(announced(hits, gates) == announced(hits, gates.skip(1)));
        } else {
            let h1 = hits.insert(g0);
            lemma_announced_are_new(h1, gates.skip(1));
            let rest = announced(h1, gates.skip(1));
            let all = announced(hits, gates);
            assert(all == seq![g0] + rest);
            assert forall|k: int| 0 <= k < all.len() implies !hits.contains(#[trigger] all[k]) by {
                if k > 0 {
                    assert(all[k] == rest[k - 1]);
                }
            }
            assert forall|k: int, l: int| 0 <= k < l < all.len() implies #[trigger] all[k]
                != #[trigger] all[l] by {
                assert(all[l] == rest[l - 1]);
                assert(!h1.contains(rest[l - 1]));
                if k > 0 {
                    assert(all[k] == rest[k - 1]);
                }
            }
        }
    } else {
        assert(announced(hits, gates).len() == 0);
    }
}

proof fn lemma_nothing_new(hits: Set<u32>, gates: Seq<Checkpoint>)
    requires
        gate_indices(gates).subset_of(hits),
    ensures
        announced(hits, gates) == Seq::<u32>::empty(),
    decreases gates.len(),
{
    if gates.len() > 0 {
        lemma_gate_indices_skip(gates);
        lemma_nothing_new(hits, gates.skip(1));
    }
}

/// A checkpoint is announced at most once per lap: the checkpoints announced in
/// one pass were not passed before and are distinct, and passing the same gates
/// again within the lap announces nothing.
pub proof fn lemma_checkpoint_announced_once_per_lap(hits: Set<u32>, gates: Seq<Checkpoint>)
    ensures
        forall|k: int| 0 <= k < announced(hits, gates).len() ==> !hits.contains(
            #[trigger] announced(hits, gates)[k],
        ),
        forall|k: int, l: int|
            0 <= k < l < announced(hits, gates).len() ==> #[trigger] announced(hits, gates)[k]
                != #[trigger] announced(hits, gates)[l],
        announced(hits + gate_indices(gates), gates) == Seq::<u32>::empty(),
{
    lemma_announced_are_new(hits, gates);
    lemma_nothing_new(hits + gate_indices(gates), gates);
}

/// When a lap is completed: exactly when the bike is at one or more finish lines
/// and has passed a checkpoint in this lap, earlier or in this very frame. No
/// finish line, no lap.
pub proof fn lemma_lap_needs_finish_line(hits: Set<u32>, gates: Seq<Checkpoint>, finish_lines: nat)
    ensures
        completes_lap(hits, gates, finish_lines) <==> (finish_lines > 0 && (!hits.is_empty()
            || gates.len() > 0)),
        finish_lines == 0 ==> !completes_lap(hits, gates, finish_lines),
{
    if gates.len() > 0 {
        assert(gate_indices(gates).contains(gates[0].index));
        assert((hits + gate_indices(gates)).contains(gates[0].index));
    } else {
        assert(gate_indices(gates) =~= Set::<u32>::empty());
        assert(hits + gate_indices(gates) =~= hits);
    }
}

/// Appends the race time of each completed lap, in order, to the recorded lap times.
pub fn lap_feedback_system(lap_times: &mut Vec<Duration>, events: &Vec<LapCompletedEvent>)
    ensures
        final(lap_times)@ == old(lap_times)@ + events@.map_values(|e: LapCompletedEvent| e.time),
{
    let ghost start = lap_times@;
    let mut i: usize = 0;
    while i < events.len()
        invariant
            i <= events@.len(),
            lap_times@ == start + events@.take(i as int).map_values(|e: LapCompletedEvent| e.time),
        decreases events@.len() - i,
    {
        lap_times.push(events[i].time);
        assert(events@.take(i + 1) =~= events@.take(i as int).push(events@[i as int]));
        assert(events@.take(i + 1).map_values(|e: LapCompletedEvent| e.time) =~= events@.take(
            i as int,
        ).map_values(|e: LapCompletedEvent| e.time).push(events@[i as int].time));
        i += 1;
    }
    assert(events@.take(i as int) =~= events@);
}

} // verus!
