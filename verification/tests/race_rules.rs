use std::time::Duration;

use redox_race::electrons::{
    bike_redox_exchange_system, bike_redox_pairs, electron_transfer_system, potential_difference,
    zone_detection_system, BikeCharge, ElectronTransferEvent, OxidantHazard, RedoxContact,
    ReductantPad, ZoneContacts,
};
use redox_race::laps::{
    checkpoint_and_lap_system, lap_feedback_system, Checkpoint, CheckpointPassedEvent,
    LapCompletedEvent, LapProgress,
};
use redox_race::phase::{countdown_system, race_finish_system, RacePhase};
use redox_race::ranking::{distance_order_key, ranking_system, BikeDistance, Leaderboard};
use redox_race::roster::{ai_starting_electrons, DEFAULT_LAP_COUNT};
use redox_race::wear::{corrosion_system, redox_pressure, CorrosionEvent, CorrosionStep, RedoxPressure};

fn ev(bike: u64, delta: i32) -> ElectronTransferEvent {
    ElectronTransferEvent { bike, delta }
}

fn charge(bike: u64, electrons: i32) -> BikeCharge {
    BikeCharge { bike, electrons }
}

// ---------------------------------------------------------------- phases

#[test]
fn race_starts_when_countdown_finishes() {
    assert_eq!(countdown_system(true), Some(RacePhase::Racing));
    assert_eq!(countdown_system(false), None);
}

#[test]
fn race_phase_starts_in_countdown() {
    assert_eq!(RacePhase::default(), RacePhase::Countdown);
}

#[test]
fn race_finishes_when_any_bike_reaches_lap_count() {
    let board = Leaderboard(vec![7, 3, 5]);
    let outcome = race_finish_system(&vec![0, 1, 0], 1, &board);
    let (phase, event) = outcome.expect("a bike has completed the race");
    assert_eq!(phase, RacePhase::Finished);
    assert_eq!(event.ranking, vec![7, 3, 5]);
}

#[test]
fn race_goes_on_while_no_bike_reached_lap_count() {
    let board = Leaderboard(vec![1, 2]);
    assert!(race_finish_system(&vec![0, 1], 2, &board).is_none());
    assert!(race_finish_system(&vec![], 1, &board).is_none());
}

#[test]
fn race_with_zero_laps_finishes_at_once() {
    let board = Leaderboard(vec![4]);
    assert!(race_finish_system(&vec![0], 0, &board).is_some());
}

// ---------------------------------------------------------------- zones

#[test]
fn zones_add_and_remove_electrons() {
    let contacts = vec![
        ZoneContacts {
            bike: 1,
            pads: vec![ReductantPad { electron_gain: 8 }],
            hazards: vec![OxidantHazard { electron_loss: 8 }],
        },
        ZoneContacts { bike: 2, pads: vec![], hazards: vec![] },
        ZoneContacts {
            bike: 3,
            pads: vec![ReductantPad { electron_gain: 2 }, ReductantPad { electron_gain: 5 }],
            hazards: vec![],
        },
    ];
    assert_eq!(
        zone_detection_system(&contacts),
        vec![ev(1, 8), ev(1, -8), ev(3, 2), ev(3, 5)]
    );
}

#[test]
fn zones_net_effect_on_bike() {
    let contacts = vec![ZoneContacts {
        bike: 5,
        pads: vec![ReductantPad { electron_gain: 8 }, ReductantPad { electron_gain: 2 }],
        hazards: vec![OxidantHazard { electron_loss: 8 }],
    }];
    let events = zone_detection_system(&contacts);
    let mut counts = vec![charge(5, -1), charge(6, 3)];
    assert!(electron_transfer_system(&mut counts, &events).is_ok());
    assert_eq!(counts, vec![charge(5, 1), charge(6, 3)]);
}

#[test]
fn no_zone_contacts_no_transfers() {
    assert!(zone_detection_system(&vec![]).is_empty());
}

// ---------------------------------------------------------------- bike exchange

#[test]
fn every_pair_of_bikes_once_in_nested_order() {
    assert_eq!(bike_redox_pairs(3), vec![(0, 1), (0, 2), (1, 2)]);
    assert_eq!(
        bike_redox_pairs(4),
        vec![(0, 1), (0, 2), (0, 3), (1, 2), (1, 3), (2, 3)]
    );
    assert!(bike_redox_pairs(1).is_empty());
    assert!(bike_redox_pairs(0).is_empty());
}

#[test]
fn potential_difference_of_two_counts() {
    assert_eq!(potential_difference(5, -3), Some(8));
    assert_eq!(potential_difference(-12, 12), Some(-24));
    assert_eq!(potential_difference(i32::MIN, 1), None);
    assert_eq!(potential_difference(i32::MAX, -1), None);
}

#[test]
fn exchange_moves_flow_from_a_to_b() {
    let contacts = vec![
        RedoxContact { bike_a: 1, bike_b: 2, flow: 3 },
        RedoxContact { bike_a: 2, bike_b: 3, flow: 0 },
        RedoxContact { bike_a: 1, bike_b: 3, flow: -2 },
    ];
    let events = bike_redox_exchange_system(&contacts);
    assert_eq!(events, vec![ev(1, -3), ev(2, 3), ev(1, 2), ev(3, -2)]);
    assert_eq!(events.iter().map(|e| e.delta).sum::<i32>(), 0);
}

#[test]
fn exchange_conserves_electrons_between_bikes() {
    let mut counts = vec![charge(1, 12), charge(2, -4), charge(3, 0)];
    let before: i32 = counts.iter().map(|c| c.electrons).sum();
    let contacts = vec![
        RedoxContact { bike_a: 1, bike_b: 2, flow: 5 },
        RedoxContact { bike_a: 3, bike_b: 1, flow: -1 },
    ];
    let events = bike_redox_exchange_system(&contacts);
    assert!(electron_transfer_system(&mut counts, &events).is_ok());
    let after: i32 = counts.iter().map(|c| c.electrons).sum();
    assert_eq!(before, after);
    assert_eq!(counts, vec![charge(1, 6), charge(2, 1), charge(3, 1)]);
}

// ---------------------------------------------------------------- transfers

#[test]
fn transfers_add_up_per_bike() {
    let mut counts = vec![charge(1, 0), charge(2, 5)];
    let events = vec![ev(1, 3), ev(2, -1), ev(9, 100), ev(1, -1)];
    assert!(electron_transfer_system(&mut counts, &events).is_ok());
    assert_eq!(counts, vec![charge(1, 2), charge(2, 4)]);
}

#[test]
fn transfer_overflow_at_any_step_is_reported_and_changes_nothing() {
    let mut counts = vec![charge(1, i32::MAX), charge(2, 0)];
    let events = vec![ev(2, 4), ev(1, 1), ev(1, -1)];
    assert!(electron_transfer_system(&mut counts, &events).is_err());
    assert_eq!(counts, vec![charge(1, i32::MAX), charge(2, 0)]);
}

#[test]
fn transfer_down_to_min_is_fine() {
    let mut counts = vec![charge(1, i32::MIN + 1)];
    assert!(electron_transfer_system(&mut counts, &vec![ev(1, -1)]).is_ok());
    assert_eq!(counts, vec![charge(1, i32::MIN)]);
}

// ---------------------------------------------------------------- wear

#[test]
fn redox_pressure_by_sign() {
    assert_eq!(redox_pressure(-4), RedoxPressure::Oxidizing { excess: 4 });
    assert_eq!(redox_pressure(5), RedoxPressure::Reducing { surplus: 5 });
    assert_eq!(redox_pressure(0), RedoxPressure::Balanced);
    assert_eq!(redox_pressure(i32::MIN + 1), RedoxPressure::Oxidizing { excess: 2147483647 });
}

#[test]
fn corrosion_decisions() {
    assert_eq!(
        corrosion_system(9, false, true, false),
        CorrosionStep::Corrode(CorrosionEvent { bike: 9 })
    );
    assert_eq!(corrosion_system(9, false, false, true), CorrosionStep::Unchanged);
    assert_eq!(corrosion_system(9, true, true, true), CorrosionStep::Recover);
    assert_eq!(corrosion_system(9, true, true, false), CorrosionStep::Unchanged);
}

// ---------------------------------------------------------------- laps

#[test]
fn lap_progress_starts_empty() {
    let progress = LapProgress::default();
    assert_eq!(progress.current_lap, 0);
    assert!(progress.checkpoints_hit.is_empty());
}

#[test]
fn checkpoint_announced_once_per_lap_and_lap_completes_at_finish() {
    let mut progress = LapProgress::default();
    let gate = vec![Checkpoint { index: 0 }];
    let t = Duration::from_millis(1500);

    let first = checkpoint_and_lap_system(4, &mut progress, &gate, 0, t).unwrap();
    assert_eq!(first.checkpoints, vec![CheckpointPassedEvent { bike: 4, index: 0 }]);
    assert!(first.laps.is_empty());
    assert!(progress.checkpoints_hit.contains(&0));

    let again = checkpoint_and_lap_system(4, &mut progress, &gate, 0, t).unwrap();
    assert!(again.checkpoints.is_empty());
    assert!(again.laps.is_empty());

    let finish_time = Duration::from_secs(20);
    let lap = checkpoint_and_lap_system(4, &mut progress, &vec![], 1, finish_time).unwrap();
    assert!(lap.checkpoints.is_empty());
    assert_eq!(lap.laps.len(), 1);
    assert_eq!(lap.laps[0].bike, 4);
    assert_eq!(lap.laps[0].lap, 1);
    assert_eq!(lap.laps[0].time, finish_time);
    assert_eq!(progress.current_lap, 1);
    assert!(progress.checkpoints_hit.is_empty());

    let next_lap = checkpoint_and_lap_system(4, &mut progress, &gate, 0, t).unwrap();
    assert_eq!(next_lap.checkpoints, vec![CheckpointPassedEvent { bike: 4, index: 0 }]);
}

#[test]
fn finish_without_checkpoints_is_no_lap() {
    let mut progress = LapProgress::default();
    let out = checkpoint_and_lap_system(1, &mut progress, &vec![], 2, Duration::ZERO).unwrap();
    assert!(out.checkpoints.is_empty());
    assert!(out.laps.is_empty());
    assert_eq!(progress.current_lap, 0);
}

#[test]
fn checkpoint_and_finish_in_one_frame_completes_lap() {
    let mut progress = LapProgress::default();
    let gates = vec![Checkpoint { index: 2 }, Checkpoint { index: 2 }, Checkpoint { index: 1 }];
    let out = checkpoint_and_lap_system(8, &mut progress, &gates, 1, Duration::from_secs(3)).unwrap();
    assert_eq!(
        out.checkpoints,
        vec![
            CheckpointPassedEvent { bike: 8, index: 2 },
            CheckpointPassedEvent { bike: 8, index: 1 }
        ]
    );
    assert_eq!(out.laps.len(), 1);
    assert_eq!(progress.current_lap, 1);
    assert!(progress.checkpoints_hit.is_empty());
}

#[test]
fn lap_counter_overflow_is_reported_and_changes_nothing() {
    let mut progress = LapProgress::default();
    progress.current_lap = u32::MAX;
    progress.checkpoints_hit.insert(3);
    let gates = vec![Checkpoint { index: 5 }];
    assert!(checkpoint_and_lap_system(1, &mut progress, &gates, 1, Duration::ZERO).is_err());
    assert_eq!(progress.current_lap, u32::MAX);
    assert_eq!(progress.checkpoints_hit.len(), 1);
    assert!(progress.checkpoints_hit.contains(&3));

    let without_finish = checkpoint_and_lap_system(1, &mut progress, &gates, 0, Duration::ZERO);
    assert!(without_finish.is_ok());
}

#[test]
fn lap_times_are_recorded_in_order() {
    let mut times = vec![Duration::from_secs(1)];
    let events = vec![
        LapCompletedEvent { bike: 1, lap: 1, time: Duration::from_secs(10) },
        LapCompletedEvent { bike: 2, lap: 1, time: Duration::from_secs(12) },
    ];
    lap_feedback_system(&mut times, &events);
    assert_eq!(
        times,
        vec![Duration::from_secs(1), Duration::from_secs(10), Duration::from_secs(12)]
    );
}

// ---------------------------------------------------------------- ranking

#[test]
fn order_keys_follow_float_order() {
    let values: Vec<f32> = vec![
        f32::NEG_INFINITY,
        -1.0e30,
        -2.5,
        -1.0,
        -f32::MIN_POSITIVE,
        -1.0e-45,
        -0.0,
        0.0,
        1.0e-45,
        f32::MIN_POSITIVE,
        0.5,
        1.0,
        210.0,
        f32::MAX,
        f32::INFINITY,
    ];
    for &a in &values {
        for &b in &values {
            let ka = distance_order_key(a.to_bits()).unwrap();
            let kb = distance_order_key(b.to_bits()).unwrap();
            assert_eq!(ka.cmp(&kb), a.partial_cmp(&b).unwrap(), "{a} vs {b}");
        }
    }
}

#[test]
fn nan_has_no_order_key() {
    assert_eq!(distance_order_key(f32::NAN.to_bits()), None);
    assert_eq!(distance_order_key((-f32::NAN).to_bits()), None);
    assert_eq!(distance_order_key(0x7F80_0001), None);
}

#[test]
fn ranking_is_farthest_first_and_stable() {
    let d = |bike: u64, x: f32| BikeDistance { bike, distance_bits: x.to_bits() };
    let distances = vec![d(10, 1.0), d(11, 5.0), d(12, 1.0), d(13, -2.0), d(14, -0.0), d(15, 0.0)];
    let board = ranking_system(&distances).unwrap();
    assert_eq!(board.0, vec![11, 10, 12, 14, 15, 13]);
}

#[test]
fn ranking_with_nan_between_bikes_fails() {
    let distances = vec![
        BikeDistance { bike: 1, distance_bits: 3.0f32.to_bits() },
        BikeDistance { bike: 2, distance_bits: f32::NAN.to_bits() },
    ];
    assert!(ranking_system(&distances).is_none());
}

#[test]
fn ranking_single_or_no_bike() {
    let single = vec![BikeDistance { bike: 6, distance_bits: f32::NAN.to_bits() }];
    assert_eq!(ranking_system(&single).unwrap().0, vec![6]);
    assert!(ranking_system(&vec![]).unwrap().0.is_empty());
}

// ---------------------------------------------------------------- roster

#[test]
fn ai_bikes_start_spread_around_zero() {
    let counts: Vec<i32> = (0..7).map(ai_starting_electrons).collect();
    assert_eq!(counts, vec![-12, -8, -4, 0, 4, 8, 12]);
    assert_eq!(DEFAULT_LAP_COUNT, 1);
}
