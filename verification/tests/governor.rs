use peregrine_model::governor::{
    entropy_wanted, reads_to_note, thermal_limit, GovernorSettings, GovernorState, IowqCap, KnobArm,
    LaneSample, Pacer, Power, SensorReading,
};

fn reading(temp: Option<i32>, power: Power, plateau: bool) -> SensorReading {
    SensorReading { cpu_us: 10, cpu_bytes: 10, plateau, temp, power }
}

fn settings(thermal: Option<i32>, power: bool, bandwidth: bool) -> GovernorSettings {
    GovernorSettings { thermal, power, bandwidth }
}

#[test]
fn a_governor_nobody_asked_for_does_nothing() {
    let mut g = GovernorState::new(8);
    for _ in 0..40 {
        assert_eq!(g.step(&settings(None, false, false), &reading(Some(200), Power::Over, true), 8), 0);
    }
    assert_eq!(g.tick, 40);
}

#[test]
fn sensors_are_read_every_sixteenth_forward() {
    let mut g = GovernorState::new(8);
    let s = settings(Some(80), false, false);
    let mut deltas = Vec::new();
    for _ in 0..32 {
        let due = g.sensors_due();
        let d = g.step(&s, &reading(Some(90), Power::Unread, false), 8);
        assert_eq!(due, d != 0);
        deltas.push(d);
    }
    assert_eq!(deltas.iter().filter(|d| **d == -1).count(), 2);
    assert_eq!(deltas[15], -1);
}

#[test]
fn a_hot_machine_shrinks_whatever_else_would_grow() {
    let mut g = GovernorState { tick: 15, base_workers: 8, last_probe: 0 };
    assert_eq!(g.step(&settings(Some(80), true, false), &reading(Some(81), Power::Low, false), 4), -1);
    // Eight degrees below is not yet cool enough; nine is.
    let mut g = GovernorState { tick: 15, base_workers: 8, last_probe: 0 };
    assert_eq!(g.step(&settings(Some(80), false, false), &reading(Some(72), Power::Unread, false), 4), 0);
    let mut g = GovernorState { tick: 15, base_workers: 8, last_probe: 0 };
    assert_eq!(g.step(&settings(Some(80), false, false), &reading(Some(71), Power::Unread, false), 4), 1);
    // Nothing grows at the full count.
    let mut g = GovernorState { tick: 15, base_workers: 8, last_probe: 0 };
    assert_eq!(g.step(&settings(Some(80), false, false), &reading(Some(20), Power::Unread, false), 8), 0);
}

#[test]
fn power_above_its_cap_shrinks_and_well_below_it_grows() {
    let at = |power: Power| {
        let mut g = GovernorState { tick: 31, base_workers: 8, last_probe: 0 };
        g.step(&settings(None, true, false), &reading(None, power, false), 4)
    };
    assert_eq!((at(Power::Over), at(Power::Low), at(Power::Steady), at(Power::Unread)), (-1, 1, 0, 0));
}

#[test]
fn a_plateau_shrinks_and_a_probe_regrows() {
    let s = settings(None, false, true);
    let mut g = GovernorState::new(8);
    assert_eq!(g.step(&s, &reading(None, Power::Unread, true), 4), -1);
    // Two workers are the floor.
    assert_eq!(g.step(&s, &reading(None, Power::Unread, true), 2), 0);
    // The probe clock restarts even where there was no room to probe.
    let mut g = GovernorState { tick: 255, base_workers: 8, last_probe: 0 };
    assert_eq!(g.step(&s, &reading(None, Power::Unread, false), 8), 0);
    assert_eq!(g.last_probe, 256);
    let mut g = GovernorState { tick: 255, base_workers: 8, last_probe: 0 };
    assert_eq!(g.step(&s, &reading(None, Power::Unread, false), 7), 1);
    // Without a measurement there is nothing to judge.
    let idle = SensorReading { cpu_us: 0, cpu_bytes: 0, plateau: true, temp: None, power: Power::Unread };
    assert_eq!(g.step(&s, &idle, 4), 0);
}

#[test]
fn limits_are_read_as_signed_degrees() {
    assert_eq!(thermal_limit(Some(" -5 ")), Some(-5));
    assert_eq!(thermal_limit(Some("+90")), Some(90));
    assert_eq!(thermal_limit(Some("2147483648")), None);
    assert_eq!(thermal_limit(Some("-2147483648")), Some(i32::MIN));
    assert_eq!(thermal_limit(Some("-")), None);
    assert_eq!(thermal_limit(Some("hot")), None);
    assert_eq!(thermal_limit(None), None);
}

fn sample(n: u64) -> LaneSample {
    LaneSample {
        io_us: n,
        cpu_us: 2 * n,
        gpu_us: 0,
        reduce_us: 1,
        cpu_bytes: n,
        lane_wall_us: n,
        cache_wait_us: 0,
    }
}

#[test]
fn a_throttle_is_not_undone_by_the_forward_that_applied_it() {
    let mut p = Pacer::new(8);
    let ceil = p.publish(sample(5), -1);
    assert_eq!((ceil, p.effective_workers()), (7, 7));
    p.stage(KnobArm { prefetch_distance: 3, workers: 8 }, ceil);
    assert_eq!(p.effective_workers(), 7);
    assert_eq!(p.learner_sees(), KnobArm { prefetch_distance: 3, workers: 7 });
    // Without a shrink the whole count is open again, and two is the floor.
    let ceil = p.publish(sample(1), 0);
    p.stage(KnobArm { prefetch_distance: 0, workers: 99 }, ceil);
    assert_eq!(p.effective_workers(), 8);
    assert_eq!(p.learner_sees().prefetch_distance, 1, "a floor of one");
    p.stage(KnobArm { prefetch_distance: 1, workers: 0 }, 8);
    assert_eq!(p.effective_workers(), 2);
    assert_eq!(p.publish(sample(1), -1), 2);
}

#[test]
fn forwards_add_up() {
    let mut p = Pacer::new(4);
    p.publish(sample(5), 0);
    p.publish(sample(7), 0);
    let (t, n) = p.lane_totals();
    assert_eq!((t.io_us, t.cpu_us, t.reduce_us, n), (12, 24, 2, 2));
    assert_eq!(p.last_lane_timings(), sample(7));
}

#[test]
fn only_a_fresh_frame_is_folded() {
    let mut p = Pacer::new(4);
    assert!(!p.take_fresh());
    p.note_routing();
    assert!(p.take_fresh());
    assert!(!p.take_fresh(), "a frozen frame is not folded again");
}

#[test]
fn a_cap_is_set_when_it_changes() {
    let cap = |n: u32| IowqCap { bounded: n, unbounded: n };
    let mut p = Pacer::new(4);
    assert_eq!(p.recommend(None), None);
    assert_eq!(p.recommend(Some(cap(4))), Some(cap(4)));
    assert_eq!(p.recommend(Some(cap(4))), None);
    assert_eq!(p.recommend(None), None);
    assert_eq!(p.last_iowq(), Some(cap(4)));
    assert_eq!(p.recommend(Some(cap(2))), Some(cap(2)));
}

#[test]
fn the_tuner_hears_of_reads_and_rejections() {
    assert_eq!(reads_to_note(0, &vec![0, 0]), None);
    assert_eq!(reads_to_note(9, &vec![]), Some((9, 0)));
    assert_eq!(reads_to_note(0, &vec![2, 3]), Some((0, 5)));
    assert!(entropy_wanted(false, true, false) && !entropy_wanted(false, false, false));
}

#[test]
fn a_model_built_with_one_worker_runs_with_one() {
    let mut p = Pacer::new(1);
    assert_eq!(p.publish(LaneSample::zero(), 0), 1);
    assert_eq!(p.effective_workers(), 1);
    assert_eq!(Pacer::new(0).effective_workers(), 1);
}

#[test]
fn no_temperature_lies_below_the_lowest_limit() {
    let mut g = GovernorState::new(8);
    for _ in 0..32 {
        assert_eq!(g.step(&settings(Some(i32::MIN), false, false), &reading(Some(i32::MIN), Power::Unread, false), 4), 0);
    }
}
