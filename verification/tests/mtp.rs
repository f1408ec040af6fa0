use peregrine_model::mtp::{
    granted_pin_budget, plan_pins, split_resident, MtpPins, PIN_REFRESH_ROUNDS,
};
use peregrine_model::prefetch::WarmStep;

#[test]
fn a_cold_table_pins_nothing() {
    // No routing observed says nothing of which experts matter, so the budget
    // stays unspent.
    let counts = vec![0u32; 8];
    assert!(plan_pins(&counts, usize::MAX, |_| 16).is_empty());
}

#[test]
fn hottest_first_and_budget_bounded() {
    let mut counts = vec![0u32; 8];
    counts[5] = 9;
    counts[2] = 40;
    counts[7] = 3;
    // Room for exactly two experts of 16 bytes.
    assert_eq!(plan_pins(&counts, 32, |_| 16), vec![2, 5]);
    // Room for all three.
    assert_eq!(plan_pins(&counts, 48, |_| 16), vec![2, 5, 7]);
    // Room for none.
    assert!(plan_pins(&counts, 8, |_| 16).is_empty());
}

#[test]
fn equal_counts_keep_ascending_expert_id() {
    let counts = vec![7u32, 7, 7, 7];
    assert_eq!(plan_pins(&counts, 32, |_| 16), vec![0, 1]);
}

#[test]
fn bump_ignores_other_layers_and_out_of_range_experts() {
    let mut p = MtpPins::new(78, 4);
    p.bump(78, 1);
    p.bump(77, 1); // a main-stack layer must not reach this table
    p.bump(78, 9); // out of range
    assert_eq!(p.snapshot(), vec![0, 1, 0, 0]);
    assert_eq!(p.layer(), 78);
}

#[test]
fn refresh_fires_once_per_generation() {
    let mut p = MtpPins::new(0, 1);
    let fired: u64 = (0..PIN_REFRESH_ROUNDS * 3).filter(|_| p.note_round()).count() as u64;
    assert_eq!(fired, 3, "one refresh per {PIN_REFRESH_ROUNDS} draft rounds");
}

#[test]
fn a_size_that_does_not_fit_ends_the_plan() {
    // A colder, smaller expert never fills the gap a hotter one left.
    let counts = vec![5u32, 9, 1];
    assert_eq!(plan_pins(&counts, 40, |e| if e == 0 { 64 } else { 16 }), vec![1]);
    // An expert of no size ends it too.
    assert!(plan_pins(&counts, 40, |_| 0).is_empty());
    assert!(plan_pins(&counts, 0, |_| 16).is_empty());
}

#[test]
fn only_a_changed_pin_set_is_reported() {
    let mut p = MtpPins::new(3, 2);
    assert_eq!(p.applied(), 0);
    assert!(p.note_applied(0), "the first application is a change");
    assert!(!p.note_applied(0));
    assert!(p.note_applied(2));
    assert_eq!(p.applied(), 2);
}

#[test]
fn a_pin_budget_is_half_its_tier_at_most() {
    let g = granted_pin_budget(100, 100);
    assert_eq!(g.bytes, 50);
    assert!(g.clamped);
    let g = granted_pin_budget(50, 101);
    assert_eq!(g.bytes, 50);
    assert!(!g.clamped);
}

#[test]
fn pins_split_into_held_and_missing() {
    let s = split_resident(&vec![4, 7, 9], &vec![true, false, true]);
    assert_eq!(s.pin, vec![4, 9]);
    assert_eq!(s.warm, vec![7]);
}

#[test]
fn a_refresh_plans_in_heat_order_and_reads_in_id_order() {
    let mut p = MtpPins::new(5, 4);
    for _ in 0..3 {
        p.bump(5, 3);
    }
    p.bump(5, 1);
    // Two experts of 16 bytes fit in the granted half of 64.
    match p.refresh(1000, 16, 64) {
        Some(plan) => {
            assert_eq!(plan.ids, vec![1, 3]);
            assert_eq!(plan.budget.bytes, 32);
            assert!(plan.budget.clamped && plan.changed);
        }
        None => panic!("there is a budget and a routed expert"),
    }
}

#[test]
fn a_refresh_without_budget_or_routing_records_nothing() {
    let mut p = MtpPins::new(5, 4);
    assert!(p.refresh(1000, 16, 64).is_none(), "nothing was routed");
    p.bump(5, 0);
    assert!(p.refresh(0, 16, 64).is_none(), "there is no budget");
    assert_eq!(p.applied(), 0);
}

#[test]
fn a_larger_budget_only_appends() {
    let counts = vec![3u32, 9, 0, 9, 5, 1];
    let size = |e: usize| 8 * (e + 1);
    let mut last = Vec::new();
    for budget in 0..200 {
        let pins = plan_pins(&counts, budget, size);
        assert!(pins.starts_with(&last), "{pins:?} does not extend {last:?}");
        last = pins;
    }
    assert_eq!(last, vec![1, 3, 4, 0, 5]);
}

#[test]
fn absent_pins_are_read_in_deliberately() {
    let split = split_resident(&vec![2, 5, 7], &vec![false, true, false]);
    let mut b = split.warm_batch(78);
    assert_eq!(b.step(u64::MAX, 0, false), WarmStep::Read((78, 2)));
    assert_eq!(b.step(u64::MAX, 0, false), WarmStep::Read((78, 7)));
    assert!(b.is_empty());
}

#[test]
fn no_size_is_asked_for_before_anything_was_drafted() {
    let mut pins = MtpPins::new(3, 4);
    assert!(!pins.plans(100));
    pins.bump(3, 2);
    assert!(pins.plans(100) && !pins.plans(0));
}
