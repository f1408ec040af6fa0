use peregrine_model::mtp::MtpPins;
use peregrine_model::prefetch::WarmStep;
use peregrine_model::residency::{
    enqueue_expert_replicas, folded_layers, merge_spills, rebuild_affinity, reheat, replica_batch,
};

#[test]
fn merge_spills_bumps_by_multiplicity_and_ignores_out_of_range() {
    let mut counts = vec![10u32, 0, 0, 0, 0, 0, 5, 0];
    merge_spills(&mut counts, &[(1, 2), (0, 0), (1, 2), (1, 2), (7, 3)], 4);
    assert_eq!(counts, vec![11, 0, 0, 0, 0, 0, 8, 0]);
    // Saturation, not overflow, at the ceiling.
    let mut hot = vec![u32::MAX];
    merge_spills(&mut hot, &[(0, 0)], 1);
    assert_eq!(hot, vec![u32::MAX]);
    // Empty drain is a no-op.
    let mut same = vec![3u32, 4];
    merge_spills(&mut same, &[], 2);
    assert_eq!(same, vec![3, 4]);
}

#[test]
fn the_hottest_device_held_experts_are_replicated() {
    // Two layers of three experts, the first dense.
    let on_device = vec![true, true, true, true, false, true];
    let warm = vec![false, false, false, false, false, false];
    let heat = vec![9, 9, 9, 4, 8, 4];
    // Equal heat keeps the entries' order; what is off the device never counts.
    assert_eq!(enqueue_expert_replicas(&on_device, &warm, &heat, 3, 1), vec![3]);
    assert_eq!(enqueue_expert_replicas(&on_device, &warm, &heat, 3, 9), vec![3, 5]);
    assert_eq!(enqueue_expert_replicas(&on_device, &warm, &heat, 0, 2), vec![0, 1]);
    assert!(enqueue_expert_replicas(&on_device, &warm, &heat, 3, 0).is_empty());
    // A warm one is not read again, and its place is not given away.
    let warm = vec![false, false, false, true, false, false];
    assert!(enqueue_expert_replicas(&on_device, &warm, &heat, 3, 1).is_empty());
}

#[test]
fn experts_that_fire_together_share_their_least_member() {
    let groups = rebuild_affinity(&vec![(7, 3), (9, 8), (3, 5), (5, 7), (4, 4)]);
    let mut listed: Vec<(u32, u32)> = groups.into_iter().collect();
    listed.sort_unstable();
    assert_eq!(listed, vec![(3, 3), (5, 3), (7, 3), (8, 8), (9, 8)]);
    assert!(rebuild_affinity(&vec![]).is_empty());
}

#[test]
fn late_pairs_join_groups_already_made() {
    let groups = rebuild_affinity(&vec![(1, 2), (5, 6), (2, 6)]);
    assert_eq!(groups.len(), 4);
    assert!(groups.values().all(|&g| g == 1));
}

#[test]
fn only_sparse_layers_that_routed_are_folded() {
    assert_eq!(folded_layers(&vec![true, false, true, true], 1), vec![2, 3]);
    assert!(folded_layers(&vec![true], 4).is_empty());
}

#[test]
fn a_generation_is_ranked_by_heat_spills_and_pins_together() {
    let mut pins = MtpPins::new(2, 3);
    pins.bump(2, 1);
    let spills: [(usize, usize); 2] = [(1, 0), (1, 0)];
    let r = reheat(Some(vec![4, 4, 4, 4]), Some(&spills), 2, Some(&pins), Some(" 2 "), Some("3"))
        .expect("there is a heat table");
    assert_eq!(r.counts, vec![4, 4, 6, 4]);
    let p = r.pins.expect("there is a pin table");
    assert_eq!((p.counts, p.layer, p.budget), (vec![0, 1, 0], 2, 2 << 20));
    assert_eq!(r.replicas, 3);
}

#[test]
fn a_generation_without_spills_or_head_is_the_heat_alone() {
    let r = reheat(Some(vec![7, 1]), None, 2, None, Some("64"), None).expect("there is a heat table");
    assert_eq!(r.counts, vec![7, 1]);
    assert!(r.pins.is_none());
    assert_eq!(r.replicas, 0);
    assert!(reheat(None, None, 2, None, None, Some("3")).is_none());
}

#[test]
fn a_spill_far_past_the_table_is_ignored() {
    let mut counts = vec![3u32];
    merge_spills(&mut counts, &[(1 << 62, 0), (usize::MAX, usize::MAX), (0, usize::MAX)], 4);
    assert_eq!(counts, vec![3]);
}

#[test]
fn replicas_are_read_in_deliberately() {
    let mut b = replica_batch(&vec![5, 3], 2);
    assert_eq!(b.step(u64::MAX, 0, false), WarmStep::Read((2, 1)));
    assert_eq!(b.step(u64::MAX, 0, false), WarmStep::Read((1, 1)));
    assert!(b.is_empty());
}
