use peregrine_model::prefetch::{
    affinity_due, class_settings, emit_layer, enqueue_seq_prefetch, lane, lookahead_issued, lookahead_reads, may_ask, pack_prio,
    prefetch_pays, prefetch_protect_default, protect_from, router_ranks_for_batch, rows_in,
    scan_width, settle_read, swept_layers, warm_item_is_stale, LookaheadCount, Predicted, PrefetchPolicy,
    SweepClock, TokenClass, WarmBatch, WarmStep, YieldGuard, PIN_PRIORITY,
};

#[test]
fn protect_default_follows_the_working_set_threshold() {
    let pass = 11_800_000_000u64;
    assert!(prefetch_protect_default(None, 4_290_000_000, pass), "below a pass: protect");
    assert!(!prefetch_protect_default(None, 12_880_000_000, pass), "above a pass: do not");
    // Exactly at the threshold the cache can hold a pass, so recency suffices.
    assert!(!prefetch_protect_default(None, pass as usize, pass));
    // No working-set figure keeps it on rather than guessing.
    assert!(prefetch_protect_default(None, 4_290_000_000, 0));
}

#[test]
fn the_protect_setting_decides_either_way() {
    assert!(!prefetch_protect_default(Some("0"), 1, 100));
    assert!(prefetch_protect_default(Some("true"), 100, 1));
    assert!(prefetch_protect_default(Some("maybe"), 1, 100));
}

#[test]
fn prefetch_guard_trips_on_the_measured_yield() {
    let g = YieldGuard::from_settings(None, None);
    // Under the sample floor, always keep speculating.
    assert!(prefetch_pays(&g, 100, 0));
    assert!(!prefetch_pays(&g, 4034, 3), "0.3% yield must stop the lane");
    assert!(prefetch_pays(&g, 1000, 25), "2.5% yield clears the 2% floor");
    // The boundary is inclusive.
    assert!(prefetch_pays(&g, 1000, 20));
    assert!(!prefetch_pays(&g, 1000, 19));
}

#[test]
fn the_yield_guard_can_be_turned_off() {
    let g = YieldGuard::from_settings(Some("10"), Some(" 0 "));
    assert_eq!((g.min_reads, g.min_yield), (10, 0));
    assert!(prefetch_pays(&g, u64::MAX, 0));
}

#[test]
fn stale_predicate_draws_the_window_where_the_emitter_designed_it() {
    assert!(!warm_item_is_stale(10, 10, 1), "same-step service is fresh");
    assert!(!warm_item_is_stale(11, 10, 1), "the target layer's own step is fresh");
    assert!(warm_item_is_stale(12, 10, 1), "one step past the target layer is stale");
    assert!(!warm_item_is_stale(u64::MAX, u64::MAX, 0), "bulk warms never go stale");
    assert!(!warm_item_is_stale(u64::MAX, 0, u64::MAX), "no dropping admits any age");
    assert_eq!(SweepClock::from_env_values(None, None).slack(), 1, "unset means dropping at slack 1");
    assert_eq!(
        SweepClock::from_env_values(Some("0"), None).slack(),
        u64::MAX,
        "=0 must serve everything"
    );
    assert_eq!(SweepClock::from_env_values(None, Some("3")).slack(), 3);
}

#[test]
fn the_clock_counts_layer_steps() {
    let mut c = SweepClock::from_env_values(None, None);
    assert_eq!(c.now(), 0);
    c.tick();
    c.tick();
    assert_eq!(c.now(), 2);
}

#[test]
fn a_stale_read_is_dropped_before_it_costs_one() {
    let mut b = WarmBatch::new(vec![(1, 2), (1, 3), (1, 4)], 10);
    assert_eq!(b.peek(), Some((1, 2)));
    assert_eq!(b.step(11, 1, false), WarmStep::Read((1, 2)));
    assert_eq!(b.step(11, 1, true), WarmStep::Skip);
    // The batch goes stale midway, and the window is judged before the cache.
    assert_eq!(b.step(12, 1, true), WarmStep::DropStale);
    assert_eq!(b.step(12, 1, false), WarmStep::Done);
    assert_eq!(b.peek(), None);
}

#[test]
fn a_read_that_fails_is_dropped_and_one_that_differs_is_counted() {
    let o = settle_read(false, true, Some(false));
    assert!(!o.keep && !o.mismatch);
    let o = settle_read(true, true, Some(false));
    assert!(o.keep && o.mismatch);
    let o = settle_read(true, true, None);
    assert!(o.keep && !o.mismatch);
    let o = settle_read(true, false, None);
    assert!(o.keep && !o.mismatch);
}

#[test]
fn lanes_are_taken_in_turn() {
    assert_eq!((lane(0, 3), lane(4, 3), lane(7, 1)), (0, 1, 0));
}

#[test]
fn a_class_overrides_the_base_breadth() {
    let base = PrefetchPolicy::from_env(Some("4"), None);
    assert_eq!((base.warm_paths, base.hint_paths), (4, 0));
    assert_eq!(PrefetchPolicy::from_env(None, None).warm_paths, usize::MAX);
    let p = base.for_class(None, Some("3"));
    assert_eq!((p.warm_paths, p.hint_paths), (4, 3));
    assert_eq!(p.tuned(Some(9)).warm_paths, 9);
    assert_eq!(p.tuned(None), p);
    assert_eq!(class_settings(TokenClass::Math).0, "COLI_PREFETCH_WARM_PATHS_MATH");
    assert_eq!(class_settings(TokenClass::Prose).1, "COLI_PREFETCH_HINT_PATHS_PROSE");
}

#[test]
fn priorities_rank_score_then_heat_between_nothing_and_a_pin() {
    assert_eq!(pack_prio(0, 0), 1);
    assert_eq!(pack_prio(1, 0), 0x1_0001);
    assert_eq!(pack_prio(2, 5), 0x2_0006);
    assert_eq!(pack_prio(u32::MAX, u32::MAX), PIN_PRIORITY - 1);
    assert!(pack_prio(1, u32::MAX) < pack_prio(2, 1));
}

#[test]
fn breadth_counts_only_what_would_cost_a_read() {
    let cands = vec![(5, 90), (6, 80), (7, 70), (8, 60), (9, 50)];
    let held = vec![false, true, false, false, false];
    let policy = PrefetchPolicy { warm_paths: 2, hint_paths: 1 };
    let e = emit_layer(3, 1, true, &cands, &held, &policy, false);
    assert_eq!((e.warms, e.hints), (vec![5, 7], vec![8]));
    // Under direct I/O a hint would reach nothing.
    let e = emit_layer(3, 1, true, &cands, &held, &policy, true);
    assert_eq!((e.warms, e.hints), (vec![5, 7], vec![]));
    // A dense layer routes nothing, and a lane that does not pay starts nothing.
    let e = emit_layer(0, 1, true, &cands, &held, &policy, false);
    assert!(e.warms.is_empty() && e.hints.is_empty());
    let e = emit_layer(3, 1, false, &cands, &held, &policy, false);
    assert!(e.warms.is_empty() && e.hints.is_empty());
}

#[test]
fn a_batch_asks_for_the_union_of_its_rows() {
    let rows = vec![vec![3, -1, 5], vec![5, 2, 3], vec![]];
    assert_eq!(router_ranks_for_batch(&rows), vec![3, 5, 2]);
}

#[test]
fn router_lookahead_fills_its_window_with_reads() {
    // Warm ranks take no slot of the window, and neither does no expert.
    let ranks = vec![4, -1, 9, 2, 7];
    let held = vec![true, false, false, false, false];
    assert_eq!(lookahead_reads(&ranks, &held, 2), vec![9, 2]);
    assert_eq!(lookahead_reads(&ranks, &held, 0), Vec::<i32>::new());
    assert_eq!(lookahead_reads(&ranks, &held, 9), vec![9, 2, 7]);
}

#[test]
fn only_a_routing_layer_is_asked_ahead() {
    let sparse = vec![false, true, true];
    assert!(may_ask(6, 1, &sparse, 1, 8, 8));
    assert!(!may_ask(0, 1, &sparse, 1, 8, 8), "no window");
    assert!(!may_ask(6, 3, &sparse, 1, 8, 8), "past the stack");
    assert!(!may_ask(6, 0, &sparse, 0, 8, 8), "dense");
    assert!(!may_ask(6, 1, &sparse, 2, 8, 8), "before the first sparse layer");
    assert!(!may_ask(6, 1, &sparse, 1, 7, 8), "no whole row");
    assert_eq!((scan_width(6, 8), scan_width(9, 8)), (8, 9));
    assert_eq!((rows_in(7, 8), rows_in(8, 8), rows_in(25, 8)), (1, 1, 3));
}

#[test]
fn streamed_lookahead_reads_are_counted() {
    let mut c = LookaheadCount::new();
    c.note(6);
    c.note(4);
    assert_eq!(lookahead_issued(&c), 10);
}

#[test]
fn protection_prefers_a_warm_topic_and_falls_back_to_heat() {
    let p = |expert: u32, score: u32, topic: Option<u32>| Predicted { expert, score, topic };
    let predicted = vec![vec![p(0, 9, None)], vec![p(1, 2, None), p(0, 1, Some(7))], vec![]];
    let heat = vec![0, 0, 0, 30];
    let out = protect_from(&predicted, 1, Some(&heat), 2);
    assert_eq!(out, vec![((1, 1), 0x2_0000 + 31), ((1, 0), 0x1_0000 + 8)]);
    // Without a heat table ties go by nothing.
    let out = protect_from(&predicted, 0, None, 2);
    assert_eq!(out[0], ((0, 0), 0x9_0001));
}

#[test]
fn a_sweep_visits_the_sparse_layers_in_order() {
    assert_eq!(swept_layers(true, true, true, 2, 5), vec![2, 3, 4]);
    assert!(swept_layers(true, true, true, 5, 5).is_empty());
    assert!(swept_layers(true, true, true, 6, 5).is_empty());
    assert!(swept_layers(false, true, true, 2, 5).is_empty());
    assert!(swept_layers(true, false, true, 2, 5).is_empty());
    assert!(swept_layers(true, true, false, 2, 5).is_empty());
}

#[test]
fn the_affinity_snapshot_is_rebuilt_every_64_frames() {
    assert!(affinity_due(0) && affinity_due(64) && affinity_due(128));
    assert!(!affinity_due(1) && !affinity_due(63) && !affinity_due(65));
}

#[test]
fn deliberate_reads_never_go_stale() {
    let mut b = WarmBatch::deliberate(vec![(1, 2), (3, 4)]);
    assert!(!b.is_empty());
    assert_eq!(b.step(u64::MAX, 0, false), WarmStep::Read((1, 2)));
    assert_eq!(b.step(0, 0, true), WarmStep::Skip);
    assert!(b.is_empty() && b.step(u64::MAX, 0, false) == WarmStep::Done);
    let mut guess = WarmBatch::new(vec![(1, 2)], 3);
    assert_eq!(guess.step(u64::MAX, 0, false), WarmStep::DropStale);
}

#[test]
fn a_sequences_sweep_ends_with_its_protection() {
    let s = enqueue_seq_prefetch(true, true, true, 2, 5);
    assert_eq!((s.layers, s.protect), (vec![2, 3, 4], true));
    let s = enqueue_seq_prefetch(true, true, false, 2, 5);
    assert_eq!((s.layers, s.protect), (vec![2, 3, 4], false));
    for (lane, cache) in [(false, true), (true, false)] {
        let s = enqueue_seq_prefetch(lane, cache, true, 2, 5);
        assert!(s.layers.is_empty() && !s.protect);
    }
}
