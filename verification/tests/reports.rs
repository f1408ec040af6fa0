use peregrine_model::cfg::{Arch, Cfg};
use peregrine_model::decode::Mode;
use peregrine_model::governor::LaneSample;
use peregrine_model::knobs::KvDtype;
use peregrine_model::model::{CacheCounters, Model, ModelParts, PredictorOverride};
use peregrine_model::numa::{pool_workers, worker_cpu, worker_groups};
use peregrine_model::pinned;
use peregrine_model::prefetch::{PrefetchPolicy, SweepClock, TokenClass};
use peregrine_model::reports::{byte_ledger, latency_verdict, merged_latency, tally_routed, RingLatency};
use peregrine_model::scoring::{predict_eval_arms, predict_eval_init, score_and_stash, Seen};

fn flat_model(arch: Arch) -> Model {
    let cfg = Cfg {
        arch,
        n_layers: 2,
        n_experts: 4,
        hidden: 4,
        moe_inter: 2,
        first_dense: 0,
        vocab: 16,
        topk: 2,
        n_shared: 0,
        dense_inter: 4,
        n_heads: 1,
        n_kv_heads: 1,
        head_dim: 2,
        attn_gate: false,
        qk_head: 2,
        qk_nope: 1,
        qk_rope: 1,
        v_head: 1,
        q_lora: 2,
        kv_lora: 1,
        lin_k_heads: 0,
        lin_v_heads: 0,
        lin_k_dim: 0,
        lin_v_dim: 0,
        lin_conv_k: 0,
        gdn_cells: 1,
        kv_row_a: 1,
        kv_row_b: 1,
        full_attn: vec![false, true],
    };
    Model::new(ModelParts {
        cfg,
        dtype: KvDtype::F32,
        workers: 6,
        mtp: true,
        sweep: SweepClock::from_env_values(None, None),
        policy: PrefetchPolicy::from_env(Some("5"), None),
        per_token_bytes: 900,
        protect: true,
        history: true,
        eval: predict_eval_init(Some("1"), Some("2"), 2),
    })
}

#[test]
fn flip_rate_measures_disagreement_and_refuses_to_guess() {
    let rate = |a: &[i32], b: &[i32]| {
        Model::prediction_flip_rate(a, b).map(|f| f.flips as f64 / f.of as f64)
    };
    assert_eq!(rate(&[1, 2, 3, 4], &[1, 2, 3, 4]), Some(0.0));
    // One position in four moved.
    assert_eq!(rate(&[1, 2, 3, 4], &[1, 2, 9, 4]), Some(0.25));
    assert_eq!(rate(&[1], &[2]), Some(1.0));
    // No data is not the same as no change.
    assert_eq!(rate(&[], &[]), None);
    assert_eq!(rate(&[1, 2], &[1]), None);
}

#[test]
fn an_architecture_says_what_it_can_do() {
    let glm = flat_model(Arch::GlmMla);
    assert!(glm.supports_token_trees() && glm.spec_reject_is_kv_only() && glm.prefix_cachable());
    assert!(!glm.uses_chatml_prompt() && glm.has_mtp());
    let gqa = flat_model(Arch::DenseGqa);
    assert!(!gqa.supports_token_trees() && gqa.spec_reject_is_kv_only() && gqa.uses_chatml_prompt());
    let hybrid = flat_model(Arch::HybridGdn);
    assert!(!hybrid.spec_reject_is_kv_only() && !hybrid.prefix_cachable());
    assert!(hybrid.kv.has_recurrent_state());
}

#[test]
fn a_reset_starts_a_fresh_sequence() {
    let mut m = flat_model(Arch::GlmMla);
    for layer in 0..2 {
        for pos in 0..3 {
            assert_eq!(m.kv.append(layer, pos, &[1], &[2]), Ok(()));
        }
    }
    m.note_rows(3);
    m.truncate_kv(2);
    assert_eq!(m.kv.len(), 2);
    m.reset();
    assert_eq!((m.kv.len(), m.rows_forwarded()), (0, 3));
}

#[test]
fn the_class_then_the_tuner_decide_the_breadth() {
    let mut m = flat_model(Arch::GlmMla);
    m.set_workload_class(TokenClass::Code);
    assert_eq!(m.class, TokenClass::Code);
    let p = m.class_policy(Some("9"), None);
    assert_eq!((p.warm_paths, p.hint_paths), (9, 0));
    m.set_prefetch_policy(3, 4);
    let p = m.class_policy(None, None);
    assert_eq!((p.warm_paths, p.hint_paths), (3, 4));
    m.tuner = Some(7);
    assert_eq!(m.class_policy(Some("9"), None).warm_paths, 7);
    assert_eq!(m.prefetch_distance(), Some(7));
}

#[test]
fn a_model_reports_its_counters() {
    let mut m = flat_model(Arch::GlmMla);
    assert_eq!((m.ecache_stats(), m.io_slab_in_use(), m.prefetch_accuracy()), (None, None, None));
    m.note_counters(
        Some(CacheCounters {
            hits: 1,
            misses: 2,
            disk_reads: 3,
            prefetch_reads: 4,
            prefetch_used: 5,
            prefetch_wasted: 6,
            stale_dropped: 7,
            fadvise_hints: 8,
            verify_mismatch: 9,
            slots: 10,
            used_bytes: 11,
            budget: 12,
            speculative_bytes: 13,
            speculative_slots: 14,
        }),
        vec![2, 3],
    );
    assert_eq!(m.ecache_stats(), Some((1, 2, 3)));
    assert_eq!((m.ecache_prefetch_reads(), m.ecache_prefetch_stale_dropped()), (Some(4), Some(7)));
    assert_eq!((m.ecache_fadvise_hints(), m.ecache_verify_mismatch()), (Some(8), Some(9)));
    assert_eq!((m.ecache_prefetch_effectiveness(), m.prefetch_accuracy()), (Some((5, 6)), Some((5, 11))));
    assert_eq!((m.ecache_occupancy(), m.ecache_speculative_resident()), (Some((10, 11, 12)), Some((13, 14, 12))));
    assert_eq!(m.io_slab_in_use(), Some(5));
    assert_eq!(m.expert_working_set(), Some((900, true)));
    assert_eq!((m.effective_workers(), m.last_iowq()), (6, None));
    let s = LaneSample { io_us: 4, ..m.last_lane_timings() };
    m.pacer.publish(s, 0);
    assert_eq!((m.last_lane_timings().io_us, m.lane_totals().1), (4, 1));
    let l = match m.byte_ledger(Some((40, 10)), (Some(8), Some(8))) {
        Some(l) => l,
        None => panic!("unions are counted"),
    };
    assert_eq!((l.selections, l.distinct, l.cache_hits, l.cache_misses, l.prefetch_wasted), (40, 10, 1, 2, 6));
    assert!(l.uniform_expert_size && l.bytes_per_expert == 8);
}

#[test]
fn a_ledger_needs_its_headline() {
    assert!(byte_ledger(None, (Some(1), Some(1)), None).is_none());
    let l = match byte_ledger(Some((1, 1)), (Some(5), Some(6)), None) {
        Some(l) => l,
        None => panic!("unions are counted"),
    };
    assert!(!l.uniform_expert_size && l.cache_hits == 0);
    let l = match byte_ledger(Some((1, 1)), (None, None), None) {
        Some(l) => l,
        None => panic!("unions are counted"),
    };
    assert!(l.uniform_expert_size && l.bytes_per_expert == 0);
}

#[test]
fn only_known_predictors_are_forced() {
    assert_eq!(Model::apply_predictor_override(Some("momentum")), Some(PredictorOverride::Momentum));
    assert_eq!(Model::apply_predictor_override(Some("phase-aware")), Some(PredictorOverride::PhaseAware));
    assert_eq!(Model::apply_predictor_override(Some("automaton")), None);
    assert_eq!(Model::apply_predictor_override(None), None);
}

#[test]
fn latencies_of_every_ring_are_taken_together() {
    let ring = |samples, minor, major| Some(RingLatency { samples, minor, major });
    assert!(merged_latency(&vec![None, None]).is_none());
    let t = match merged_latency(&vec![ring(1, 2, 3), None, ring(10, 20, 30)]) {
        Some(t) => t,
        None => panic!("two rings sample"),
    };
    assert_eq!((t.samples, t.minor, t.major), (11, 22, 33));
    assert!(latency_verdict(0, false, false).contains("NO SAMPLES"));
    assert!(latency_verdict(5, true, true).contains("p99 is >=10x the median"));
    assert!(latency_verdict(5, false, true).contains("rare stalls"));
    assert!(latency_verdict(5, false, false).contains("no fat tail"));
}

#[test]
fn routed_experts_are_tallied_once_each() {
    let mut t: Vec<(i32, u32)> =
        tally_routed(&[3, -1, 5, 3, 3, 5]).into_iter().map(|c| (c.expert, c.count)).collect();
    t.sort_unstable();
    assert_eq!(t, vec![(3, 3), (5, 2)]);
    assert!(tally_routed(&[-1]).is_empty());
}

#[test]
fn a_layer_is_scored_before_the_next_is_predicted() {
    let mut ev = match predict_eval_init(Some("true"), Some("0"), 2) {
        Some(e) => e,
        None => panic!("the setting asks for it"),
    };
    assert_eq!((ev.width(), ev.arms()), (1, predict_eval_arms().len()));
    assert!(predict_eval_init(None, None, 2).is_none());
    let sparse = vec![false, true, true];
    let mut deep = vec![Vec::new(); 3];
    let seen = |actual: Vec<i32>, prev: Vec<i32>, ahead: Vec<i32>, two: Vec<i32>| Seen {
        actual,
        prev,
        predicted: vec![(9, 1), (8, 1)],
        ahead,
        two_ahead: two,
    };
    // Layer 0 routes nothing, predicts layer 1 and carries a ranking for layer 2.
    score_and_stash(&mut ev, 0, &sparse, 1, 4, seen(vec![], vec![1], vec![2], vec![3]), &mut deep);
    assert_eq!((ev.scored(), deep[2].clone()), (0, vec![3]));
    // Layer 1 routed expert 2: the look-ahead was right.
    score_and_stash(&mut ev, 1, &sparse, 1, 4, seen(vec![2], vec![0], vec![1], vec![]), &mut deep);
    assert_eq!(ev.scored(), 1);
    assert!(deep[2].is_empty(), "the carried ranking was used up");
    let r = ev.report();
    assert_eq!((r[0].recall, r[3].recall, r[2].recall), ((1, 1), (0, 1), (0, 1)));
    assert_eq!(r[1].silent, 1, "nothing was carried to layer 1");
    let names: Vec<&str> = r.iter().map(|a| a.name.as_str()).collect();
    assert_eq!(names, ["router-lookahead", "router-lookahead-2", "predictor", "prev-token", "control/noise"]);
    assert_eq!(names, predict_eval_arms());
    // Layer 2 routed expert 3, which was ranked two layers ahead.
    score_and_stash(&mut ev, 2, &sparse, 1, 4, seen(vec![3], vec![], vec![], vec![]), &mut deep);
    assert_eq!(ev.report()[1].recall, (1, 2));
}

#[test]
fn a_models_scoreboard_reports_once_it_scored() {
    let mut m = flat_model(Arch::GlmMla);
    assert!(m.predict_eval_report().is_none() && m.predict_eval_separation().is_none());
    if let Some(ev) = &mut m.eval {
        ev.stash(0, vec![vec![1], vec![], vec![], vec![], vec![2]]);
        ev.score(0, &[1]);
    }
    assert_eq!(m.predict_eval_report().map(|r| (r.0.len(), r.1)), Some((5, 1)));
    assert_eq!(m.predict_eval_separation().map(|s| s.best_name), Some("router-lookahead".to_string()));
}

#[test]
fn install_is_safe_without_a_gpu() {
    let active = pinned::install();
    assert!(!active || pinned::enabled(None), "the lane cannot be active while the knob is off");
}

#[test]
fn stats_start_empty_or_consistent() {
    let s = pinned::stats();
    assert!(s.buffers > 0 || s.bytes == 0, "byte count without any pinned buffer: {s:?}");
    assert_eq!(s, pinned::PinStats::default());
}

#[test]
fn the_pinned_lane_needs_all_three() {
    assert!(pinned::lane_active(true, true, true));
    assert!(!pinned::lane_active(false, true, true));
    assert!(!pinned::lane_active(true, false, true));
    assert!(!pinned::lane_active(true, true, false));
    assert!(!pinned::enabled(Some("0")) && pinned::enabled(Some("yes")));
}

#[test]
fn workers_fill_one_node_before_the_next() {
    assert_eq!(worker_cpu(&vec![4, 5, 8], 4), Some(5));
    assert_eq!(worker_cpu(&vec![], 4), None);
    assert_eq!(worker_groups(true, 2, &vec![0, 0, 1], 5), vec![0, 0, 1, 0, 0]);
    assert!(worker_groups(false, 2, &vec![0, 1], 5).is_empty());
    assert!(worker_groups(true, 1, &vec![0, 0], 5).is_empty());
    assert_eq!(pool_workers(Some(" 3 "), Some(64)), 3);
    assert_eq!(pool_workers(Some("0"), Some(64)), 16);
    assert_eq!(pool_workers(None, Some(6)), 6);
    assert_eq!(pool_workers(Some("many"), None), 4);
}

#[test]
fn a_reset_forgets_routing_priorities_and_refinement() {
    let mut m = flat_model(Arch::GlmMla);
    assert_eq!(m.history, Some(vec![vec![], vec![]]));
    m.note_history(vec![vec![vec![1, 2]], vec![vec![3]]]);
    m.note_history(vec![vec![]]);
    assert_eq!(m.history, Some(vec![vec![vec![1, 2]], vec![vec![3]]]), "another shape is dropped");
    m.note_protection(vec![((1, 2), 9)]);
    m.refinement.depth = 3;
    m.reset();
    assert_eq!(m.history, Some(vec![vec![], vec![]]));
    assert!(m.priorities.is_empty());
    assert_eq!(m.refinement.depth, 0);
}

#[test]
fn a_model_speculates_only_where_that_cannot_show() {
    assert_eq!(flat_model(Arch::GlmMla).decode_mode(3, 4, 2), Mode::Speculative);
    assert_eq!(flat_model(Arch::GlmMla).decode_mode(3, 4, 0), Mode::Greedy);
    assert_eq!(flat_model(Arch::HybridGdn).decode_mode(3, 4, 2), Mode::Greedy);
    assert_eq!(flat_model(Arch::HybridGdn).decode_mode(0, 4, 2), Mode::Nothing);
}
