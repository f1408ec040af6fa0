use peregrine_model::cfg::{Arch, Cfg};
use peregrine_model::container::{
    expert_bytes_on_disk, expert_tensor_names, has_routed_experts, max_expert_region_bytes, routed_bytes,
    unpacked_bytes, unpacked_nbytes, TensorHeader, ALIGN, ASSUMED_REGION,
};
use peregrine_model::knobs::{
    device_sched, env_usize, kv_dtype, mib_budget, not_opted_out, number, opted_in, predict_eval_width,
    prefetch_lanes, route_hist_depth, router_lookahead_width, KvDtype,
};
use peregrine_model::layers::{
    attn_weights, head_site, layer_prefix, load_layer, load_layer_at, load_plan, stack_head_name, Attn,
    Form, HeadSite, LayerSite,
};
use peregrine_model::load::{
    choose_cache, choose_direct, choose_parts, choose_stream, count_devices, dense_tier_kept,
    dense_tier_wanted, device_claims, keep_placing, load_cache, load_inner, may_place, next_dense_layer,
    preflight, projections_to_offer, AfterWeights, DensePlacement, DeviceClaims, DirectNote, LoadAsk,
    LoadError, LoadFacts, LoadSettings, PlaceAsk, PlacementTally, StreamNote, Upload, CACHE_SAFETY,
};
use peregrine_model::rank::by_heat;
use peregrine_model::text::{decimal_text, parse_i32, parse_u64, tagged_line, trim};

fn tensor(name: &str, nbytes: usize) -> TensorHeader {
    TensorHeader { name: name.to_string(), nbytes, unpacked: 2 * nbytes }
}

fn experts() -> Vec<TensorHeader> {
    vec![
        tensor("model.embed_tokens.weight", 1000),
        tensor("model.layers.1.mlp.experts.0.gate_proj.weight", 100),
        tensor("model.layers.1.mlp.experts.0.up_proj.weight", 100),
        tensor("model.layers.1.mlp.experts.0.gate_proj.weight.qs", 7),
        tensor("model.layers.1.mlp.experts.1.gate_proj.weight", 150),
        tensor("model.layers.1.mlp.shared_experts.gate_proj.weight", 900),
    ]
}

#[test]
fn only_routed_experts_count_as_such() {
    let t = experts();
    assert!(has_routed_experts(&t));
    assert!(!has_routed_experts(&t[..1].iter().map(|h| tensor(&h.name, h.nbytes)).collect()));
    assert_eq!(routed_bytes(&t), 357);
    assert_eq!(unpacked_bytes(&t), 2 * (1000 + 357 + 900));
}

#[test]
fn an_experts_tensors_are_read_as_one_extent() {
    // Gate and up of one expert lie side by side; scales are read apart.
    assert_eq!(max_expert_region_bytes(&experts()), 200 + 2 * ALIGN);
    assert_eq!(max_expert_region_bytes(&vec![]), ASSUMED_REGION + 2 * ALIGN);
}

#[test]
fn an_expert_without_all_its_tensors_has_no_size() {
    let stem = "model.layers.3.mlp.experts.11.";
    let mut t = vec![
        tensor(&format!("{stem}gate_proj.weight"), 5),
        tensor(&format!("{stem}gate_proj.weight.qs"), 1),
        tensor(&format!("{stem}up_proj.weight"), 6),
    ];
    assert_eq!(expert_bytes_on_disk(&t, 3, 11), None);
    t.push(tensor(&format!("{stem}down_proj.weight"), 7));
    t.push(tensor("model.layers.3.mlp.experts.1.down_proj.weight", 900));
    assert_eq!(expert_bytes_on_disk(&t, 3, 11), Some(2 * (5 + 1 + 6 + 7)));
    assert_eq!(expert_bytes_on_disk(&t, 3, 1), None);
    t[3].unpacked = usize::MAX;
    assert_eq!(expert_bytes_on_disk(&t, 3, 11), Some(u64::MAX));
}

#[test]
fn an_experts_matrices_are_named_gate_first() {
    assert_eq!(
        expert_tensor_names(3, 11),
        vec![
            "model.layers.3.mlp.experts.11.gate_proj.weight".to_string(),
            "model.layers.3.mlp.experts.11.up_proj.weight".to_string(),
            "model.layers.3.mlp.experts.11.down_proj.weight".to_string(),
        ]
    );
    assert_eq!(unpacked_nbytes(&experts(), "model.embed_tokens.weight"), Some(2000));
    assert_eq!(unpacked_nbytes(&experts(), "model.embed_tokens"), None);
}

#[test]
fn what_the_container_holds_outranks_what_was_asked() {
    let c = choose_stream(Some(true), None, false, true, true);
    assert!(!c.stream && c.note == StreamNote::Compressed);
    let c = choose_stream(Some(true), None, false, false, false);
    assert!(!c.stream && c.note == StreamNote::NothingToStream);
    let c = choose_stream(None, Some("1"), false, false, true);
    assert!(c.stream && c.note == StreamNote::AsAsked);
    assert!(!choose_stream(None, Some("false"), true, false, true).stream);
    assert!(choose_stream(None, Some("maybe"), true, false, true).stream);
    assert!(!choose_stream(Some(false), Some("1"), true, false, true).stream);
}

fn facts(tensors: Vec<TensorHeader>) -> LoadFacts {
    LoadFacts {
        tensors,
        compressed: false,
        over_share: true,
        n_devices: 6,
        host_avail: 0,
        ring_budget: 0,
        experts_per_batch: 4,
        workers: 8,
        ecache: 2 << 30,
        kv_pool: 4096,
        engine_rings: true,
        engine_direct: true,
        has_direct: true,
    }
}

#[test]
fn a_streamed_load_projects_for_the_rings_it_builds() {
    let ask = LoadAsk { stream: None, ecache: None, direct: None };
    let set = LoadSettings { stream: None, rings: None, direct: Some("1") };
    let f = facts(experts());
    let p = load_inner(&ask, &set, &f);
    assert!(p.stream.stream);
    assert_eq!((p.rings, p.reactors), (6, 6));
    let reserve = (6 * 4 + 8) * 4 * p.region;
    assert_eq!(p.projection.stream_transient, reserve as u64);
    assert_eq!(p.projection.expert_disk, 357);
    assert_eq!(p.projection.dense_disk, (2 * 2257 - 357) as u64);
    assert!(!p.projection.buffered_reads);
    assert_eq!(p.projection.kv_pool, 4096);
    assert_eq!(p.direct, DirectNote::Enabled);
    let now = AfterWeights { ecache: 2 << 30, mem_available: 8 << 30 };
    let c = load_cache(&ask, &f, &p, &now);
    assert!(c.build);
    assert_eq!(c.budget, 2 << 30);
    // What the weights took, and a setting read again, are what counts.
    let c = load_cache(&ask, &f, &p, &AfterWeights { ecache: 1 << 30, mem_available: 8 << 30 });
    assert_eq!(c.budget, 1 << 30);
    let c = load_cache(&ask, &f, &p, &AfterWeights { ecache: 2 << 30, mem_available: 2 << 30 });
    assert_eq!(c.budget, (2 << 30) - reserve - CACHE_SAFETY);
    let c = load_cache(&ask, &f, &p, &AfterWeights { ecache: 2 << 30, mem_available: 1 << 30 });
    assert!(!c.build && c.budget == 0);
    // Without rings in the engine none are built, and none are charged to the cache.
    let f = LoadFacts { engine_rings: false, engine_direct: false, ..facts(experts()) };
    let p = load_inner(&ask, &set, &f);
    assert_eq!((p.rings, p.reactors, p.direct), (6, 0, DirectNote::NoAlignedBuffers));
    let now = AfterWeights { ecache: 2 << 30, mem_available: 2 << 30 };
    assert_eq!(load_cache(&ask, &f, &p, &now).budget, (2 << 30) - 8 * 4 * p.region - CACHE_SAFETY);
}

#[test]
fn a_resident_load_charges_no_streaming_buffers() {
    let ask = LoadAsk { stream: Some(true), ecache: Some(77), direct: Some(true) };
    let set = LoadSettings { stream: None, rings: None, direct: None };
    let f = facts(vec![tensor("model.norm.weight", 10)]);
    let p = load_inner(&ask, &set, &f);
    assert!(!p.stream.stream);
    assert_eq!(p.stream.note, StreamNote::NothingToStream);
    assert_eq!((p.rings, p.reactors, p.projection.stream_transient), (4, 0, 0));
    let c = load_cache(&ask, &f, &p, &AfterWeights { ecache: 5, mem_available: 0 });
    assert_eq!((p.direct, c.build, c.budget), (DirectNote::NotWanted, false, 77));
    assert!(p.projection.buffered_reads);
}

#[test]
fn the_cache_yields_to_the_machine() {
    let c = choose_cache(None, 10 << 30, true, 12 << 30, 2 << 30);
    assert!(c.build && c.budget == 9 << 30);
    let c = choose_cache(Some(4 << 30), 0, true, 2 << 30, 2 << 30);
    assert!(!c.build && c.budget == 0);
}

#[test]
fn direct_reads_say_why_they_are_off() {
    assert_eq!(choose_direct(None, Some("1"), true, true, true), DirectNote::Enabled);
    assert_eq!(choose_direct(None, Some("1"), true, true, false), DirectNote::NoAlignedBuffers);
    assert_eq!(choose_direct(None, Some("1"), true, false, true), DirectNote::Unavailable);
    assert_eq!(choose_direct(None, Some("1"), false, true, true), DirectNote::NotWanted);
    assert_eq!(choose_direct(Some(false), Some("1"), true, true, true), DirectNote::NotWanted);
}

#[test]
fn parts_exist_where_their_reason_does() {
    let p = choose_parts(3, true, true, true, false, Some("1"), Some(" 1 "));
    assert!(p.route_hist && p.expert_index && p.spill_log && p.topic_profiles && !p.mtp_pins);
    assert_eq!(p.heat_rows, Some(4));
    let p = choose_parts(3, false, false, false, true, Some("1"), Some("1"));
    assert!(!p.route_hist && !p.expert_index && !p.spill_log && !p.topic_profiles && p.mtp_pins);
    assert_eq!(p.heat_rows, None);
}

#[test]
fn devices_without_a_home_ring_are_counted() {
    let four = vec![1, 2, 1, 3, 9];
    assert_eq!(count_devices(&four), 4);
    assert_eq!(device_claims(true, 4, None, &four), DeviceClaims::Homed);
    assert_eq!(device_claims(true, 3, None, &four), DeviceClaims::Unhomed(1));
    assert_eq!(device_claims(true, 4, Some(" OFF "), &four), DeviceClaims::Shared);
    assert_eq!(device_claims(true, 1, None, &four), DeviceClaims::Shared);
    assert_eq!(device_claims(true, 4, None, &vec![2, 2]), DeviceClaims::Shared);
}

#[test]
fn dense_layers_are_placed_until_room_or_pin_runs_out() {
    let dense = vec![false, true, false, true, true];
    assert_eq!(next_dense_layer(&dense, None, 0), Some(1));
    assert_eq!(next_dense_layer(&dense, None, 2), Some(3));
    assert_eq!(next_dense_layer(&dense, Some(3), 2), None);
    assert_eq!(next_dense_layer(&dense, Some(0), 0), None);
    assert!(keep_placing(Upload::Placed(5)) && !keep_placing(Upload::NoRoom) && !keep_placing(Upload::Failed));
    let mut t = PlacementTally::new();
    t.saw(10);
    t.record(1, "q".to_string(), Upload::Placed(4));
    t.record(1, "k".to_string(), Upload::NoRoom);
    t.record(2, "q".to_string(), Upload::Failed);
    assert_eq!((t.device_bytes, t.matmul_total), (4, 10));
    assert_eq!(t.placed, vec![(1, "q".to_string())]);
    assert_eq!(t.skipped, vec![(1, "k".to_string(), false), (2, "q".to_string(), true)]);
    assert!(dense_tier_wanted(Some("1"), false) && !dense_tier_wanted(Some("0"), false));
    assert!(!dense_tier_wanted(Some("1"), true));
    assert!(dense_tier_kept(0, 1) && !dense_tier_kept(0, 0));
}

/// Runs a placement against a device with room for the first `room` offers, and
/// says what was offered.
fn fill(d: &mut DensePlacement, room: usize, refused: usize) -> Vec<String> {
    let mut offered = Vec::new();
    loop {
        let what = match d.ask() {
            PlaceAsk::Fused(li) => format!("{li}"),
            PlaceAsk::Projection(li, name) => format!("{li}.{name}"),
            PlaceAsk::Done => return offered,
        };
        let n = offered.len();
        offered.push(what);
        d.heard(if n == refused { Upload::Failed } else if n < room { Upload::Placed(10) } else { Upload::NoRoom });
    }
}

#[test]
fn a_tier_takes_feed_forwards_first_and_then_projections() {
    let attn = vec![Attn::Gqa, Attn::Gdn];
    let start = |pinned| DensePlacement::new(vec![true, true], &attn, &vec![100, 30], pinned);
    let mut d = start(None);
    let offered = fill(&mut d, 3, usize::MAX);
    assert_eq!(
        offered,
        ["0", "1", "0.q", "0.k", "0.v", "0.o", "1.in_qkv", "1.in_z", "1.in_a", "1.in_b", "1.out"]
    );
    assert_eq!(d.fused, vec![0, 1]);
    assert_eq!(d.tally.placed, vec![(0, "q".to_string())]);
    assert_eq!((d.tally.skipped.len(), d.tally.device_bytes, d.tally.matmul_total), (8, 10, 130));
    assert!(d.kept());
    // A feed-forward the device refuses ends their offers; a projection ends nothing.
    let mut d = start(None);
    assert_eq!(fill(&mut d, 100, 0)[..2], ["0", "0.q"]);
    assert!(d.fused.is_empty() && d.tally.placed.len() == 9);
    let mut d = start(None);
    fill(&mut d, 100, 3);
    assert_eq!((d.tally.placed.len(), d.tally.skipped.len()), (8, 1));
    assert_eq!(d.tally.skipped[0], (0, "k".to_string(), true));
}

#[test]
fn a_pin_bounds_feed_forwards_and_projections_alike() {
    assert!(may_place(Some(2), 1) && !may_place(Some(2), 2) && may_place(None, 99));
    let attn = vec![Attn::Gqa, Attn::Gdn];
    assert_eq!(projections_to_offer(&attn, Some(1)), vec![(0, "q"), (0, "k"), (0, "v"), (0, "o")]);
    let mut d = DensePlacement::new(vec![true, true], &attn, &vec![100, 30], Some(1));
    assert_eq!(fill(&mut d, 100, usize::MAX), ["0", "0.q", "0.k", "0.v", "0.o"]);
    // Every matrix counts toward the total, past the pin too.
    assert_eq!(d.tally.matmul_total, 130);
    let mut d = DensePlacement::new(vec![true, true], &attn, &vec![100, 30], Some(0));
    assert!(fill(&mut d, 100, usize::MAX).is_empty() && !d.kept());
}

fn glm() -> Cfg {
    Cfg {
        arch: Arch::GlmMla,
        n_layers: 2,
        n_experts: 2,
        hidden: 4,
        moe_inter: 3,
        first_dense: 1,
        vocab: 10,
        topk: 1,
        n_shared: 1,
        dense_inter: 5,
        n_heads: 2,
        n_kv_heads: 1,
        head_dim: 2,
        attn_gate: false,
        qk_head: 3,
        qk_nope: 2,
        qk_rope: 1,
        v_head: 2,
        q_lora: 2,
        kv_lora: 2,
        lin_k_heads: 1,
        lin_v_heads: 1,
        lin_k_dim: 2,
        lin_v_dim: 2,
        lin_conv_k: 2,
        gdn_cells: 1,
        kv_row_a: 2,
        kv_row_b: 1,
        full_attn: vec![false, true],
    }
}

fn names(reads: &[peregrine_model::layers::TensorRead]) -> Vec<String> {
    reads.iter().map(|r| r.name.clone()).collect()
}

#[test]
fn a_streamed_layer_leaves_its_experts_on_disk() {
    let cfg = glm();
    assert_eq!(layer_prefix(&cfg, 1), "model.layers.1.");
    let resident = load_layer(&cfg, 1, false);
    let streamed = load_layer(&cfg, 1, true);
    assert!(resident.sparse && resident.attn == Attn::Mla);
    assert_eq!(names(&resident.reads), names(&streamed.reads), "both demand the same tensors");
    let expert = |r: &peregrine_model::layers::TensorRead| r.name.contains(".mlp.experts.");
    assert!(streamed.reads.iter().filter(|r| expert(r)).all(|r| r.form == Form::Present));
    assert!(resident.reads.iter().filter(|r| expert(r)).all(|r| r.form != Form::Present));
    assert!(!load_layer(&cfg, 0, true).sparse);
}

#[test]
fn a_head_of_its_own_is_read_off_the_stack() {
    let mut cfg = glm();
    cfg.arch = Arch::HybridGdn;
    assert_eq!(layer_prefix(&cfg, 0), "model.language_model.layers.0.");
    assert_eq!(load_layer(&cfg, 0, false).attn, Attn::Gdn);
    let site = LayerSite { prefix: Some("mtp.layers.0.".to_string()), full_attn: Some(true), sparse: Some(false) };
    let head = load_layer_at(&cfg, 2, false, &site);
    assert_eq!((head.attn, head.sparse), (Attn::Gqa, false));
    assert!(head.reads.iter().all(|r| r.name.starts_with("mtp.layers.0.")));
    assert!(matches!(head_site(true, true), HeadSite::Stack));
    assert!(matches!(head_site(false, true), HeadSite::Own));
    assert!(matches!(head_site(false, false), HeadSite::Absent));
    let all = names(&load_plan(&cfg, HeadSite::Own, false));
    assert_eq!(all[0], "model.language_model.embed_tokens.weight");
    assert_eq!(all[1], "lm_head.weight");
    assert!(all.contains(&"mtp.fc.weight".to_string()));
}

#[test]
fn settings_mean_what_their_spellings_say() {
    assert!(opted_in(Some("1")) && opted_in(Some("true")) && !opted_in(Some("yes")) && !opted_in(None));
    assert!(!not_opted_out(Some("0")) && !not_opted_out(Some("false")) && not_opted_out(Some("no")));
    assert_eq!((env_usize(Some(" 3"), 9), env_usize(Some("3"), 9), env_usize(None, 9)), (9, 3, 9));
    assert_eq!((number(Some(" +3 ")), number(Some("x"))), (Some(3), None));
    assert_eq!((mib_budget(Some("2")), mib_budget(None)), (2 << 20, 0));
    assert_eq!(mib_budget(Some("18446744073709551615")), usize::MAX);
    assert_eq!((route_hist_depth(Some("0")), route_hist_depth(Some("7"))), (4, 7));
    assert_eq!((prefetch_lanes(Some("0")), router_lookahead_width(None)), (1, 6));
    assert_eq!((predict_eval_width(None, 8), predict_eval_width(Some("0"), 8)), (8, 1));
    assert!(device_sched(None) && !device_sched(Some("False")) && device_sched(Some("1")));
    assert_eq!(kv_dtype(Some("f16")).dtype, KvDtype::F16);
    assert!(kv_dtype(Some("bf16")).unrecognised);
}

#[test]
fn text_is_read_as_the_settings_need_it() {
    assert_eq!(trim(" \t a b \n"), "a b");
    assert_eq!((parse_u64("+007"), parse_u64("18446744073709551616"), parse_u64("")), (Some(7), None, None));
    assert_eq!((parse_i32("-7"), parse_i32("-+7"), parse_i32("2147483647")), (Some(-7), None, Some(i32::MAX)));
    assert_eq!(tagged_line("a:1\nb:2\n", "b:"), Some("2"));
    assert_eq!((decimal_text(0), decimal_text(90210)), ("0".to_string(), "90210".to_string()));
}

#[test]
fn equal_heat_never_reshuffles_a_ranking() {
    assert_eq!(by_heat(&[3, 9, 3, 0, 9]), vec![1, 4, 0, 2, 3]);
    assert!(by_heat(&[]).is_empty());
}

#[test]
fn each_attention_offers_its_own_matrices() {
    assert_eq!(attn_weights(Attn::Mla), vec!["q_a", "q_b", "kv_a", "kv_b", "o"]);
    assert_eq!(attn_weights(Attn::Gqa), vec!["q", "k", "v", "o"]);
    assert_eq!(attn_weights(Attn::Gdn), vec!["in_qkv", "in_z", "in_a", "in_b", "out"]);
}

#[test]
fn the_stack_head_is_named_after_the_last_layer() {
    let mut c = glm();
    c.n_layers = 78;
    assert_eq!(stack_head_name(&c), "model.layers.78.eh_proj.weight");
}

#[test]
fn a_load_the_machine_cannot_hold_is_refused_in_the_verdicts_words() {
    let ask = LoadAsk { stream: None, ecache: None, direct: None };
    let set = LoadSettings { stream: None, rings: None, direct: None };
    let refused = preflight(load_inner(&ask, &set, &facts(experts())), Some("needs 9 GB of 8".to_string()));
    assert!(matches!(refused, Err(LoadError::Memory(words)) if words == "needs 9 GB of 8"));
    let admitted = preflight(load_inner(&ask, &set, &facts(experts())), None);
    assert!(matches!(admitted, Ok(plan) if plan.rings == 6));
}
