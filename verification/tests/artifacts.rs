use peregrine_model::artifacts::{
    adopts, load_layout_schedule, parse_schedule_value, peek_persisted_heat, read_optional_artifact,
    save_route_stats, seed_batch, seed_tiers_from_value, stats_json, try_load_plan, try_load_route_stats, ArtifactNote,
    ArtifactRead, HeatRestore,
};
use peregrine_model::cfg::{config_tag, Arch, Cfg};
use peregrine_model::json::{parse_document, render, Json};
use peregrine_model::prefetch::WarmStep;
use peregrine_model::traces::{
    observed_layers, route_snapshot, trace_json, GateTrace, RouteDump, TraceError,
};

fn model(n_layers: usize, n_experts: usize) -> Cfg {
    Cfg {
        arch: Arch::GlmMla,
        n_layers,
        n_experts,
        hidden: 16,
        moe_inter: 4,
        first_dense: 1,
        vocab: 32,
        topk: 2,
        n_shared: 0,
        dense_inter: 4,
        n_heads: 1,
        n_kv_heads: 1,
        head_dim: 2,
        attn_gate: false,
        qk_head: 2,
        qk_nope: 1,
        qk_rope: 1,
        v_head: 1,
        q_lora: 2,
        kv_lora: 1,
        lin_k_heads: 0,
        lin_v_heads: 0,
        lin_k_dim: 0,
        lin_v_dim: 0,
        lin_conv_k: 0,
        gdn_cells: 0,
        kv_row_a: 1,
        kv_row_b: 1,
        full_attn: vec![],
    }
}

fn doc(s: &str) -> Json {
    match parse_document(s.as_bytes()) {
        Some(d) => d,
        None => panic!("no document: {s}"),
    }
}

fn bytes(s: &str) -> ArtifactRead {
    ArtifactRead::Bytes(s.as_bytes().to_vec())
}

#[test]
fn a_document_is_read_as_plain_values() {
    let d = doc("{\"a\": [1, -2, 2.5, true, null, \"x\\u00e9\", 18446744073709551615], \"b\": {\"c\": []}}");
    let a = match d.member("a").and_then(|a| a.as_array()) {
        Some(a) => a,
        None => panic!("a is a list"),
    };
    assert_eq!(a.len(), 7);
    assert_eq!((a[0].as_u64(), a[0].as_i64()), (Some(1), Some(1)));
    assert_eq!((a[1].as_u64(), a[1].as_i64()), (None, Some(-2)));
    assert_eq!((a[2].as_u64(), a[2].as_i64()), (None, None));
    assert!(matches!(a[3], Json::Bool(true)));
    assert!(a[4].is_null() && !a[3].is_null());
    assert!(a[5].is_text("x\u{e9}") && !a[5].is_text("x"));
    assert_eq!((a[6].as_u64(), a[6].as_i64()), (Some(u64::MAX), None));
    assert!(d.member("b").and_then(|b| b.member("c")).and_then(|c| c.as_array()).is_some_and(|c| c.is_empty()));
    assert!(d.member("nothing").is_none() && a[0].member("a").is_none());
    assert!(parse_document(b"{\"a\": ").is_none());
    assert!(parse_document(b"[] []").is_none());
}

#[test]
fn an_absent_artifact_and_a_broken_one_are_told_apart() {
    let a = read_optional_artifact(ArtifactRead::Absent);
    assert!(a.doc.is_none() && a.note.is_none());
    let a = read_optional_artifact(ArtifactRead::Unreadable);
    assert!(a.doc.is_none());
    assert_eq!(a.note, Some(ArtifactNote::Unreadable));
    let a = read_optional_artifact(bytes("{not json"));
    assert!(a.doc.is_none());
    assert_eq!(a.note, Some(ArtifactNote::Malformed));
    let a = read_optional_artifact(bytes("{\"x\": 1}"));
    assert!(a.note.is_none());
    assert_eq!(a.doc.and_then(|d| d.member("x").and_then(|x| x.as_u64())), Some(1));
}

#[test]
fn heat_is_restored_only_for_the_shape_it_was_written_for() {
    let c = model(2, 2);
    let tag = config_tag(&c);
    assert_eq!(tag, "L2E2H16I4D1V32");
    let d = doc(&format!("{{\"tag\": \"{tag}\", \"heat\": [1, 2, 3, 4294967297, 5, 6]}}"));
    assert_eq!(peek_persisted_heat(true, Some(&d), &c), vec![1, 2, 3, 1, 5, 6], "two layers and the draft head");
    assert!(peek_persisted_heat(false, Some(&d), &c).is_empty(), "persistence is off");
    assert!(peek_persisted_heat(true, None, &c).is_empty(), "there is no document");
    assert!(peek_persisted_heat(true, Some(&d), &model(2, 3)).is_empty(), "another shape");
    let short = doc(&format!("{{\"tag\": \"{tag}\", \"heat\": [1, \"x\", 3, 4, 5, 6]}}"));
    assert!(peek_persisted_heat(true, Some(&short), &c).is_empty(), "a count is missing");
    let headless = doc(&format!("{{\"tag\": \"{tag}\", \"heat\": [1, 2, 3, 4]}}"));
    assert!(peek_persisted_heat(true, Some(&headless), &c).is_empty(), "the draft head's row is missing");
    let huge = doc("{\"tag\": \"L18446744073709551615E2H16I4D1V32\", \"heat\": [1, 2]}");
    assert!(peek_persisted_heat(true, Some(&huge), &model(usize::MAX, 2)).is_empty());
    let none = doc(&format!("{{\"tag\": \"{tag}\", \"heat\": null}}"));
    assert!(peek_persisted_heat(true, Some(&none), &c).is_empty());
}

#[test]
fn saved_statistics_are_what_the_next_run_restores() {
    let c = model(2, 2);
    let s = match save_route_stats(true, Some("h"), &c, Some(vec![9, 0, 7, 8, 0, 5]), "co", Some("l")) {
        Some(s) => s,
        None => panic!("history is kept and persistence is on"),
    };
    assert_eq!((s.tag.as_str(), s.hist, s.coact, s.learn), ("L2E2H16I4D1V32", "h", "co", Some("l")));
    let written = format!("{{\"tag\": \"{}\", \"heat\": {:?}, \"hist\": {{}}, \"coact\": [], \"learn\": null}}", s.tag, s.heat.clone().unwrap_or_default());
    let d = doc(&written);
    assert_eq!(peek_persisted_heat(true, Some(&d), &c), vec![9, 0, 7, 8, 0, 5]);
    let r = try_load_route_stats(true, Some(&d), &c, true, Some(6), true);
    assert!(!r.foreign && r.hist && r.coact && !r.learn);
    assert!(matches!(r.heat, HeatRestore::Restore(h) if h == vec![9, 0, 7, 8, 0, 5]));
    assert!(save_route_stats(false, Some(1), &c, None, 2, None).is_none());
    assert!(save_route_stats(true, None::<u8>, &c, None, 2, None).is_none());
}

fn value(s: &str) -> serde_json::Value {
    match serde_json::from_str(s) {
        Ok(v) => v,
        Err(e) => panic!("no document: {e}"),
    }
}

#[test]
fn the_bytes_a_run_writes_are_the_heat_the_next_run_reads() {
    let c = model(2, 2);
    let heat = vec![9, 0, u32::MAX, 8, 0, 5];
    let hist = value("{\"frames\": [[1, -2], []], \"rate\": 0.25}");
    let coact = value("[\"caf\\u00e9 \\\"q\\\"\"]");
    let s = match save_route_stats(true, Some(hist), &c, Some(heat.clone()), coact, None) {
        Some(s) => s,
        None => panic!("history is kept and persistence is on"),
    };
    let written = stats_json(s);
    let a = read_optional_artifact(ArtifactRead::Bytes(written.clone()));
    assert!(a.note.is_none());
    assert_eq!(peek_persisted_heat(true, a.doc.as_ref(), &c), heat);
    // A model of another shape starts cold.
    assert!(peek_persisted_heat(true, a.doc.as_ref(), &model(3, 2)).is_empty());
    let d = match parse_document(&written) {
        Some(d) => d,
        None => panic!("what was written is a document"),
    };
    assert!(matches!(d.member("learn"), Some(Json::Null)));
    assert!(matches!(d.member("tag"), Some(Json::Text(t)) if *t == config_tag(&c)));
    let frames = d.member("hist").and_then(|h| h.member("frames")).and_then(|f| f.as_array());
    assert!(matches!(frames, Some(f) if f.len() == 2));
    assert!(matches!(d.member("coact"), Some(Json::List(v)) if matches!(&v[0], Json::Text(t) if t == "caf\u{e9} \"q\"")));
}

#[test]
fn statistics_without_heat_leave_the_next_run_cold() {
    let c = model(2, 2);
    let s = match save_route_stats(true, Some(value("0")), &c, None, value("1"), Some(value("{\"q\": [2]}"))) {
        Some(s) => s,
        None => panic!("history is kept and persistence is on"),
    };
    let d = match parse_document(&stats_json(s)) {
        Some(d) => d,
        None => panic!("what was written is a document"),
    };
    assert!(matches!(d.member("heat"), Some(Json::Null)));
    assert!(peek_persisted_heat(true, Some(&d), &c).is_empty());
    assert!(try_load_route_stats(true, Some(&d), &c, true, None, true).learn);
}

#[test]
fn what_is_nested_too_deep_is_written_and_not_read() {
    let nested = |n: usize| {
        let mut v = value("7");
        for _ in 0..n {
            v = serde_json::Value::Array(vec![v]);
        }
        v
    };
    assert!(parse_document(&render(&nested(127))).is_some());
    assert!(parse_document(&render(&nested(128))).is_none());
    assert_eq!(render(&nested(2)), b"[[7]]".to_vec());
}

#[test]
fn a_tier_seed_is_read_deliberately() {
    let mut b = seed_batch(&vec![(1, 2), (1 << 32, 3), (6, 7)]);
    assert_eq!(b.step(u64::MAX, 0, false), WarmStep::Read((1, 2)));
    assert_eq!(b.step(u64::MAX, 0, false), WarmStep::Read((6, 7)));
    assert!(b.is_empty());
}

#[test]
fn foreign_statistics_are_said_to_be() {
    let c = model(2, 2);
    let r = try_load_route_stats(true, Some(&doc("{\"tag\": \"L9\", \"hist\": 1}")), &c, true, Some(4), true);
    assert!(r.foreign && !r.hist && !r.coact && !r.learn && matches!(r.heat, HeatRestore::Leave));
    let r = try_load_route_stats(true, Some(&doc("{\"hist\": 1}")), &c, true, Some(4), true);
    assert!(!r.foreign && !r.hist);
    let ours = doc("{\"tag\": \"L2E2H16I4D1V32\", \"heat\": [1], \"learn\": {}, \"hist\": 1}");
    let r = try_load_route_stats(true, Some(&ours), &c, false, Some(4), true);
    assert!(!r.hist && r.learn && !r.coact && matches!(r.heat, HeatRestore::Misshapen));
    let r = try_load_route_stats(true, Some(&ours), &c, false, None, false);
    assert!(!r.learn && matches!(r.heat, HeatRestore::Leave));
    let r = try_load_route_stats(false, Some(&ours), &c, true, Some(1), true);
    assert!(!r.learn && matches!(r.heat, HeatRestore::Leave));
}

#[test]
fn a_schedule_is_read_whole_or_not_at_all() {
    let ok = doc("{\"version\": 1, \"order\": [[2, -1, 0], [], [4294967296]]}");
    assert_eq!(parse_schedule_value(&ok), Some(vec![vec![2, 0], vec![], vec![0]]));
    for bad in [
        "{\"version\": 2, \"order\": [[1]]}",
        "{\"order\": [[1]]}",
        "{\"version\": 1}",
        "{\"version\": 1, \"order\": [[1], 2]}",
        "{\"version\": 1, \"order\": [[1, \"x\"]]}",
        "{\"version\": 1, \"order\": [[1.5]]}",
        "{\"version\": \"1\", \"order\": [[1]]}",
        "[]",
    ] {
        assert_eq!(parse_schedule_value(&doc(bad)), None, "{bad}");
    }
    let text = "{\"version\": 1, \"order\": [[1]]}";
    assert_eq!(load_layout_schedule(None, bytes(text)), Some(vec![vec![1]]));
    assert_eq!(load_layout_schedule(Some("0"), bytes(text)), None);
    assert_eq!(load_layout_schedule(None, ArtifactRead::Absent), None);
}

#[test]
fn a_tier_seed_is_bounded_and_skips_what_it_cannot_read() {
    let d = doc("{\"ram\": [[1, 2, 9], [3], \"x\", [4, -5], [6, 7]]}");
    assert_eq!(seed_tiers_from_value(&d, None, true, true), vec![(1, 2), (6, 7)]);
    assert!(seed_tiers_from_value(&d, Some("false"), true, true).is_empty());
    assert!(seed_tiers_from_value(&d, None, false, true).is_empty());
    assert!(seed_tiers_from_value(&d, None, true, false).is_empty());
    let many: Vec<String> = (0..300).map(|i| format!("[{i}, 0]")).collect();
    let d = doc(&format!("{{\"ram\": [{}]}}", many.join(",")));
    let seeds = seed_tiers_from_value(&d, None, true, true);
    assert_eq!((seeds.len(), seeds[255]), (256, (255, 0)));
}

#[test]
fn a_plan_offers_its_parts() {
    let d = doc("{\"automaton\": {}, \"schedule\": {\"version\": 1, \"order\": [[3]]}, \"learn\": null, \"tiers\": {\"ram\": [[0, 1]]}}");
    let p = try_load_plan(&d, true, None, true, true);
    assert!(p.automaton && !p.macrostates && !p.learn);
    assert_eq!(p.schedule, Some(vec![vec![3]]));
    assert_eq!(p.seeds, vec![(0, 1)]);
    let p = try_load_plan(&doc("{\"learn\": 1, \"macrostates\": 2}"), true, None, true, true);
    assert!(!p.automaton && p.macrostates && p.learn && p.schedule.is_none() && p.seeds.is_empty());
    assert!(!try_load_plan(&doc("{\"learn\": 1}"), false, None, true, true).learn);
    let c = model(2, 2);
    assert!(adopts(Some("L2E2H16I4D1V32"), &c) && !adopts(Some("L2"), &c) && !adopts(None, &c));
}

#[test]
fn a_trace_renders_as_nested_lists() {
    let t = vec![vec![vec![1, -20], vec![]], vec![], vec![vec![i32::MIN]]];
    assert_eq!(trace_json(&t), b"[[[1,-20],[]],[],[[-2147483648]]]".to_vec());
    assert_eq!(trace_json(&vec![]), b"[]".to_vec());
}

#[test]
fn a_corpus_is_traced_token_by_token() {
    assert!(matches!(RouteDump::new(false, vec![1]), Err(TraceError::NotStreaming)));
    let mut d = match RouteDump::new(true, vec![7, 8]) {
        Ok(d) => d,
        Err(e) => panic!("{e:?}"),
    };
    assert_eq!(d.ask(), Some((7, 0)));
    d.record(vec![vec![1]]);
    assert_eq!(d.ask(), Some((8, 1)));
    d.record(vec![vec![2]]);
    assert_eq!(d.ask(), None);
    assert_eq!(d.into_trace(), vec![vec![vec![1]], vec![vec![2]]]);
    assert_eq!(observed_layers(1, 1, 4), vec![1, 2, 3]);
    assert!(observed_layers(0, 1, 4).is_empty() && observed_layers(3, 5, 4).is_empty());
}

#[test]
fn a_snapshot_takes_each_layers_newest_set() {
    let latest = vec![None, Some(vec![3, 1])];
    assert_eq!(route_snapshot(Some(&latest), 3), vec![vec![], vec![3, 1], vec![]]);
    assert_eq!(route_snapshot(None, 2), vec![Vec::<i32>::new(), vec![]]);
}

#[test]
fn gate_frames_without_experts_are_dropped() {
    let mut t = GateTrace::default();
    assert!(t.is_empty());
    assert_eq!(t.finish(), Err(TraceError::Empty));
    t.push(3, vec![], vec![]);
    t.push(4, vec![7], vec![1.5f32.to_bits()]);
    assert_eq!((t.len(), t.finish()), (1, Ok(1)));
    assert_eq!(t.frame(0), &(4, vec![7], vec![1.5f32.to_bits()]));
}
