use peregrine_model::layers::Attn;
use peregrine_model::stack::{
    dense_from, forward_hidden, forward_layer, forward_layer_batched, forward_prefill_seq, forward_rows,
    llc_delta, nudge_towards, replayed_layers, Act, DenseFrom, Ffn, ForwardGates, LayerShape, Mixer,
    Nudge, RefineStep, Refinement, StackError, Switches,
};

fn layer(attn: Attn, indexed: bool, sparse: bool, dense: bool) -> LayerShape {
    LayerShape { attn, indexed, sparse, dense }
}

fn switches(dsa: bool, absorb: bool, stream: bool, calib: bool) -> Switches {
    Switches { dsa, absorb, stream, calib }
}

fn mixer(l: LayerShape, sw: Switches) -> Mixer {
    match forward_layer(&l, 0, true, &sw) {
        Ok(w) => w.mixer,
        Err(e) => panic!("there is a state: {e:?}"),
    }
}

#[test]
fn sparse_selection_comes_before_absorption() {
    let l = layer(Attn::Mla, true, true, false);
    assert_eq!(mixer(l, switches(true, true, true, false)), Mixer::MlaIndexed);
    assert_eq!(mixer(l, switches(false, true, true, false)), Mixer::MlaAbsorb);
    assert_eq!(mixer(l, switches(false, false, true, false)), Mixer::MlaDense);
    // Without an indexer the switch is inert.
    let l = layer(Attn::Mla, false, true, false);
    assert_eq!(mixer(l, switches(true, false, true, false)), Mixer::MlaDense);
    assert_eq!(mixer(layer(Attn::Gqa, false, false, true), switches(true, true, true, true)), Mixer::Gqa);
}

#[test]
fn a_recurrent_layer_needs_its_state() {
    let l = layer(Attn::Gdn, false, false, true);
    let sw = switches(false, false, false, false);
    assert!(matches!(forward_layer(&l, 4, false, &sw), Err(StackError::NoState(4))));
    assert_eq!(mixer(l, sw), Mixer::Gdn);
}

#[test]
fn feed_forward_goes_where_the_experts_are() {
    let ffn = |l: LayerShape, sw: Switches| match forward_layer(&l, 2, true, &sw) {
        Ok(w) => (w.ffn, w.capture),
        Err(e) => panic!("{e:?}"),
    };
    let sparse = layer(Attn::Mla, false, true, false);
    assert_eq!(ffn(sparse, switches(false, false, true, true)), (Ok(Ffn::Streamed), true));
    assert_eq!(ffn(sparse, switches(false, false, false, false)), (Ok(Ffn::Resident), false));
    let dense = layer(Attn::Mla, false, false, true);
    assert_eq!(ffn(dense, switches(false, false, true, true)), (Ok(Ffn::Dense), false));
    let missing = layer(Attn::Mla, false, false, false);
    assert_eq!(
        ffn(missing, switches(false, false, true, false)),
        (Err(StackError::DenseMissing(2)), false)
    );
}

#[test]
fn rows_run_until_one_has_no_state() {
    let sw = switches(false, false, false, false);
    let l = layer(Attn::Gdn, false, false, true);
    let w = forward_layer_batched(&l, 3, &[0, 1, 2], &vec![true, false, true], &sw);
    assert_eq!((w.rows, w.by_row), (1, true));
    assert_eq!(w.fault, Some(StackError::NoRowState { layer: 3, row: 1, owner: 1 }));
    let w = forward_layer_batched(&l, 3, &[0, 9], &vec![true], &sw);
    assert_eq!(w.fault, Some(StackError::NoRowState { layer: 3, row: 1, owner: 9 }));
    // Attention over a cache needs none, and latent attention takes the rows at once.
    let w = forward_layer_batched(&layer(Attn::Mla, false, false, true), 3, &[0, 1], &vec![], &sw);
    assert_eq!((w.rows, w.by_row, w.fault), (2, false, None));
}

#[test]
fn a_device_fault_costs_no_request() {
    assert_eq!(dense_from(None), DenseFrom::Host);
    assert_eq!(dense_from(Some(true)), DenseFrom::Device);
    assert_eq!(dense_from(Some(false)), DenseFrom::HostAfterFault);
}

fn gates() -> ForwardGates {
    ForwardGates {
        rows: 1,
        lookahead: true,
        lane: true,
        history: true,
        cache: true,
        router_lookahead: true,
        router_width: 6,
        scoreboard: true,
        protect: true,
        tuner: true,
        miss_feedback: true,
        entropy: true,
        learned: 4,
    }
}

#[test]
fn a_decode_step_scores_after_it_reads() {
    let acts = forward_hidden(&gates(), 2);
    assert_eq!(
        acts,
        vec![
            Act::LogRouting,
            Act::Tick,
            Act::Layer(0),
            Act::WarmPredicted(0),
            Act::AskRouter { layer: 1, width: 6 },
            Act::Score(0),
            Act::Tick,
            Act::Layer(1),
            Act::WarmPredicted(1),
            Act::AskRouter { layer: 2, width: 6 },
            Act::Score(1),
            Act::FoldTopic,
            Act::Protect,
            Act::ShowCounters,
            Act::MissFeedback,
            Act::EntropyFeedback,
            Act::LearnedFeedback,
            Act::Publish,
        ]
    );
}

#[test]
fn a_prefill_chunk_speculates_nothing_of_routers() {
    let g = ForwardGates { rows: 9, lookahead: false, protect: false, tuner: false, miss_feedback: false, ..gates() };
    assert_eq!(
        forward_hidden(&g, 1),
        vec![Act::LogRouting, Act::Tick, Act::Layer(0), Act::WarmAll, Act::FoldTopic, Act::Publish]
    );
}

#[test]
fn whatever_the_gates_every_layer_runs_once() {
    for bits in 0..64u32 {
        let on = |b: u32| bits & (1 << b) != 0;
        let g = ForwardGates {
            rows: if on(0) { 1 } else { 5 },
            lookahead: on(1),
            lane: on(2),
            history: on(3),
            cache: on(4),
            scoreboard: on(5),
            ..gates()
        };
        let acts = forward_hidden(&g, 3);
        let run: Vec<Act> = acts.iter().copied().filter(|a| matches!(a, Act::Layer(_))).collect();
        assert_eq!(run, vec![Act::Layer(0), Act::Layer(1), Act::Layer(2)]);
        let bulk = acts.contains(&Act::WarmAll);
        let by_layer = acts.iter().any(|a| matches!(a, Act::WarmPredicted(_)));
        assert!(!(bulk && by_layer));
    }
}

#[test]
fn batched_rows_ask_ahead_and_publish() {
    assert_eq!(
        forward_rows(3, true, true, 1),
        vec![Act::Tick, Act::Layer(0), Act::AskRouter { layer: 1, width: 3 }, Act::Publish]
    );
    assert_eq!(forward_rows(3, true, false, 1), vec![Act::Tick, Act::Layer(0), Act::Publish]);
    assert_eq!(forward_prefill_seq(2), vec![Act::Tick, Act::Layer(0), Act::Tick, Act::Layer(1)]);
}

#[test]
fn refinement_replays_the_last_layers_to_its_depth() {
    assert_eq!(replayed_layers(5, 2), vec![3, 4]);
    assert_eq!(replayed_layers(2, 9), vec![0, 1]);
    let mut r = Refinement::new();
    assert_eq!(r.step(true, 2, true), RefineStep::Replay { first: true });
    assert_eq!(r.step(true, 2, true), RefineStep::Replay { first: false });
    assert_eq!(r.step(true, 2, true), RefineStep::Stop { refined: true });
    let mut r = Refinement::new();
    assert_eq!(r.step(false, 2, true), RefineStep::Stop { refined: false });
    assert_eq!(r.step(true, 2, false), RefineStep::Stop { refined: false });
}

#[test]
fn the_distance_moves_one_step_towards_the_learned_one() {
    assert_eq!(nudge_towards(3, 5), Nudge::Up);
    assert_eq!(nudge_towards(6, 5), Nudge::Down);
    assert_eq!(nudge_towards(5, 5), Nudge::Hold);
    assert_eq!(nudge_towards(5, 0), Nudge::Hold);
}

#[test]
fn a_reset_counter_reads_as_no_misses() {
    assert_eq!(llc_delta(Some(90), 50), (Some(40), 90));
    assert_eq!(llc_delta(Some(10), 50), (Some(0), 10));
    assert_eq!(llc_delta(None, 50), (None, 50));
}
