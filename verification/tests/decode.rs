use peregrine_model::decode::{accept_run, is_stop, mode, Ask, Generation, Mode, Speculation};
use peregrine_model::drafts::{BatchDraft, HeadDraft, SampledAsk, SampledRun};

/// A stand-in for a model's greedy choice: the next token is a fixed function
/// of the sequence so far.
fn greedy(history: &[i32]) -> i32 {
    let last = *history.last().unwrap_or(&0);
    (last * 7 + history.len() as i32 * 3 + 1) % 23
}

fn decode_greedily(prompt: &[i32], n_new: usize, stops: Vec<i32>) -> Vec<i32> {
    let mut g = Generation::new(prompt.len(), n_new, stops);
    let mut history = prompt.to_vec();
    loop {
        match g.ask() {
            Ask::Prefill => {
                let t = greedy(&history);
                g.feed(t);
            }
            Ask::Step { token, pos } => {
                assert_eq!(pos, history.len());
                history.push(token);
                let t = greedy(&history);
                g.feed(t);
            }
            Ask::Done => return g.into_tokens(),
        }
    }
}

fn decode_speculating(prompt: &[i32], n_new: usize, stops: Vec<i32>, depth: usize, wrong_at: usize) -> Vec<i32> {
    let mut history = prompt.to_vec();
    let first = greedy(&history);
    let mut s = Speculation::new(prompt.len(), n_new, stops, first);
    while !s.is_complete() {
        // Draft the truth, spoiled at one place.
        let g = s.draft_depth(depth);
        let mut ahead = history.clone();
        ahead.push(s.pending_token());
        let mut drafts: Vec<i32> = Vec::new();
        for k in 0..g {
            let mut t = greedy(&ahead);
            if k == wrong_at {
                t = (t + 1) % 23;
            }
            drafts.push(t);
            ahead.push(t);
        }
        let rows = s.verify_rows(&drafts);
        assert_eq!(s.start(), history.len());
        let mut seen = history.clone();
        let preds: Vec<i32> = rows
            .iter()
            .map(|t| {
                seen.push(*t);
                greedy(&seen)
            })
            .collect();
        let r = s.judge(&drafts, &preds);
        history.extend_from_slice(&rows[..1 + r.accepted]);
        if !r.stopped {
            s.resume(preds[r.accepted]);
        }
    }
    s.into_tokens()
}

#[test]
fn speculation_emits_what_greedy_decoding_emits() {
    let prompt = [3, 7, 1, 4];
    for n_new in [1usize, 2, 5, 12] {
        let plain = decode_greedily(&prompt, n_new, vec![]);
        assert_eq!(plain.len(), n_new);
        for depth in 0..5 {
            for wrong_at in 0..5 {
                assert_eq!(decode_speculating(&prompt, n_new, vec![], depth, wrong_at), plain);
            }
        }
    }
}

#[test]
fn a_stop_token_ends_both_ways_of_decoding_alike() {
    let prompt = [3, 7, 1, 4];
    let plain = decode_greedily(&prompt, 12, vec![]);
    let stop = plain[4];
    let cut = decode_greedily(&prompt, 12, vec![stop]);
    assert_eq!(cut.last(), Some(&stop));
    assert!(cut.len() <= 5);
    for depth in 0..6 {
        assert_eq!(decode_speculating(&prompt, 12, vec![stop], depth, 9), cut);
    }
}

#[test]
fn nothing_asked_for_is_nothing_generated() {
    assert!(decode_greedily(&[1, 2], 0, vec![]).is_empty());
    assert!(is_stop(&vec![4, 5], 5));
    assert!(!is_stop(&vec![], 5));
}

#[test]
fn a_draft_counts_only_while_it_is_what_the_model_says() {
    assert_eq!(accept_run(&[5, 6, 7], &[5, 6]), (2, 7));
    assert_eq!(accept_run(&[5, 6, 7], &[5, 9]), (1, 6));
    assert_eq!(accept_run(&[5, 6, 7], &[9, 6]), (0, 5));
    assert_eq!(accept_run(&[5], &[]), (0, 5));
}

#[test]
fn the_memory_guard_is_due_now_and_then() {
    let mut g = Generation::new(1, 40, vec![]);
    let mut due = 0;
    while !matches!(g.ask(), Ask::Done) {
        if g.guard_due() {
            due += 1;
        }
        g.feed(1);
    }
    assert!((1..=3).contains(&due), "every sixteenth token: {due}");
}

#[test]
fn a_head_drafts_on_its_own_output() {
    let mut d = HeadDraft::new(9, 3);
    let mut seen = Vec::new();
    while let Some(row) = d.next_row() {
        seen.push((row.token, row.pos, row.norm_first));
        d.take(Some(row.token + 1));
    }
    assert_eq!(seen, vec![(9, 0, true), (10, 1, false), (11, 2, false)]);
    assert_eq!(d.into_drafts(), vec![10, 11, 12]);
    // A head that declines ends the draft.
    let mut d = HeadDraft::new(9, 3);
    d.take(Some(4));
    d.take(None);
    assert!(d.next_row().is_none());
    assert_eq!(d.into_drafts(), vec![4]);
}

#[test]
fn a_batch_drafts_as_each_sequence_would_alone() {
    let next = [9, 20, 3];
    let depth = [3usize, 1, 2];
    let pick = |t: i32| if t == 10 { None } else { Some(t + 1) };
    let mut b = match BatchDraft::new(&next, &[true, true, true], &depth) {
        Some(b) => b,
        None => panic!("the lists agree"),
    };
    while !b.is_done() {
        let picks: Vec<Option<i32>> = (0..b.row_count()).map(|r| pick(b.row(r).1.token)).collect();
        b.step(&picks);
    }
    let together = b.into_drafts();
    for s in 0..3 {
        let mut d = HeadDraft::new(next[s], depth[s]);
        while let Some(row) = d.next_row() {
            d.take(pick(row.token));
        }
        assert_eq!(together[s], d.into_drafts());
    }
    assert_eq!(together, vec![vec![10], vec![21], vec![4, 5]]);
    assert!(BatchDraft::new(&next, &[true, true], &depth).is_none(), "one list is short");
}

#[test]
fn a_missing_or_out_of_vocab_draft_distribution_stops_the_run() {
    const VOCAB: usize = 4;
    // Two drafts, one distribution: the second cannot be scored.
    let mut r = SampledRun::new();
    match r.ask(&[0, 0], 3, &[VOCAB], VOCAB) {
        SampledAsk::Judge { k, drafted } => {
            assert_eq!((k, drafted), (0, 0));
            r.heard(drafted, 0);
        }
        other => panic!("the first draft has a distribution: {other:?}"),
    }
    assert!(matches!(r.ask(&[0, 0], 3, &[VOCAB], VOCAB), SampledAsk::Sample { row: 1 }));
    assert!(r.accepted() <= 1, "a draft with no recorded distribution must not be accepted");
    // An out-of-vocabulary draft id is rejected, never indexed.
    let r = SampledRun::new();
    assert!(matches!(r.ask(&[99], 3, &[VOCAB], VOCAB), SampledAsk::Sample { row: 0 }));
    assert_eq!(r.accepted(), 0, "an out-of-vocab draft is not acceptable");
    assert!(matches!(r.ask(&[-1], 3, &[VOCAB], VOCAB), SampledAsk::Sample { row: 0 }));
    // No drafts at all is a single-token step.
    let r = SampledRun::new();
    assert!(matches!(r.ask(&[], 3, &[], VOCAB), SampledAsk::Sample { row: 0 }));
    assert_eq!(r.accepted(), 0);
    assert!(matches!(r.ask(&[], 0, &[], VOCAB), SampledAsk::NoRow));
}

#[test]
fn a_replaced_draft_ends_the_run() {
    let mut r = SampledRun::new();
    r.heard(2, 3);
    assert!(matches!(r.ask(&[2, 1], 3, &[4, 4], 4), SampledAsk::Ended { token: 3 }));
    assert_eq!(r.accepted(), 0);
}

#[test]
fn speculation_needs_a_head_a_depth_and_a_cache_that_forgets() {
    assert_eq!(mode(3, 8, true, 4, true), Mode::Speculative);
    assert_eq!(mode(3, 8, false, 4, true), Mode::Greedy);
    assert_eq!(mode(3, 8, true, 0, true), Mode::Greedy);
    assert_eq!(mode(3, 8, true, 4, false), Mode::Greedy, "a recurrent state keeps a rejected draft");
    assert_eq!(mode(0, 8, true, 4, true), Mode::Nothing);
    assert_eq!(mode(3, 0, true, 4, false), Mode::Nothing);
}
