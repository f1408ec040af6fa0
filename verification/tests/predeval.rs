use peregrine_model::predeval::{control_candidates, PredictEval, Separation, CONTROL_ARM};

fn ratio(part: (u64, u64)) -> f64 {
    if part.1 == 0 {
        0.0
    } else {
        part.0 as f64 / part.1 as f64
    }
}

fn ratios(parts: &[(u64, u64)]) -> Vec<f64> {
    parts.iter().map(|p| ratio(*p)).collect()
}

fn separation_of(ev: &PredictEval) -> Separation {
    match ev.separation() {
        Some(s) => s,
        None => panic!("a control arm is present"),
    }
}

#[test]
fn a_perfect_and_a_useless_arm_score_as_such() {
    let mut ev = PredictEval::new(4, &["oracle", "noise"]);
    let actual = vec![7i32, 3, 9, 1];
    ev.stash(5, vec![vec![7, 3, 9, 1], vec![100, 101, 102, 103]]);
    ev.score(5, &actual);
    let r = ev.report();
    assert_eq!(ratio(r[0].recall), 1.0);
    assert_eq!(ratio(r[0].precision), 1.0);
    assert_eq!(ratios(&r[0].precision_at), vec![1.0; 4]);
    assert_eq!(ratio(r[1].recall), 0.0);
    assert_eq!(ratio(r[1].precision), 0.0);
}

#[test]
fn precision_by_rank_is_what_separates_two_equal_recalls() {
    let mut ev = PredictEval::new(4, &["steep", "flat"]);
    let actual = vec![1i32, 2];
    //                        hits at ranks 0,1        hits at ranks 1,3
    ev.stash(0, vec![vec![1, 2, 90, 91], vec![90, 1, 91, 2]]);
    ev.score(0, &actual);
    let r = ev.report();
    assert_eq!(ratio(r[0].recall), ratio(r[1].recall), "same recall by construction");
    assert_eq!(ratios(&r[0].precision_at), vec![1.0, 1.0, 0.0, 0.0]);
    assert_eq!(ratios(&r[1].precision_at), vec![0.0, 1.0, 0.0, 1.0]);
}

#[test]
fn an_arm_that_abstains_is_not_an_arm_that_guessed_wrong() {
    let mut ev = PredictEval::new(3, &["cold"]);
    ev.stash(0, vec![vec![]]);
    ev.score(0, &[1, 2]);
    ev.stash(1, vec![vec![1, 2]]);
    ev.score(1, &[1, 2]);
    let r = ev.report();
    assert_eq!(r[0].asked, 2);
    assert_eq!(r[0].silent, 1);
    assert_eq!(ratio(r[0].precision_at[0]), 1.0, "the one real offer at rank 0 was right");
    assert_eq!(ratio(r[0].precision_at[2]), 0.0, "rank 2 was never offered");
    // Recall is over both layers: 2 covered of 4 actual.
    assert_eq!(ratio(r[0].recall), 0.5);
}

#[test]
fn unscored_and_mismatched_predictions_are_dropped_not_misattributed() {
    let mut ev = PredictEval::new(2, &["a", "b"]);
    ev.stash(0, vec![vec![1]]);
    ev.score(0, &[1]);
    assert!(ev.report().is_empty(), "nothing was validly stashed, so nothing is scored");
    // A layer that never routes leaves its prediction unscored.
    ev.stash(1, vec![vec![1], vec![2]]);
    ev.score(1, &[]);
    assert_eq!(ev.scored_layers(), 0);
}

#[test]
fn duplicate_stash_keeps_the_newer_prediction() {
    let mut ev = PredictEval::new(2, &["a"]);
    ev.stash(3, vec![vec![90, 91]]);
    ev.stash(3, vec![vec![1, 2]]);
    ev.score(3, &[1, 2]);
    assert_eq!(ratio(ev.report()[0].recall), 1.0);
}

#[test]
fn recall_counts_distinct_coverage_not_repeated_candidates() {
    let mut ev = PredictEval::new(4, &["repeat"]);
    ev.stash(0, vec![vec![1, 1, 1, 1]]);
    ev.score(0, &[1, 2, 3, 4]);
    let r = ev.report();
    assert!(ratio(r[0].recall) <= 1.0);
    assert_eq!(ratio(r[0].recall), 0.25, "one of four actual experts covered");
}

#[test]
fn the_control_is_deterministic_and_offers_distinct_experts() {
    let a = control_candidates(8, 64, 3, 11);
    let b = control_candidates(8, 64, 3, 11);
    assert_eq!(a, b, "same (layer, token) must give the same control");
    assert_ne!(a, control_candidates(8, 64, 4, 11), "a different layer must differ");
    assert_ne!(a, control_candidates(8, 64, 3, 12), "a different token must differ");
    assert_eq!(a.len(), 8, "the control must offer at the same rate as the real arms");
    let mut sorted = a.clone();
    sorted.sort_unstable();
    sorted.dedup();
    assert_eq!(sorted.len(), a.len(), "duplicate ids would understate the control's own floor");
    assert!(a.iter().all(|&e| (0..64).contains(&e)), "ids must be in range: {a:?}");
}

#[test]
fn the_control_cannot_offer_more_experts_than_exist() {
    let c = control_candidates(16, 4, 0, 0);
    assert_eq!(c.len(), 4, "width is capped by the expert count: {c:?}");
    assert!(control_candidates(8, 0, 0, 0).is_empty(), "no experts means no candidates");
}

#[test]
fn a_scoreboard_that_cannot_beat_noise_says_so() {
    let mut ev = PredictEval::new(2, &["real", CONTROL_ARM]);
    for layer in 0..50 {
        // Both arms guess the same wrong thing: no separation exists.
        ev.stash(layer, vec![vec![90, 91], vec![92, 93]]);
        ev.score(layer, &[1, 2]);
    }
    assert!(ev.separation().is_some(), "a control arm is present");
    let sep = separation_of(&ev);
    assert_eq!(ratio((sep.control, sep.actual)), 0.0);
    assert!(sep.verdict().contains("WARNING"), "{}", sep.verdict());
    assert!(sep.verdict().contains("should not be quoted"), "{}", sep.verdict());
}

#[test]
fn a_scoreboard_that_separates_says_that_too() {
    let mut ev = PredictEval::new(2, &["real", CONTROL_ARM]);
    for layer in 0..50 {
        ev.stash(layer, vec![vec![1, 2], vec![90, 91]]);
        ev.score(layer, &[1, 2]);
    }
    assert!(ev.separation().is_some(), "a control arm is present");
    let sep = separation_of(&ev);
    assert!((ratio((sep.best_real, sep.actual)) - 1.0).abs() < 1e-9, "the real arm caught everything");
    assert_eq!(sep.best_name, "real");
    assert!(sep.best_real > 2 * sep.control && sep.separates());
    assert!(sep.verdict().contains("separates signal from noise"), "{}", sep.verdict());
}

#[test]
fn separation_is_none_without_a_control_arm() {
    let mut ev = PredictEval::new(2, &["a", "b"]);
    ev.stash(0, vec![vec![1], vec![2]]);
    ev.score(0, &[1, 2]);
    assert!(ev.separation().is_none());
}

#[test]
fn the_control_scores_above_zero_when_it_guesses_widely() {
    let mut ev = PredictEval::new(8, &["real", CONTROL_ARM]);
    for layer in 0..100u64 {
        let c = control_candidates(8, 16, layer as usize, layer);
        ev.stash(layer as usize, vec![vec![0], c]);
        ev.score(layer as usize, &[1, 2, 3, 4]);
    }
    assert!(ev.separation().is_some(), "control present");
    let sep = separation_of(&ev);
    assert!(sep.control > 0, "uniform guessing over 16 experts must catch some of 4");
}

#[test]
fn twice_the_noise_floor_is_enough_and_less_is_not() {
    let at = |best_real: u64, control: u64| Separation {
        best_real,
        control,
        actual: 100,
        best_name: String::new(),
    };
    assert!(at(10, 5).separates());
    assert!(!at(9, 5).separates());
    assert!(at(1, 0).separates());
    assert!(!at(0, 0).separates());
    assert!(!at(u64::MAX, u64::MAX).separates());
}

#[test]
fn the_last_of_equally_good_arms_is_the_best() {
    let mut ev = PredictEval::new(1, &["x", "y", CONTROL_ARM]);
    ev.stash(0, vec![vec![1], vec![1], vec![2]]);
    ev.score(0, &[1]);
    assert_eq!(separation_of(&ev).best_name, "y");
}

#[test]
fn an_unscored_board_separates_nothing() {
    let ev = PredictEval::new(1, &["x", CONTROL_ARM]);
    assert!(ev.separation().is_none());
    assert!(ev.report().is_empty());
    assert_eq!((ev.width(), ev.arms(), ev.scored()), (1, 2, 0));
}

#[test]
fn scoring_a_layer_twice_counts_it_once() {
    let mut ev = PredictEval::new(2, &["a", "b"]);
    assert!(ev.report().is_empty());
    ev.stash(3, vec![vec![1, 2], vec![]]);
    ev.stash(4, vec![vec![5], vec![6]]);
    ev.score(3, &[1]);
    ev.score(3, &[1, 2]);
    ev.score(7, &[1]);
    assert_eq!((ev.scored(), ev.scored_layers()), (1, 1));
    ev.score(4, &[]);
    ev.score(4, &[5]);
    assert_eq!(ev.scored(), 1, "a layer that routed nothing drops its candidates");
    let r = ev.report();
    assert_eq!((r[0].asked, r[0].silent, r[0].precision_at.clone()), (1, 0, vec![(1, 1), (0, 1)]));
    assert_eq!((r[1].asked, r[1].silent, r[1].precision_at.clone()), (1, 1, vec![(0, 0), (0, 0)]));
}
