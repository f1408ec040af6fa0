use peregrine_model::ngram::NgramDrafter;

#[test]
fn proposes_the_continuation_of_a_repeated_suffix() {
    // "1 2 3 4 5" earlier; the sequence now ends "... 3 4", so 5 follows.
    let d = NgramDrafter::new(3);
    let hist = [1i32, 2, 3, 4, 5, 9, 9, 1, 2, 3];
    assert_eq!(d.draft(&hist, 4, 2), vec![5, 9]);
}

#[test]
fn the_pending_token_is_part_of_the_pattern() {
    // The suffix is "2 3", not "... 2", so 4 follows and not 3.
    let d = NgramDrafter::new(3);
    let hist = [1i32, 2, 3, 4, 5, 8, 1, 2];
    assert_eq!(d.draft(&hist, 3, 1), vec![4]);
}

#[test]
fn prefers_the_most_recent_occurrence() {
    // "7 7" is followed by 1 the first time and by 2 the second.
    let d = NgramDrafter::new(2);
    let hist = [7i32, 7, 1, 5, 5, 7, 7, 2, 6, 7];
    assert_eq!(d.draft(&hist, 7, 1), vec![2]);
}

#[test]
fn prefers_a_longer_match_over_a_shorter_more_recent_one() {
    let d = NgramDrafter::new(3);
    let hist = [4i32, 5, 6, 111, 0, 0, 5, 6, 222, 0, 4, 5];
    assert_eq!(d.draft(&hist, 6, 1), vec![111]);
    assert_eq!(NgramDrafter::new(2).draft(&hist, 6, 1), vec![222]);
}

#[test]
fn no_match_drafts_nothing() {
    let d = NgramDrafter::new(3);
    assert!(d.draft(&[1i32, 2, 3], 9, 4).is_empty());
}

#[test]
fn never_reads_past_the_end_of_history() {
    let d = NgramDrafter::new(2);
    assert_eq!(d.draft(&[7i32, 5, 5], 5, 4), vec![5]);
    assert_eq!(d.draft(&[1i32, 2, 7, 1], 2, 4), vec![7, 1, 2]);
}

#[test]
fn degenerate_inputs_are_empty_not_panics() {
    let d = NgramDrafter::new(3);
    assert!(d.draft(&[], 1, 4).is_empty(), "no history");
    assert!(d.draft(&[1i32, 1, 1], 1, 0).is_empty(), "zero depth");
    assert!(!NgramDrafter::new(1).is_enabled(), "below the floor is off");
    assert!(d.draft(&[1i32], 1, 2).is_empty(), "one token cannot form a 2-gram match");
}

#[test]
fn a_period_one_repeat_matches_but_does_not_extrapolate() {
    let d = NgramDrafter::new(2);
    assert_eq!(d.draft(&[5i32, 5, 5], 5, 4), vec![5]);
}

#[test]
fn the_default_drafter_matches_up_to_three_tokens() {
    let d = NgramDrafter::default();
    assert!(d.is_enabled());
    let hist = [4i32, 5, 6, 111, 0, 0, 5, 6, 222, 0, 4, 5];
    assert_eq!(d.draft(&hist, 6, 1), vec![111]);
}

#[test]
fn a_smaller_depth_only_cuts_the_draft() {
    let d = NgramDrafter::new(3);
    let hist = [1i32, 2, 3, 4, 5, 9, 9, 1, 2, 3];
    let deep = d.draft(&hist, 4, 100);
    for depth in 0..12 {
        let cut = d.draft(&hist, 4, depth);
        assert_eq!(cut, deep[..depth.min(deep.len())].to_vec());
    }
}
