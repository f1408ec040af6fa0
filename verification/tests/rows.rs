use peregrine_model::cfg::{Arch, Cfg};
use peregrine_model::knobs::KvDtype;
use peregrine_model::kv::CacheError;
use peregrine_model::rows::{
    check_rows, check_tree_rows, forward_step_batched, is_batched_decode, lay_verify_rows,
    lookahead_rows_width, roll_back, step_owners, supports_token_trees, token_row,
    verify_drafts_batched, RowError, Verified,
};
use peregrine_model::seqkv::{GdnState, SeqKv};

fn one_layer() -> Cfg {
    Cfg {
        arch: Arch::GlmMla,
        n_layers: 1,
        n_experts: 2,
        hidden: 4,
        moe_inter: 2,
        first_dense: 0,
        vocab: 16,
        topk: 1,
        n_shared: 0,
        dense_inter: 4,
        n_heads: 1,
        n_kv_heads: 1,
        head_dim: 2,
        attn_gate: false,
        qk_head: 2,
        qk_nope: 1,
        qk_rope: 1,
        v_head: 1,
        q_lora: 2,
        kv_lora: 1,
        lin_k_heads: 0,
        lin_v_heads: 0,
        lin_k_dim: 0,
        lin_v_dim: 0,
        lin_conv_k: 0,
        gdn_cells: 0,
        kv_row_a: 1,
        kv_row_b: 1,
        full_attn: vec![],
    }
}

fn sequence(len: usize) -> SeqKv {
    let mut s = SeqKv::with_dtype(&one_layer(), KvDtype::F32);
    for pos in 0..len {
        assert_eq!(s.append(0, pos, &[pos as u32], &[pos as u32]), Ok(()));
    }
    s
}

#[test]
fn a_bad_owner_is_reported_rather_than_indexed_past() {
    assert_eq!(check_rows(2, &[0, 5], 1, 2, None), Err(RowError::Owner(5)));
    assert_eq!(check_rows(2, &[0], 1, 2, None), Err(RowError::Lengths));
    assert_eq!(check_rows(2, &[0, 0], 1, 1, None), Err(RowError::Lengths));
    assert_eq!(check_rows(2, &[0, 0], 1, 2, Some(3)), Err(RowError::Histories));
    assert_eq!(check_rows(2, &[0, 0], 1, 2, Some(2)), Ok(()));
}

#[test]
fn a_tree_is_refused_where_it_would_be_linearised() {
    assert_eq!(
        check_tree_rows(Arch::HybridGdn, 3, &[0, 0, 0], 1, 3, None),
        Err(RowError::TreeUnsupported)
    );
    assert_eq!(check_tree_rows(Arch::GlmMla, 3, &[0, 0, 0], 1, 3, None), Ok(()));
    assert_eq!(check_tree_rows(Arch::GlmMla, 3, &[0, 4, 0], 1, 3, None), Err(RowError::Owner(4)));
    assert!(supports_token_trees(Arch::GlmMla) && !supports_token_trees(Arch::DenseGqa));
}

#[test]
fn token_ids_are_brought_into_the_vocabulary() {
    assert_eq!((token_row(-3, 8), token_row(5, 8), token_row(99, 8), token_row(4, 0)), (0, 5, 7, 0));
}

#[test]
fn only_a_decode_step_asks_routers_ahead() {
    assert!(is_batched_decode(&[2, 0, 1]));
    assert!(!is_batched_decode(&[0, 0, 1]), "a verify batch owns two rows of one sequence");
    assert!(!is_batched_decode(&[]));
    assert_eq!(lookahead_rows_width(true, true, 6, &[0, 1]), 6);
    assert_eq!(lookahead_rows_width(true, false, 6, &[0, 1]), 0);
    assert_eq!(lookahead_rows_width(true, false, 6, &[0]), 6);
    assert_eq!(lookahead_rows_width(false, true, 6, &[0]), 0);
    assert_eq!(lookahead_rows_width(true, true, 6, &[0, 0]), 0);
}

#[test]
fn a_decode_step_has_one_row_per_sequence() {
    assert_eq!(step_owners(3), vec![0, 1, 2]);
    assert_eq!(forward_step_batched(2, 2, 2), Ok(vec![0, 1]));
    assert_eq!(forward_step_batched(2, 3, 2), Err(RowError::Lengths));
    assert_eq!(forward_step_batched(2, 2, 1), Err(RowError::Lengths));
}

#[test]
fn sequences_verify_different_depths_in_one_forward() {
    let drafts = vec![vec![4, 5], vec![], vec![6]];
    let rows = match lay_verify_rows(&[1, 2, 3], &drafts, &[7, 0, 2], 3) {
        Some(r) => r,
        None => panic!("the lists agree"),
    };
    assert_eq!(rows.tokens, vec![1, 4, 5, 2, 3, 6]);
    assert_eq!(rows.owner, vec![0, 0, 0, 1, 2, 2]);
    assert_eq!(rows.pos, vec![7, 8, 9, 0, 2, 3]);
    assert_eq!(rows.first_row, vec![0, 3, 4]);
    assert!(lay_verify_rows(&[1, 2], &drafts, &[7, 0], 2).is_none());
}

#[test]
fn a_rejected_draft_leaves_no_trace() {
    // Three rows each were appended past positions 2 and 1.
    let mut seqs = vec![sequence(5), sequence(4)];
    let drafts = vec![vec![4, 5], vec![6, 7]];
    let preds = vec![vec![4, 9, 0], vec![6, 7, 8]];
    let r = match verify_drafts_batched(&[1, 2], &drafts, &mut seqs, &[2, 1], &preds) {
        Some(r) => r,
        None => panic!("the lists agree"),
    };
    assert_eq!((r.verified[0].tokens.clone(), r.verified[0].next, r.verified[0].accepted), (vec![1, 4], 9, 1));
    assert_eq!((r.verified[1].tokens.clone(), r.verified[1].next, r.verified[1].accepted), (vec![2, 6, 7], 8, 2));
    assert_eq!(r.rows, vec![1, 5]);
    assert_eq!(r.rollback, vec![false, false]);
    assert_eq!((seqs[0].len(), seqs[1].len()), (4, 4));
    assert!(verify_drafts_batched(&[1], &drafts, &mut seqs, &[2, 1], &preds).is_none());
}

#[test]
fn a_batch_verifies_as_each_sequence_would_alone() {
    let (next, drafts, pos) = ([1, 2], vec![vec![4, 5], vec![6, 7]], [2, 1]);
    let preds = vec![vec![4, 9, 0], vec![6, 7, 8]];
    let mut seqs = vec![sequence(5), sequence(4)];
    let r = match verify_drafts_batched(&next, &drafts, &mut seqs, &pos, &preds) {
        Some(r) => r,
        None => panic!("the lists agree"),
    };
    for s in 0..2 {
        let mut alone = vec![sequence(pos[s] + 3)];
        let one = verify_drafts_batched(
            &next[s..s + 1],
            &vec![drafts[s].clone()],
            &mut alone,
            &pos[s..s + 1],
            &vec![preds[s].clone()],
        );
        let one = match one {
            Some(one) => one,
            None => panic!("the lists agree"),
        };
        let (a, b) = (&one.verified[0], &r.verified[s]);
        assert_eq!((&a.tokens, a.next, a.accepted), (&b.tokens, b.next, b.accepted));
        assert_eq!((alone[0].len(), seqs[s].len()), (pos[s] + 1 + a.accepted, pos[s] + 1 + a.accepted));
    }
}

/// A model whose only context is a recurrent state: running a token folds it in,
/// and the prediction is read off the state.
fn run(seq: &mut SeqKv, tokens: &[i32]) -> Vec<i32> {
    tokens
        .iter()
        .map(|t| {
            let snap = match seq.gdn_snapshot() {
                Some(s) => s,
                None => panic!("the layer is recurrent"),
            };
            let cell = snap[0].1.cells[0].wrapping_mul(31).wrapping_add(*t as u32 + 1);
            assert_eq!(seq.advance(0, GdnState { len: snap[0].1.len + 1, cells: vec![cell] }), Ok(()));
            (cell % 11) as i32
        })
        .collect()
}

#[test]
fn a_rolled_back_round_decodes_on_as_if_it_had_never_been_drafted() {
    let cfg = Cfg { arch: Arch::HybridGdn, full_attn: vec![false], gdn_cells: 1, ..one_layer() };
    // Plainly, one token at a time.
    let mut plain = SeqKv::with_dtype(&cfg, KvDtype::F32);
    let first = run(&mut plain, &[1, 5, 9])[2];
    let mut want = vec![first];
    for _ in 0..3 {
        let next = run(&mut plain, &[want[want.len() - 1]])[0];
        want.push(next);
    }
    // Drafting one right token and one wrong one.
    let mut seqs = vec![SeqKv::with_dtype(&cfg, KvDtype::F32)];
    let pending = run(&mut seqs[0], &[1, 5, 9])[2];
    assert_eq!(pending, want[0]);
    let snap = match seqs[0].gdn_snapshot() {
        Some(s) => s,
        None => panic!("the layer is recurrent"),
    };
    let drafts = vec![vec![want[1], (want[2] + 1) % 11]];
    let preds = vec![run(&mut seqs[0], &[pending, drafts[0][0], drafts[0][1]])];
    let r = match verify_drafts_batched(&[pending], &drafts, &mut seqs, &[3], &preds) {
        Some(r) => r,
        None => panic!("the lists agree"),
    };
    assert_eq!(r.verified[0].accepted, 1);
    assert_eq!(r.rollback, vec![true]);
    assert_eq!(r.verified[0].next, want[2]);
    let again = match roll_back(&mut seqs[0], &snap, 3, &r.verified[0]) {
        Ok(rows) => rows,
        Err(e) => panic!("the snapshot is this sequence's: {e:?}"),
    };
    assert_eq!(again, vec![want[0], want[1]]);
    run(&mut seqs[0], &again);
    assert_eq!(run(&mut seqs[0], &[want[2]]), vec![want[3]]);
    // Rewinding alone would have kept the wrong draft.
    let mut broken = SeqKv::with_dtype(&cfg, KvDtype::F32);
    run(&mut broken, &[1, 5, 9, pending, drafts[0][0], drafts[0][1]]);
    broken.truncate(5);
    let mut right = SeqKv::with_dtype(&cfg, KvDtype::F32);
    run(&mut right, &[1, 5, 9, want[0], want[1]]);
    assert_ne!(
        broken.gdn_snapshot().map(|s| s[0].1.cells.clone()),
        right.gdn_snapshot().map(|s| s[0].1.cells.clone())
    );
}

#[test]
fn a_round_without_a_rejection_or_a_state_needs_no_rollback() {
    let mut seqs = vec![sequence(5)];
    let r = verify_drafts_batched(&[1], &vec![vec![4, 5]], &mut seqs, &[2], &vec![vec![9, 9, 9]]);
    assert!(matches!(r, Some(r) if r.rollback == vec![false]), "no recurrent state");
    let cfg = Cfg { arch: Arch::HybridGdn, full_attn: vec![false], gdn_cells: 1, ..one_layer() };
    let mut seqs = vec![SeqKv::with_dtype(&cfg, KvDtype::F32)];
    let r = verify_drafts_batched(&[1], &vec![vec![4]], &mut seqs, &[0], &vec![vec![4, 7]]);
    assert!(matches!(r, Some(r) if r.rollback == vec![false]), "nothing was rejected");
    let mut other = sequence(1);
    let snap = match seqs[0].gdn_snapshot() {
        Some(s) => s,
        None => panic!("the layer is recurrent"),
    };
    let v = Verified { tokens: vec![1], next: 2, accepted: 0 };
    assert_eq!(roll_back(&mut other, &snap, 0, &v), Err(CacheError::NoState));
    assert_eq!(other.len(), 1, "a refused rollback rewinds nothing");
}
