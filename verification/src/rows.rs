//! Batched forwards over (token, sequence) rows: which rows go in, whether they
//! may, and what a speculative verify makes of what comes out.

use vstd::prelude::*;

use crate::cfg::Arch;
use crate::decode;
use crate::kv::CacheError;
use crate::seqkv;
use crate::seqkv::{GdnSnapshot, SeqKv};

verus! {

/// Why a batch of rows was refused.
#[derive(Clone, Copy, Debug, PartialEq, Eq, Structural)]
pub enum RowError {
    /// The token, owner and position lists differ in length.
    Lengths,
    /// A row belongs to a sequence that is not there.
    Owner(usize),
    /// There are another number of routing histories than rows.
    Histories,
    /// A token tree on an architecture that would linearise it.
    TreeUnsupported,
}

/// The error a batch of rows is refused with.
pub open spec fn row_error(
    n_tokens: nat,
    owner: Seq<usize>,
    n_seqs: nat,
    n_pos: nat,
    histories: Option<usize>,
) -> Option<RowError> {
    if owner.len() != n_tokens || n_pos != n_tokens {
        Some(RowError::Lengths)
    } else if exists|i: int| 0 <= i < owner.len() && #[trigger] owner[i] >= n_seqs {
        Some(RowError::Owner(owner[first_stray(owner, n_seqs, 0)]))
    } else if histories matches Some(h) && h != n_tokens {
        Some(RowError::Histories)
    } else {
        None
    }
}

/// The first row from `i` on whose sequence is not there.
pub open spec fn first_stray(owner: Seq<usize>, n_seqs: nat, i: int) -> int
    decreases owner.len() - i,
{
    if i >= owner.len() || owner[i] >= n_seqs {
        i
    } else {
        first_stray(owner, n_seqs, i + 1)
    }
}

/// Checks a batch of rows before anything is computed: a scheduling fault fails
/// the request and never indexes past a sequence.
pub fn check_rows(
    n_tokens: usize,
    owner: &[usize],
    n_seqs: usize,
    n_pos: usize,
    histories: Option<usize>,
) -> (r: Result<(), RowError>)
    ensures
        r is Ok <==> row_error(n_tokens as nat, owner@, n_seqs as nat, n_pos as nat, histories) is None,
        r is Err ==> Some(r->Err_0) == row_error(
            n_tokens as nat,
            owner@,
            n_seqs as nat,
            n_pos as nat,
            histories,
        ),
{
    if owner.len() != n_tokens || n_pos != n_tokens {
        return Err(RowError::Lengths);
    }
    let mut i: usize = 0;
    while i < owner.len()
        invariant
            i <= owner@.len(),
            owner@.len() == n_tokens,
            n_pos == n_tokens,
            forall|j: int| 0 <= j < i ==> #[trigger] owner@[j] < n_seqs,
            first_stray(owner@, n_seqs as nat, 0) == first_stray(owner@, n_seqs as nat, i as int),
        decreases owner@.len() - i,
    {
        if owner[i] >= n_seqs {
            assert(owner@[i as int] >= n_seqs);
            return Err(RowError::Owner(owner[i]));
        }
        i = i + 1;
    }
    match histories {
        Some(h) => if h != n_tokens {
            return Err(RowError::Histories);
        },
        None => {},
    }
    Ok(())
}

/// Whether an architecture can forward a token tree: a recurrent layer would
/// chain siblings into one state, and grouped-query rows take no key set.
pub fn supports_token_trees(arch: Arch) -> (b: bool)
    ensures
        b == (arch == Arch::GlmMla),
{
    arch == Arch::GlmMla
}

/// Checks a batch of tree rows: what [`check_rows`] checks, and that the
/// architecture branches at all.
pub fn check_tree_rows(
    arch: Arch,
    n_tokens: usize,
    owner: &[usize],
    n_seqs: usize,
    n_pos: usize,
    histories: Option<usize>,
) -> (r: Result<(), RowError>)
    ensures
        arch != Arch::GlmMla ==> r == Err::<(), RowError>(RowError::TreeUnsupported),
        arch == Arch::GlmMla ==> (r is Ok <==> row_error(
            n_tokens as nat,
            owner@,
            n_seqs as nat,
            n_pos as nat,
            histories,
        ) is None),
        arch == Arch::GlmMla && r is Err ==> Some(r->Err_0) == row_error(
            n_tokens as nat,
            owner@,
            n_seqs as nat,
            n_pos as nat,
            histories,
        ),
{
    if !supports_token_trees(arch) {
        return Err(RowError::TreeUnsupported);
    }
    check_rows(n_tokens, owner, n_seqs, n_pos, histories)
}

/// The embedding row a token id reads: negative ids read the first, ids past
/// the vocabulary the last.
pub fn token_row(token: i32, vocab: usize) -> (row: usize)
    ensures
        row == if token <= 0 || vocab == 0 {
            0
        } else if token < vocab {
            token as int
        } else {
            vocab - 1
        },
        vocab > 0 ==> row < vocab,
{
    let id: usize = if token > 0 {
        token as usize
    } else {
        0
    };
    let last: usize = if vocab > 0 {
        vocab - 1
    } else {
        0
    };
    if id < last {
        id
    } else {
        last
    }
}

/// No sequence owns two of the rows.
pub open spec fn one_row_each(owner: Seq<usize>) -> bool {
    forall|i: int, j: int| 0 <= i < j < owner.len() ==> owner[i] != owner[j]
}

/// Whether the rows are one decode step of each of their sequences, and not a
/// prefill chunk or a verify batch.
pub fn is_batched_decode(owner: &[usize]) -> (b: bool)
    ensures
        b == (owner@.len() > 0 && one_row_each(owner@)),
{
    if owner.len() == 0 {
        return false;
    }
    let mut j: usize = 0;
    while j < owner.len()
        invariant
            j <= owner@.len(),
            forall|a: int, b: int| 0 <= a < b < j ==> owner@[a] != owner@[b],
        decreases owner@.len() - j,
    {
        let mut i: usize = 0;
        while i < j
            invariant
                i <= j < owner@.len(),
                forall|a: int| 0 <= a < i ==> owner@[a] != owner@[j as int],
            decreases j - i,
        {
            if owner[i] == owner[j] {
                return false;
            }
            i = i + 1;
        }
        j = j + 1;
    }
    true
}

/// How many experts the router look-ahead may stream beside these rows: none
/// unless it is on and the rows are a decode step, of one sequence or, where
/// that is allowed, of several.
pub fn lookahead_rows_width(
    lookahead: bool,
    batch_lookahead: bool,
    width: usize,
    owner: &[usize],
) -> (w: usize)
    ensures
        w == if lookahead && (owner@.len() == 1 || (owner@.len() > 0 && one_row_each(owner@)
            && batch_lookahead)) {
            width
        } else {
            0
        },
{
    if lookahead && (owner.len() == 1 || (batch_lookahead && is_batched_decode(owner))) {
        width
    } else {
        0
    }
}

/// The owners of one decode step of `n` sequences: one row each, in order.
pub fn step_owners(n: usize) -> (owner: Vec<usize>)
    ensures
        owner@ == Seq::new(n as nat, |i: int| i as usize),
        one_row_each(owner@),
{
    let mut owner: Vec<usize> = Vec::new();
    let mut i: usize = 0;
    while i < n
        invariant
            i <= n,
            owner@ == Seq::new(i as nat, |j: int| j as usize),
        decreases n - i,
    {
        owner.push(i);
        i = i + 1;
        assert(owner@ =~= Seq::new(i as nat, |j: int| j as usize));
    }
    owner
}

/// The owners of a decode step over `n_tokens` sequences, one row each; refused
/// where the sequences or positions are another number.
pub fn forward_step_batched(n_tokens: usize, n_seqs: usize, n_pos: usize) -> (r: Result<
    Vec<usize>,
    RowError,
>)
    ensures
        r is Ok <==> n_seqs == n_tokens && n_pos == n_tokens,
        r is Ok ==> (r->Ok_0)@ == Seq::new(n_tokens as nat, |i: int| i as usize),
        r is Err ==> r->Err_0 == RowError::Lengths,
{
    if n_seqs != n_tokens || n_pos != n_tokens {
        return Err(RowError::Lengths);
    }
    Ok(step_owners(n_tokens))
}

/// The rows of one verify forward.
pub struct VerifyRows {
    /// The token of each row.
    pub tokens: Vec<i32>,
    /// The sequence of each row.
    pub owner: Vec<usize>,
    /// The position of each row.
    pub pos: Vec<usize>,
    /// Where each sequence's rows start.
    pub first_row: Vec<usize>,
}

/// Rows before sequence `s`: one pending token and its drafts each.
pub open spec fn rows_before(drafts: Seq<Vec<i32>>, s: nat) -> nat
    decreases s,
{
    if s == 0 {
        0
    } else {
        rows_before(drafts, (s - 1) as nat) + 1 + drafts[s - 1]@.len()
    }
}

/// Row `j` of sequence `s`: its pending token first, then its drafts, at
/// consecutive positions.
pub open spec fn verify_row(
    next_of: Seq<i32>,
    drafts: Seq<Vec<i32>>,
    pos_of: Seq<usize>,
    rows: VerifyRows,
    s: int,
    j: int,
) -> bool {
    let r = rows_before(drafts, s as nat) + j;
    &&& rows.tokens@[r] == if j == 0 {
        next_of[s]
    } else {
        drafts[s]@[j - 1]
    }
    &&& rows.owner@[r] == s
    &&& rows.pos@[r] == pos_of[s] + j
}

/// The positions a round reaches fit in a `usize`.
pub open spec fn positions_fit(drafts: Seq<Vec<i32>>, pos_of: Seq<usize>) -> bool {
    forall|s: int|
        0 <= s < drafts.len() && s < pos_of.len() ==> #[trigger] pos_of[s] + 1 + drafts[s]@.len()
            <= usize::MAX
}

/// Lays out the rows of one verify forward over every sequence: each
/// contributes its pending token and its drafts, consecutively. `None` when the
/// lists differ in length.
pub fn lay_verify_rows(next_of: &[i32], drafts: &Vec<Vec<i32>>, pos_of: &[usize], n_seqs: usize) -> (r: Option<
    VerifyRows,
>)
    requires
        positions_fit(drafts@, pos_of@),
    ensures
        r is Some <==> drafts@.len() == next_of@.len() && n_seqs == next_of@.len() && pos_of@.len()
            == next_of@.len(),
        r is Some ==> {
            let rows = r->0;
            &&& rows.tokens@.len() == rows_before(drafts@, drafts@.len())
            &&& rows.owner@.len() == rows.tokens@.len()
            &&& rows.pos@.len() == rows.tokens@.len()
            &&& rows.first_row@.len() == next_of@.len()
            &&& forall|s: int|
                0 <= s < next_of@.len() ==> #[trigger] rows.first_row@[s] == rows_before(
                    drafts@,
                    s as nat,
                )
            &&& forall|s: int, j: int|
                0 <= s < next_of@.len() && 0 <= j <= drafts@[s]@.len() ==> #[trigger] verify_row(
                    next_of@,
                    drafts@,
                    pos_of@,
                    rows,
                    s,
                    j,
                )
        },
{
    let b: usize = next_of.len();
    if drafts.len() != b || n_seqs != b || pos_of.len() != b {
        return None;
    }
    let mut rows = VerifyRows {
        tokens: Vec::new(),
        owner: Vec::new(),
        pos: Vec::new(),
        first_row: Vec::new(),
    };
    let mut s: usize = 0;
    while s < b
        invariant
            s <= b,
            b == next_of@.len(),
            drafts@.len() == b,
            pos_of@.len() == b,
            positions_fit(drafts@, pos_of@),
            rows.tokens@.len() == rows_before(drafts@, s as nat),
            rows.owner@.len() == rows.tokens@.len(),
            rows.pos@.len() == rows.tokens@.len(),
            rows.first_row@.len() == s,
            forall|q: int|
                0 <= q < s ==> #[trigger] rows.first_row@[q] == rows_before(drafts@, q as nat),
            forall|q: int, j: int|
                0 <= q < s && 0 <= j <= drafts@[q]@.len() ==> #[trigger] verify_row(
                    next_of@,
                    drafts@,
                    pos_of@,
                    rows,
                    q,
                    j,
                ),
        decreases b - s,
    {
        let ghost base = rows.tokens@.len();
        let ghost before = rows;
        rows.first_row.push(rows.tokens.len());
        rows.tokens.push(next_of[s]);
        rows.owner.push(s);
        rows.pos.push(pos_of[s]);
        assert(pos_of@[s as int] + 1 + drafts@[s as int]@.len() <= usize::MAX);
        assert(drafts@[s as int]@.len() == drafts@[s as int].len());
        let g: usize = drafts[s].len();
        let mut j: usize = 0;
        while j < g
            invariant
                s < b,
                j <= g,
                drafts@.len() == b,
                pos_of@.len() == b,
                g == drafts@[s as int]@.len(),
                pos_of@[s as int] + 1 + g <= usize::MAX,
                base == before.tokens@.len(),
                before.owner@.len() == base,
                before.pos@.len() == base,
                rows.first_row@ == before.first_row@.push(base as usize),
                rows.tokens@ == before.tokens@ + (seq![next_of@[s as int]]
                    + drafts@[s as int]@.take(j as int)),
                rows.owner@ == before.owner@ + Seq::new((1 + j) as nat, |k: int| s),
                rows.pos@ == before.pos@ + Seq::new(
                    (1 + j) as nat,
                    |k: int| (pos_of@[s as int] + k) as usize,
                ),
            decreases g - j,
        {
            rows.tokens.push(drafts[s][j]);
            rows.owner.push(s);
            rows.pos.push(pos_of[s] + 1 + j);
            j = j + 1;
            proof {
                assert(rows.tokens@ =~= before.tokens@ + (seq![next_of@[s as int]]
                    + drafts@[s as int]@.take(j as int)));
                assert(rows.owner@ =~= before.owner@ + Seq::new((1 + j) as nat, |k: int| s));
                assert(rows.pos@ =~= before.pos@ + Seq::new(
                    (1 + j) as nat,
                    |k: int| (pos_of@[s as int] + k) as usize,
                ));
            }
        }
        proof {
            assert(rows_before(drafts@, (s + 1) as nat) == base + 1 + g);
            assert forall|q: int, k: int|
                0 <= q < s + 1 && 0 <= k <= drafts@[q]@.len() implies #[trigger] verify_row(
                next_of@,
                drafts@,
                pos_of@,
                rows,
                q,
                k,
            ) by {
                let r = rows_before(drafts@, q as nat) + k;
                if q < s {
                    assert(verify_row(next_of@, drafts@, pos_of@, before, q, k));
                    lemma_rows_before_grow(drafts@, (q + 1) as nat, s as nat);
                    assert(r < base);
                    assert(rows.tokens@[r] == before.tokens@[r]);
                    assert(rows.owner@[r] == before.owner@[r]);
                    assert(rows.pos@[r] == before.pos@[r]);
                } else {
                    assert(r == base + k);
                }
            }
        }
        s = s + 1;
    }
    Some(rows)
}

proof fn lemma_rows_before_grow(drafts: Seq<Vec<i32>>, a: nat, b: nat)
    requires
        a <= b <= drafts.len(),
    ensures
        rows_before(drafts, a) <= rows_before(drafts, b),
    decreases b,
{
    if a < b {
        lemma_rows_before_grow(drafts, a, (b - 1) as nat);
    }
}

/// One sequence's speculative round.
pub struct Verified {
    /// Tokens confirmed this round: the pending one, then every accepted draft.
    pub tokens: Vec<i32>,
    /// The model's prediction after them: the next round's pending token.
    pub next: i32,
    /// Drafts accepted.
    pub accepted: usize,
}

/// What one round confirms for one sequence.
pub open spec fn confirms(next: i32, drafts: Seq<i32>, preds: Seq<i32>, v: Verified) -> bool {
    let k = decode::confirmed(preds, drafts) as int;
    &&& v.accepted == k
    &&& v.tokens@ == seq![next] + drafts.take(k)
    &&& v.next == if k < preds.len() {
        preds[k]
    } else {
        0
    }
}

/// Settles one sequence's round: confirms what the model's own predictions
/// confirm, and rewinds the cache to what was committed, so a rejected draft
/// leaves no row behind. Recurrent states are not rewound: see [`roll_back`].
/// `preds[k]` is the prediction after the sequence's row `k`.
pub fn settle(
    seq: &mut SeqKv,
    next: i32,
    drafts: &Vec<i32>,
    pos: usize,
    preds: &[i32],
) -> (v: Verified)
    requires
        old(seq).wf(),
        pos + 1 + drafts@.len() <= usize::MAX,
    ensures
        confirms(next, drafts@, preds@, v),
        final(seq).wf(),
        final(seq).states() == old(seq).states(),
        final(seq).caches().len() == old(seq).caches().len(),
        forall|i: int|
            0 <= i < old(seq).caches().len() ==> seqkv::rewound(
                old(seq).caches()[i],
                #[trigger] final(seq).caches()[i],
                pos + 1 + v.accepted,
            ),
{
    let (k, after): (usize, i32) = decode::accept_run(preds, drafts.as_slice());
    let mut tokens: Vec<i32> = Vec::new();
    tokens.push(next);
    let mut j: usize = 0;
    assert(tokens@ =~= seq![next] + drafts@.take(0));
    while j < k
        invariant
            j <= k <= drafts@.len(),
            tokens@ == seq![next] + drafts@.take(j as int),
        decreases k - j,
    {
        tokens.push(drafts[j]);
        j = j + 1;
        assert(tokens@ =~= seq![next] + drafts@.take(j as int));
    }
    seq.truncate(pos + 1 + k);
    Verified { tokens, next: after, accepted: k }
}

/// What a round of every sequence leaves.
pub struct RoundResult {
    /// Each sequence's confirmed tokens and prediction.
    pub verified: Vec<Verified>,
    /// The row each sequence's next draft continues from: the one whose
    /// prediction is its next pending token.
    pub rows: Vec<usize>,
    /// The sequences whose round has to be rolled back: a draft was rejected
    /// that some recurrent state has folded in.
    pub rollback: Vec<bool>,
}

/// A round that confirmed `accepted` of `drafted` drafts has to be rolled back.
pub open spec fn needs_rollback(seq: SeqKv, accepted: int, drafted: int) -> bool {
    seq.recurrent() && accepted < drafted
}

/// Rolls one sequence's round back to the position `pos` it started at, and
/// names the rows to run again from there: exactly the tokens the round
/// confirmed. `snaps` is the snapshot taken before the verify forward.
pub fn roll_back(
    seq: &mut SeqKv,
    snaps: &Vec<(usize, GdnSnapshot)>,
    pos: usize,
    v: &Verified,
) -> (r: Result<Vec<i32>, CacheError>)
    requires
        old(seq).wf(),
    ensures
        final(seq).wf(),
        final(seq).caches().len() == old(seq).caches().len(),
        r is Ok <==> forall|j: int|
            0 <= j < snaps@.len() ==> seqkv::restore_error(
                old(seq).state_views(),
                (#[trigger] snaps@[j]).0 as int,
                snaps@[j].1.cells@.len(),
            ) is None,
        r is Ok ==> {
            &&& (r->Ok_0)@ == v.tokens@
            &&& final(seq).state_views() == seqkv::restored(
                old(seq).state_views(),
                seqkv::snaps_view(snaps@),
                snaps@.len(),
            )
            &&& forall|i: int|
                0 <= i < old(seq).caches().len() ==> seqkv::rewound(
                    old(seq).caches()[i],
                    #[trigger] final(seq).caches()[i],
                    pos as int,
                )
        },
        r is Err ==> final(seq).caches() == old(seq).caches(),
        r is Err ==> exists|j: int|
            0 <= j < snaps@.len() && Some(r->Err_0) == seqkv::restore_error(
                old(seq).state_views(),
                (#[trigger] snaps@[j]).0 as int,
                snaps@[j].1.cells@.len(),
            ) && final(seq).state_views() == seqkv::restored(
                old(seq).state_views(),
                seqkv::snaps_view(snaps@),
                j as nat,
            ),
{
    match seq.roll_back(snaps, pos) {
        Ok(_) => {
            let mut rows: Vec<i32> = Vec::new();
            rows.extend_from_slice(v.tokens.as_slice());
            assert(rows@ =~= v.tokens@);
            Ok(rows)
        },
        Err(e) => Err(e),
    }
}

/// Settles a round of every sequence after its one verify forward. `preds[s]`
/// are the predictions after sequence `s`'s rows, as [`lay_verify_rows`] laid
/// them out. `None`, with nothing changed, when the lists differ in length.
pub fn verify_drafts_batched(
    next_of: &[i32],
    drafts: &Vec<Vec<i32>>,
    seqs: &mut Vec<SeqKv>,
    pos_of: &[usize],
    preds: &Vec<Vec<i32>>,
) -> (r: Option<RoundResult>)
    requires
        positions_fit(drafts@, pos_of@),
        forall|s: int| 0 <= s < old(seqs)@.len() ==> (#[trigger] old(seqs)@[s]).wf(),
    ensures
        r is Some <==> drafts@.len() == next_of@.len() && old(seqs)@.len() == next_of@.len()
            && pos_of@.len() == next_of@.len() && preds@.len() == next_of@.len(),
        r is None ==> final(seqs)@ == old(seqs)@,
        final(seqs)@.len() == old(seqs)@.len(),
        r is Some ==> {
            &&& (r->0).verified@.len() == next_of@.len()
            &&& (r->0).rows@.len() == next_of@.len()
            &&& (r->0).rollback@.len() == next_of@.len()
            &&& forall|s: int|
                0 <= s < next_of@.len() ==> {
                    let v = #[trigger] (r->0).verified@[s];
                    &&& confirms(next_of@[s], drafts@[s]@, preds@[s]@, v)
                    &&& (r->0).rows@[s] == rows_before(drafts@, s as nat) + v.accepted
                    &&& (r->0).rollback@[s] == needs_rollback(
                        old(seqs)@[s],
                        v.accepted as int,
                        drafts@[s]@.len() as int,
                    )
                    &&& round_leaves(
                        old(seqs)@[s],
                        final(seqs)@[s],
                        pos_of@[s] + 1 + v.accepted,
                    )
                }
        },
{
    let b: usize = next_of.len();
    let laid = match lay_verify_rows(next_of, drafts, pos_of, seqs.len()) {
        Some(laid) => laid,
        None => return None,
    };
    if preds.len() != b {
        return None;
    }
    assert(laid.tokens@.len() == laid.tokens.len());
    let ghost o = seqs@;
    let mut verified: Vec<Verified> = Vec::new();
    let mut rows: Vec<usize> = Vec::new();
    let mut rollback: Vec<bool> = Vec::new();
    let mut s: usize = 0;
    while s < b
        invariant
            s <= b,
            b == next_of@.len(),
            drafts@.len() == b,
            pos_of@.len() == b,
            preds@.len() == b,
            seqs@.len() == b,
            o == old(seqs)@,
            o.len() == b,
            positions_fit(drafts@, pos_of@),
            rows_before(drafts@, drafts@.len()) <= usize::MAX,
            laid.first_row@.len() == b,
            forall|q: int|
                0 <= q < b ==> #[trigger] laid.first_row@[q] == rows_before(drafts@, q as nat),
            verified@.len() == s,
            rows@.len() == s,
            rollback@.len() == s,
            forall|q: int| 0 <= q < b ==> (#[trigger] o[q]).wf(),
            forall|q: int| s <= q < b ==> #[trigger] seqs@[q] == o[q],
            forall|q: int|
                0 <= q < s ==> {
                    let v = #[trigger] verified@[q];
                    &&& confirms(next_of@[q], drafts@[q]@, preds@[q]@, v)
                    &&& rows@[q] == rows_before(drafts@, q as nat) + v.accepted
                    &&& rollback@[q] == needs_rollback(
                        o[q],
                        v.accepted as int,
                        drafts@[q]@.len() as int,
                    )
                    &&& round_leaves(o[q], seqs@[q], pos_of@[q] + 1 + v.accepted)
                },
        decreases b - s,
    {
        proof {
            assert(pos_of@[s as int] + 1 + drafts@[s as int]@.len() <= usize::MAX);
            lemma_rows_before_grow(drafts@, (s + 1) as nat, b as nat);
            assert(seqs@[s as int] == o[s as int]);
            decode::lemma_confirmed(preds@[s as int]@, drafts@[s as int]@);
        }
        let v = settle(&mut seqs[s], next_of[s], &drafts[s], pos_of[s], preds[s].as_slice());
        rows.push(laid.first_row[s] + v.accepted);
        let folded: bool = seqs[s].has_recurrent_state();
        rollback.push(folded && v.accepted < drafts[s].len());
        verified.push(v);
        s = s + 1;
    }
    Some(RoundResult { verified, rows, rollback })
}

/// A sequence after a round: its caches rewound to `n` positions, its recurrent
/// states as they were.
pub open spec fn round_leaves(a: SeqKv, b: SeqKv, n: int) -> bool {
    &&& b.wf()
    &&& b.states() == a.states()
    &&& b.caches().len() == a.caches().len()
    &&& forall|i: int|
        0 <= i < a.caches().len() ==> seqkv::rewound(a.caches()[i], #[trigger] b.caches()[i], n)
}

/// A round settles each sequence as it would have been settled alone: what two
/// rounds with the same drafts and predictions confirm is the same, and so is
/// every row and every recurrent state that they leave, whatever else either
/// round held.
pub proof fn lemma_batched_round_is_each_alone(
    next: i32,
    drafts: Seq<i32>,
    preds: Seq<i32>,
    pos: int,
    start: SeqKv,
    alone: (Verified, SeqKv),
    batched: (Verified, SeqKv),
)
    requires
        confirms(next, drafts, preds, alone.0),
        confirms(next, drafts, preds, batched.0),
        round_leaves(start, alone.1, pos + 1 + alone.0.accepted),
        round_leaves(start, batched.1, pos + 1 + batched.0.accepted),
    ensures
        alone.0.tokens@ == batched.0.tokens@,
        alone.0.next == batched.0.next,
        alone.0.accepted == batched.0.accepted,
        alone.1.states() == batched.1.states(),
        alone.1.caches().len() == batched.1.caches().len(),
        forall|i: int|
            0 <= i < alone.1.caches().len() ==> {
                &&& (#[trigger] alone.1.caches()[i]).lc_rows() == batched.1.caches()[i].lc_rows()
                &&& alone.1.caches()[i].rc_rows() == batched.1.caches()[i].rc_rows()
                &&& alone.1.caches()[i].ix_rows() == batched.1.caches()[i].ix_rows()
            },
{
    assert forall|i: int| 0 <= i < alone.1.caches().len() implies {
        &&& (#[trigger] alone.1.caches()[i]).lc_rows() == batched.1.caches()[i].lc_rows()
        &&& alone.1.caches()[i].rc_rows() == batched.1.caches()[i].rc_rows()
        &&& alone.1.caches()[i].ix_rows() == batched.1.caches()[i].ix_rows()
    } by {
        let n = pos + 1 + alone.0.accepted;
        assert(seqkv::rewound(start.caches()[i], alone.1.caches()[i], n));
        assert(seqkv::rewound(start.caches()[i], batched.1.caches()[i], n));
    }
}

/// A round leaves a sequence exactly as long as what it committed: the positions
/// before it, the pending token and the accepted drafts. `start` is the sequence
/// after the verify forward, which cached a row for the pending token and for
/// every draft from position `pos` on.
pub proof fn lemma_round_commits_what_it_confirms(
    next: i32,
    drafts: Seq<i32>,
    preds: Seq<i32>,
    pos: int,
    start: SeqKv,
    v: Verified,
    left: SeqKv,
)
    requires
        0 <= pos,
        start.caches().len() > 0,
        start.positions() == pos + 1 + drafts.len(),
        confirms(next, drafts, preds, v),
        round_leaves(start, left, pos + 1 + v.accepted),
    ensures
        left.positions() == pos + 1 + v.accepted,
        left.positions() == pos + v.tokens@.len(),
        v.tokens@ == seq![next] + drafts.take(v.accepted as int),
        v.accepted <= drafts.len(),
{
    decode::lemma_confirmed(preds, drafts);
    assert(seqkv::rewound(start.caches()[0], left.caches()[0], pos + 1 + v.accepted));
}

/// Every token a round confirms is what the model predicts of everything before
/// it, and the pending token it leaves is too: the confirmed tokens are exactly
/// what decoding one token at a time emits.
///
/// `context` is all the sequence held before the round, and `f` the model.
pub proof fn lemma_verified_is_greedy(
    f: spec_fn(Seq<i32>) -> i32,
    context: Seq<i32>,
    next: i32,
    drafts: Seq<i32>,
    preds: Seq<i32>,
    v: Verified,
)
    requires
        next == f(context),
        decode::verified_rows(f, context, next, drafts, preds),
        confirms(next, drafts, preds, v),
    ensures
        forall|i: int|
            0 <= i < v.tokens@.len() ==> #[trigger] v.tokens@[i] == f(
                context + v.tokens@.take(i),
            ),
        v.next == f(context + v.tokens@),
        v.tokens@.len() == v.accepted + 1,
{
    decode::lemma_confirmed(preds, drafts);
    let k = v.accepted as int;
    assert forall|i: int| 0 <= i < v.tokens@.len() implies #[trigger] v.tokens@[i] == f(
        context + v.tokens@.take(i),
    ) by {
        if i == 0 {
            assert(context + v.tokens@.take(0) =~= context);
        } else {
            assert(v.tokens@[i] == drafts[i - 1]);
            assert(preds[i - 1] == drafts[i - 1]);
            assert(context + v.tokens@.take(i) =~= context.push(next) + drafts.take(i - 1));
        }
    }
    assert(context + v.tokens@ =~= context.push(next) + drafts.take(k));
}

/// A batch is taken where its lists are as long as its tokens and every row
/// belongs to one of its sequences, and refused otherwise: for a length before
/// an owner, for the first owner out of range, and for the histories last.
pub proof fn lemma_which_batches_are_refused(
    n_tokens: nat,
    owner: Seq<usize>,
    n_seqs: nat,
    n_pos: nat,
    histories: Option<usize>,
)
    ensures
        row_error(n_tokens, owner, n_seqs, n_pos, histories) is None <==> {
            &&& owner.len() == n_tokens
            &&& n_pos == n_tokens
            &&& forall|i: int| 0 <= i < owner.len() ==> #[trigger] owner[i] < n_seqs
            &&& histories matches Some(h) ==> h == n_tokens
        },
        row_error(n_tokens, owner, n_seqs, n_pos, histories) == Some(RowError::Lengths) <==> (
        owner.len() != n_tokens || n_pos != n_tokens),
        forall|o: usize| #[trigger]
            row_error(n_tokens, owner, n_seqs, n_pos, histories) == Some(RowError::Owner(o)) ==> {
                &&& o >= n_seqs
                &&& exists|i: int|
                    0 <= i < owner.len() && #[trigger] owner[i] == o && forall|k: int|
                        0 <= k < i ==> #[trigger] owner[k] < n_seqs
            },
        row_error(n_tokens, owner, n_seqs, n_pos, histories) == Some(RowError::Histories) ==> {
            &&& owner.len() == n_tokens
            &&& forall|i: int| 0 <= i < owner.len() ==> #[trigger] owner[i] < n_seqs
            &&& histories is Some
            &&& histories->0 != n_tokens
        },
{
    lemma_first_stray_is_first(owner, n_seqs, 0);
}

proof fn lemma_first_stray_is_first(owner: Seq<usize>, n_seqs: nat, i: int)
    requires
        0 <= i <= owner.len(),
    ensures
        i <= first_stray(owner, n_seqs, i) <= owner.len(),
        forall|k: int| i <= k < first_stray(owner, n_seqs, i) ==> #[trigger] owner[k] < n_seqs,
        first_stray(owner, n_seqs, i) < owner.len() ==> owner[first_stray(owner, n_seqs, i)]
            >= n_seqs,
    decreases owner.len() - i,
{
    if i < owner.len() && owner[i] < n_seqs {
        lemma_first_stray_is_first(owner, n_seqs, i + 1);
    }
}

/// A sequence's rows of a verify forward stand in one run: its pending token and
/// then its drafts, in order, all of them its own, at the positions that follow
/// each other from where the sequence stands. The next sequence's run starts
/// right after it, and the first at the first row.
pub proof fn lemma_verify_rows_are_runs(
    next_of: Seq<i32>,
    drafts: Seq<Vec<i32>>,
    pos_of: Seq<usize>,
    rows: VerifyRows,
    s: int,
)
    requires
        0 <= s < drafts.len(),
        next_of.len() == drafts.len(),
        pos_of.len() == drafts.len(),
        rows.tokens@.len() == rows_before(drafts, drafts.len()),
        rows.owner@.len() == rows.tokens@.len(),
        rows.pos@.len() == rows.tokens@.len(),
        forall|j: int|
            0 <= j <= drafts[s]@.len() ==> #[trigger] verify_row(
                next_of,
                drafts,
                pos_of,
                rows,
                s,
                j,
            ),
    ensures
        ({
            let a = rows_before(drafts, s as nat) as int;
            let b = rows_before(drafts, (s + 1) as nat) as int;
            &&& rows_before(drafts, 0) == 0
            &&& b == a + 1 + drafts[s]@.len()
            &&& b <= rows.tokens@.len()
            &&& rows.tokens@.subrange(a, b) == seq![next_of[s]] + drafts[s]@
            &&& forall|r: int| a <= r < b ==> #[trigger] rows.owner@[r] == s
            &&& rows.pos@[a] == pos_of[s]
            &&& forall|r: int, q: int|
                #![trigger rows.pos@[r], rows.pos@[q]]
                a <= r < b && q == r + 1 && q < b ==> rows.pos@[q] == rows.pos@[r] + 1
        }),
{
    let a = rows_before(drafts, s as nat) as int;
    let b = rows_before(drafts, (s + 1) as nat) as int;
    lemma_rows_add_up(drafts, (s + 1) as nat, drafts.len());
    assert(verify_row(next_of, drafts, pos_of, rows, s, 0));
    assert forall|r: int| a <= r < b implies #[trigger] rows.owner@[r] == s && rows.pos@[r]
        == pos_of[s] + (r - a) && rows.tokens@[r] == (seq![next_of[s]] + drafts[s]@)[r - a] by {
        assert(verify_row(next_of, drafts, pos_of, rows, s, r - a));
    }
    let run = rows.tokens@.subrange(a, b);
    let wanted = seq![next_of[s]] + drafts[s]@;
    assert forall|k: int| 0 <= k < run.len() implies run[k] == wanted[k] by {
        assert(rows.owner@[a + k] == s);
    }
    assert(run =~= wanted);
    assert forall|r: int, q: int|
        #![trigger rows.pos@[r], rows.pos@[q]]
        a <= r < b && q == r + 1 && q < b implies rows.pos@[q] == rows.pos@[r] + 1 by {
        assert(rows.owner@[r] == s);
        assert(rows.owner@[q] == s);
    }
}

proof fn lemma_rows_add_up(drafts: Seq<Vec<i32>>, m: nat, n: nat)
    requires
        m <= n,
    ensures
        rows_before(drafts, m) <= rows_before(drafts, n),
    decreases n,
{
    if m < n {
        lemma_rows_add_up(drafts, m, (n - 1) as nat);
    }
}

/// A round confirms the drafts up to the first that the model did not predict,
/// and no fewer: the one after them differs, or there is none. Where all of them
/// are confirmed nothing is rolled back, and a sequence without recurrent state
/// never is.
pub proof fn lemma_round_confirms_all_it_can(
    next: i32,
    drafts: Seq<i32>,
    preds: Seq<i32>,
    v: Verified,
    kv: SeqKv,
)
    requires
        confirms(next, drafts, preds, v),
        preds.len() == drafts.len() + 1,
    ensures
        v.accepted <= drafts.len(),
        forall|i: int| 0 <= i < v.accepted ==> #[trigger] drafts[i] == preds[i],
        v.accepted < drafts.len() ==> drafts[v.accepted as int] != preds[v.accepted as int],
        v.tokens@.len() == v.accepted + 1,
        v.tokens@[0] == next,
        forall|i: int| 0 < i <= v.accepted ==> #[trigger] v.tokens@[i] == drafts[i - 1],
        v.next == preds[v.accepted as int],
        needs_rollback(kv, v.accepted as int, drafts.len() as int) ==> kv.recurrent(),
        kv.recurrent() && v.accepted < drafts.len() ==> needs_rollback(
            kv,
            v.accepted as int,
            drafts.len() as int,
        ),
        v.accepted == drafts.len() ==> !needs_rollback(
            kv,
            v.accepted as int,
            drafts.len() as int,
        ),
{
    decode::lemma_confirmed(preds, drafts);
}

/// A batch has one row of each sequence where no owner occurs twice.
pub proof fn lemma_one_row_each_repeats_no_owner(owner: Seq<usize>)
    ensures
        one_row_each(owner) <==> owner.no_duplicates(),
{
}

} // verus!
