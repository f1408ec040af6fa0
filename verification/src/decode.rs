//! Greedy and speculative decoding as machines: the caller runs the forwards,
//! these decide what to run next, what is emitted and how far a cache rewinds.
//!
//! A speculative run emits exactly what the greedy run emits, whatever was
//! drafted, where every forward predicts from the text alone: see
//! [`lemma_speculative_output_is_greedy_output`]. [`mode`] speculates only on
//! models for which rewinding the cache undoes a rejected draft.

use vstd::prelude::*;

verus! {

/// Tokens between two checks of the process's memory.
pub const RSS_GUARD_EVERY: usize = 16;

/// How many of `drafts` the model's own predictions confirm, from the first on.
/// `preds[k]` is what the model predicts in place of `drafts[k]`.
pub open spec fn confirmed(preds: Seq<i32>, drafts: Seq<i32>) -> nat
    decreases drafts.len(),
{
    if drafts.len() == 0 || preds.len() == 0 || preds[0] != drafts[0] {
        0
    } else {
        1 + confirmed(preds.subrange(1, preds.len() as int), drafts.subrange(
            1,
            drafts.len() as int,
        ))
    }
}

/// `k` drafts are confirmed: each of them is what the model predicts there, and
/// the next one, if there is a prediction to hold it against, is not.
pub proof fn lemma_confirmed(preds: Seq<i32>, drafts: Seq<i32>)
    ensures
        confirmed(preds, drafts) <= drafts.len(),
        confirmed(preds, drafts) <= preds.len(),
        forall|j: int| 0 <= j < confirmed(preds, drafts) ==> #[trigger] preds[j] == drafts[j],
        ({
            let k = confirmed(preds, drafts) as int;
            k < drafts.len() && k < preds.len() ==> preds[k] != drafts[k]
        }),
    decreases drafts.len(),
{
    if !(drafts.len() == 0 || preds.len() == 0 || preds[0] != drafts[0]) {
        let p = preds.subrange(1, preds.len() as int);
        let d = drafts.subrange(1, drafts.len() as int);
        lemma_confirmed(p, d);
        assert forall|j: int| 0 <= j < confirmed(preds, drafts) implies #[trigger] preds[j]
            == drafts[j] by {
            if j > 0 {
                assert(p[j - 1] == d[j - 1]);
            }
        }
        let k = confirmed(p, d) as int;
        if k < d.len() && k < p.len() {
            assert(p[k] != d[k]);
        }
    }
}

/// Only one number of confirmed drafts fits the predictions.
pub proof fn lemma_confirmed_unique(preds: Seq<i32>, drafts: Seq<i32>, k: int)
    requires
        0 <= k <= drafts.len(),
        k <= preds.len(),
        forall|j: int| 0 <= j < k ==> #[trigger] preds[j] == drafts[j],
        k < drafts.len() && k < preds.len() ==> preds[k] != drafts[k],
    ensures
        confirmed(preds, drafts) == k,
{
    lemma_confirmed(preds, drafts);
    let c = confirmed(preds, drafts) as int;
    if c < k {
        assert(preds[c] == drafts[c]);
    }
    if k < c {
        assert(preds[k] == drafts[k]);
    }
}

/// Accepts a draft run against the model's own greedy predictions.
///
/// `preds[k]` is the model's prediction of the token after draft `k - 1`, so
/// `preds[0]` judges the first draft. Returns how many drafts were accepted and
/// the prediction at the first position past them, which is the next round's
/// token and is already paid for; zero where no prediction reaches that far.
pub fn accept_run(preds: &[i32], drafts: &[i32]) -> (r: (usize, i32))
    ensures
        r.0 == confirmed(preds@, drafts@),
        r.0 <= drafts@.len(),
        forall|j: int| 0 <= j < r.0 ==> #[trigger] preds@[j] == drafts@[j],
        r.0 < drafts@.len() && r.0 < preds@.len() ==> preds@[r.0 as int] != drafts@[r.0 as int],
        r.1 == if r.0 < preds@.len() {
            preds@[r.0 as int]
        } else {
            0
        },
{
    let mut k: usize = 0;
    while k < drafts.len() && k < preds.len() && preds[k] == drafts[k]
        invariant
            k <= drafts@.len(),
            k <= preds@.len(),
            forall|j: int| 0 <= j < k ==> #[trigger] preds@[j] == drafts@[j],
        decreases drafts@.len() - k,
    {
        k = k + 1;
    }
    proof {
        lemma_confirmed_unique(preds@, drafts@, k as int);
    }
    let next: i32 = if k < preds.len() {
        preds[k]
    } else {
        0
    };
    (k, next)
}

/// Whether `stops` holds `t`.
pub fn is_stop(stops: &Vec<i32>, t: i32) -> (b: bool)
    ensures
        b == stops@.contains(t),
{
    let mut i: usize = 0;
    while i < stops.len()
        invariant
            i <= stops@.len(),
            forall|j: int| 0 <= j < i ==> stops@[j] != t,
        decreases stops@.len() - i,
    {
        if stops[i] == t {
            return true;
        }
        i = i + 1;
    }
    false
}

/// What a generation asks of its caller.
#[derive(Clone, Copy, Debug, PartialEq, Eq, Structural)]
pub enum Ask {
    /// Forward the whole prompt and pick the token after it.
    Prefill,
    /// Forward this token at this position and pick the token after it.
    Step {
        /// The token to forward.
        token: i32,
        /// Its position.
        pos: usize,
    },
    /// Nothing: the generation is complete.
    Done,
}

/// One token at a time.
pub struct Generation {
    prompt_len: usize,
    n_new: usize,
    stops: Vec<i32>,
    out: Vec<i32>,
}

impl Generation {
    /// Tokens emitted so far.
    pub closed spec fn emitted(&self) -> Seq<i32> {
        self.out@
    }

    /// The tokens that end a generation.
    pub closed spec fn stop_ids(&self) -> Seq<i32> {
        self.stops@
    }

    /// Tokens asked for.
    pub closed spec fn wanted(&self) -> nat {
        self.n_new as nat
    }

    /// Positions the prompt takes.
    pub closed spec fn prompt_positions(&self) -> nat {
        self.prompt_len as nat
    }

    /// Nothing is left to emit.
    pub open spec fn complete(&self) -> bool {
        complete_run(self.prompt_positions(), self.wanted(), self.stop_ids(), self.emitted())
    }

    #[verifier::type_invariant]
    spec fn within(self) -> bool {
        &&& self.out@.len() <= self.n_new
        &&& self.prompt_len + self.n_new <= usize::MAX
    }

    /// A generation of `n_new` tokens after a prompt of `prompt_len`.
    pub fn new(prompt_len: usize, n_new: usize, stops: Vec<i32>) -> (g: Generation)
        requires
            prompt_len + n_new <= usize::MAX,
        ensures
            g.emitted() == Seq::<i32>::empty(),
            g.stop_ids() == stops@,
            g.wanted() == n_new,
            g.prompt_positions() == prompt_len,
    {
        Generation { prompt_len, n_new, stops, out: Vec::new() }
    }

    /// What to run next. An empty prompt has nothing to predict from, and no
    /// requested token is nothing to do.
    pub fn ask(&self) -> (a: Ask)
        ensures
            a == Ask::Done <==> self.complete(),
            a == Ask::Done <==> self.prompt_positions() == 0 || self.emitted().len() >= self.wanted()
                || (self.emitted().len() > 0 && self.stop_ids().contains(self.emitted().last())),
            !self.complete() && self.emitted().len() == 0 ==> a == Ask::Prefill,
            !self.complete() && self.emitted().len() > 0 ==> a == (Ask::Step {
                token: self.emitted().last(),
                pos: (self.prompt_positions() + self.emitted().len() - 1) as usize,
            }),
    {
        proof {
            use_type_invariant(self);
        }
        let n: usize = self.out.len();
        if self.prompt_len == 0 || n >= self.n_new {
            return Ask::Done;
        }
        if n == 0 {
            return Ask::Prefill;
        }
        let token: i32 = self.out[n - 1];
        if is_stop(&self.stops, token) {
            return Ask::Done;
        }
        Ask::Step { token, pos: self.prompt_len + n - 1 }
    }

    /// Whether the process's memory is due for a check after the token just
    /// taken: every [`RSS_GUARD_EVERY`] tokens past the first.
    pub fn guard_due(&self) -> (b: bool)
        ensures
            b == (self.emitted().len() >= 2 && (self.emitted().len() - 1) % RSS_GUARD_EVERY as int
                == 0),
    {
        let n: usize = self.out.len();
        n >= 2 && (n - 1) % RSS_GUARD_EVERY == 0
    }

    /// Takes the token that was picked.
    pub fn feed(&mut self, token: i32)
        requires
            !old(self).complete(),
        ensures
            final(self).emitted() == old(self).emitted().push(token),
            final(self).stop_ids() == old(self).stop_ids(),
            final(self).wanted() == old(self).wanted(),
            final(self).prompt_positions() == old(self).prompt_positions(),
    {
        proof {
            use_type_invariant(&*self);
        }
        let mut out: Vec<i32> = Vec::new();
        std::mem::swap(&mut out, &mut self.out);
        out.push(token);
        self.out = out;
    }

    /// The tokens emitted.
    pub fn into_tokens(self) -> (out: Vec<i32>)
        ensures
            out@ == self.emitted(),
    {
        self.out
    }
}

/// How a request is decoded.
#[derive(Clone, Copy, Debug, PartialEq, Eq, Structural)]
pub enum Mode {
    /// Nothing to predict from, or nothing asked for: nothing is emitted.
    Nothing,
    /// One token at a time.
    Greedy,
    /// Drafting ahead.
    Speculative,
}

/// Chooses how a request is decoded: speculation needs a draft head, a depth to
/// draft to, and a model that forgets a rejected draft once its cache is rewound
/// (`reject_is_kv_only`). A recurrent state does not: there a rejected draft
/// would go on colouring every later prediction, so such a model decodes one
/// token at a time.
pub fn mode(
    prompt_len: usize,
    n_new: usize,
    has_head: bool,
    g_draft: usize,
    reject_is_kv_only: bool,
) -> (m: Mode)
    ensures
        m == Mode::Nothing <==> prompt_len == 0 || n_new == 0,
        m == Mode::Speculative <==> prompt_len > 0 && n_new > 0 && has_head && g_draft > 0
            && reject_is_kv_only,
{
    if prompt_len == 0 || n_new == 0 {
        Mode::Nothing
    } else if !has_head || g_draft == 0 || !reject_is_kv_only {
        Mode::Greedy
    } else {
        Mode::Speculative
    }
}

/// A run that is over: nothing to predict from, as many tokens as were asked
/// for, or a token that ends it.
pub open spec fn complete_run(prompt_len: nat, n_new: nat, stops: Seq<i32>, out: Seq<i32>) -> bool {
    ||| prompt_len == 0
    ||| out.len() >= n_new
    ||| out.len() > 0 && stops.contains(out.last())
}

/// `out` is what a model that predicts `f` of every context emits after
/// `prompt`, one token at a time: each token is the prediction of all before
/// it, and none but the last ends the run.
pub open spec fn greedy_run(
    f: spec_fn(Seq<i32>) -> i32,
    prompt: Seq<i32>,
    stops: Seq<i32>,
    out: Seq<i32>,
) -> bool {
    &&& forall|i: int| 0 <= i < out.len() ==> #[trigger] out[i] == f(prompt + out.take(i))
    &&& forall|i: int| 0 <= i < out.len() - 1 ==> !stops.contains(#[trigger] out[i])
}

/// Feeding a generation the model's prediction keeps it a greedy run.
pub proof fn lemma_generation_is_greedy(
    f: spec_fn(Seq<i32>) -> i32,
    prompt: Seq<i32>,
    stops: Seq<i32>,
    n_new: nat,
    out: Seq<i32>,
)
    requires
        greedy_run(f, prompt, stops, out),
        !complete_run(prompt.len(), n_new, stops, out),
    ensures
        greedy_run(f, prompt, stops, out.push(f(prompt + out))),
{
    let t = f(prompt + out);
    let next = out.push(t);
    assert forall|i: int| 0 <= i < next.len() implies #[trigger] next[i] == f(
        prompt + next.take(i),
    ) by {
        assert(next.take(i) =~= out.take(i));
        if i == out.len() {
            assert(out.take(i) =~= out);
        }
    }
    assert forall|i: int| 0 <= i < next.len() - 1 implies !stops.contains(#[trigger] next[i]) by {
        if i == out.len() - 1 {
            assert(out.last() == next[i]);
        } else {
            assert(next[i] == out[i]);
        }
    }
}

/// The greedy run of a model is determined: two complete ones of the same
/// length limit are the same tokens.
pub proof fn lemma_greedy_run_unique(
    f: spec_fn(Seq<i32>) -> i32,
    prompt: Seq<i32>,
    stops: Seq<i32>,
    n_new: nat,
    a: Seq<i32>,
    b: Seq<i32>,
)
    requires
        prompt.len() > 0,
        greedy_run(f, prompt, stops, a),
        greedy_run(f, prompt, stops, b),
        complete_run(prompt.len(), n_new, stops, a),
        complete_run(prompt.len(), n_new, stops, b),
        a.len() <= n_new,
        b.len() <= n_new,
    ensures
        a == b,
{
    let n = if a.len() < b.len() {
        a.len()
    } else {
        b.len()
    };
    lemma_greedy_runs_agree(f, prompt, stops, a, b, n);
    if a.len() < b.len() {
        assert(stops.contains(a.last()));
        assert(a.take(n as int)[n - 1] == b.take(n as int)[n - 1]);
        assert(!stops.contains(b[n - 1]));
        assert(false);
    }
    if b.len() < a.len() {
        assert(stops.contains(b.last()));
        assert(a.take(n as int)[n - 1] == b.take(n as int)[n - 1]);
        assert(!stops.contains(a[n - 1]));
        assert(false);
    }
    assert(a.take(n as int) =~= a);
    assert(b.take(n as int) =~= b);
}

proof fn lemma_greedy_runs_agree(
    f: spec_fn(Seq<i32>) -> i32,
    prompt: Seq<i32>,
    stops: Seq<i32>,
    a: Seq<i32>,
    b: Seq<i32>,
    n: nat,
)
    requires
        greedy_run(f, prompt, stops, a),
        greedy_run(f, prompt, stops, b),
        n <= a.len(),
        n <= b.len(),
    ensures
        a.take(n as int) == b.take(n as int),
    decreases n,
{
    if n > 0 {
        let m = (n - 1) as nat;
        lemma_greedy_runs_agree(f, prompt, stops, a, b, m);
        assert(a[m as int] == f(prompt + a.take(m as int)));
        assert(b[m as int] == f(prompt + b.take(m as int)));
        assert(a.take(n as int) =~= a.take(m as int).push(a[m as int]));
        assert(b.take(n as int) =~= b.take(m as int).push(b[m as int]));
    } else {
        assert(a.take(0) =~= b.take(0));
    }
}

/// How many drafts a round emits: the confirmed ones, up to the token that ends
/// the run and to the room left.
pub open spec fn emitted_drafts(
    preds: Seq<i32>,
    drafts: Seq<i32>,
    stops: Seq<i32>,
    room: int,
) -> nat
    decreases drafts.len(),
{
    if room <= 0 || drafts.len() == 0 || preds.len() == 0 || preds[0] != drafts[0] {
        0
    } else if stops.contains(drafts[0]) {
        1
    } else {
        1 + emitted_drafts(
            preds.subrange(1, preds.len() as int),
            drafts.subrange(1, drafts.len() as int),
            stops,
            room - 1,
        )
    }
}

/// What one speculative round leaves.
pub struct Round {
    /// Drafts emitted.
    pub accepted: usize,
    /// A token that ends the run was emitted.
    pub stopped: bool,
}

/// Drafting ahead and verifying in one forward.
pub struct Speculation {
    n_new: usize,
    stops: Vec<i32>,
    out: Vec<i32>,
    next: i32,
    prompt_len: usize,
    stopped: bool,
}

impl Speculation {
    /// Tokens emitted so far.
    pub closed spec fn emitted(&self) -> Seq<i32> {
        self.out@
    }

    /// The tokens that end a generation.
    pub closed spec fn stop_ids(&self) -> Seq<i32> {
        self.stops@
    }

    /// Tokens asked for.
    pub closed spec fn wanted(&self) -> nat {
        self.n_new as nat
    }

    /// The model's prediction after everything emitted.
    pub closed spec fn pending(&self) -> i32 {
        self.next
    }

    /// Positions the cache holds.
    pub closed spec fn position(&self) -> nat {
        (self.prompt_len + self.out@.len()) as nat
    }

    /// A token that ends the run was emitted.
    pub closed spec fn ended(&self) -> bool {
        self.stopped
    }

    /// Nothing is left to emit.
    pub open spec fn complete(&self) -> bool {
        self.emitted().len() >= self.wanted() || self.ended()
    }

    #[verifier::type_invariant]
    spec fn within(self) -> bool {
        &&& self.out@.len() <= self.n_new
        &&& self.prompt_len + self.n_new <= usize::MAX
    }

    /// A speculation after the prompt was forwarded: `first` is the prediction
    /// after it.
    pub fn new(prompt_len: usize, n_new: usize, stops: Vec<i32>, first: i32) -> (s: Speculation)
        requires
            prompt_len + n_new <= usize::MAX,
        ensures
            s.emitted() == Seq::<i32>::empty(),
            s.stop_ids() == stops@,
            s.wanted() == n_new,
            s.pending() == first,
            s.position() == prompt_len,
            !s.ended(),
    {
        Speculation { n_new, stops, out: Vec::new(), next: first, prompt_len, stopped: false }
    }

    /// Whether the run is over.
    pub fn is_complete(&self) -> (b: bool)
        ensures
            b == self.complete(),
    {
        self.out.len() >= self.n_new || self.stopped
    }

    /// The token the next round starts with.
    pub fn pending_token(&self) -> (t: i32)
        ensures
            t == self.pending(),
    {
        self.next
    }

    /// The position the next round starts at.
    pub fn start(&self) -> (p: usize)
        ensures
            p == self.position(),
    {
        proof {
            use_type_invariant(self);
        }
        self.prompt_len + self.out.len()
    }

    /// How deep to draft: at most what is left after the pending token, which
    /// every round emits.
    pub fn draft_depth(&self, g_draft: usize) -> (g: usize)
        requires
            !self.complete(),
        ensures
            g == if g_draft as int <= self.wanted() - self.emitted().len() - 1 {
                g_draft as int
            } else {
                self.wanted() - self.emitted().len() - 1
            },
    {
        proof {
            use_type_invariant(self);
        }
        let left: usize = self.n_new - self.out.len() - 1;
        if g_draft < left {
            g_draft
        } else {
            left
        }
    }

    /// The rows one verify forward runs: the pending token, then the drafts.
    pub fn verify_rows(&self, drafts: &[i32]) -> (rows: Vec<i32>)
        ensures
            rows@ == seq![self.pending()] + drafts@,
    {
        let mut rows: Vec<i32> = Vec::new();
        rows.push(self.next);
        rows.extend_from_slice(drafts);
        assert(rows@ =~= seq![self.pending()] + drafts@);
        rows
    }

    /// Judges a round: emits the pending token, then every draft the model
    /// confirms, up to a token that ends the run and to the room left.
    /// `preds[k]` is the model's prediction after row `k`.
    pub fn judge(&mut self, drafts: &[i32], preds: &[i32]) -> (r: Round)
        requires
            !old(self).complete(),
        ensures
            ({
                let room = old(self).wanted() - old(self).emitted().len() - 1;
                let k = if old(self).stop_ids().contains(old(self).pending()) {
                    0
                } else {
                    emitted_drafts(preds@, drafts@, old(self).stop_ids(), room)
                };
                &&& r.accepted == k
                &&& k <= drafts@.len()
                &&& k <= room
                &&& final(self).emitted() == old(self).emitted().push(old(self).pending())
                    + drafts@.take(k as int)
                &&& r.stopped == old(self).stop_ids().contains(final(self).emitted().last())
            }),
            forall|j: int| 0 <= j < r.accepted ==> #[trigger] preds@[j] == drafts@[j],
            r.accepted < drafts@.len() && r.accepted < preds@.len() && !r.stopped
                && final(self).emitted().len() < final(self).wanted()
                ==> preds@[r.accepted as int] != drafts@[r.accepted as int],
            final(self).ended() == r.stopped,
            final(self).stop_ids() == old(self).stop_ids(),
            final(self).wanted() == old(self).wanted(),
            final(self).pending() == old(self).pending(),
            final(self).position() == old(self).position() + 1 + r.accepted,
    {
        proof {
            use_type_invariant(&*self);
        }
        let ghost before = self.out@;
        let ghost stops = self.stops@;
        let room: usize = self.n_new - self.out.len() - 1;
        let mut run: Vec<i32> = Vec::new();
        run.push(self.next);
        let mut stopped: bool = is_stop(&self.stops, self.next);
        let ghost stopped0 = stopped;
        let mut k: usize = 0;
        assert(drafts@.take(0) =~= Seq::empty());
        assert(run@ =~= seq![self.next] + drafts@.take(0));
        assert(preds@.subrange(0, preds@.len() as int) =~= preds@);
        assert(drafts@.subrange(0, drafts@.len() as int) =~= drafts@);
        let ghost whole = emitted_drafts(preds@, drafts@, stops, room as int);
        while k < drafts.len() && k < room && !stopped && k < preds.len() && preds[k] == drafts[k]
            invariant
                stops == self.stops@,
                k <= drafts@.len(),
                k <= room,
                k <= preds@.len(),
                run@ == seq![self.next] + drafts@.take(k as int),
                stopped == stops.contains(run@.last()),
                stopped0 ==> k == 0 && stopped,
                !stopped0 ==> whole == k + if stopped {
                    0
                } else {
                    emitted_drafts(
                        preds@.subrange(k as int, preds@.len() as int),
                        drafts@.subrange(k as int, drafts@.len() as int),
                        stops,
                        room - k,
                    )
                },
            decreases drafts@.len() - k,
        {
            proof {
                let p = preds@.subrange(k as int, preds@.len() as int);
                let d = drafts@.subrange(k as int, drafts@.len() as int);
                assert(p[0] == preds@[k as int]);
                assert(d[0] == drafts@[k as int]);
                assert(p.subrange(1, p.len() as int) =~= preds@.subrange(
                    k + 1,
                    preds@.len() as int,
                ));
                assert(d.subrange(1, d.len() as int) =~= drafts@.subrange(
                    k + 1,
                    drafts@.len() as int,
                ));
            }
            run.push(drafts[k]);
            stopped = is_stop(&self.stops, drafts[k]);
            k = k + 1;
            assert(run@ =~= seq![self.next] + drafts@.take(k as int));
        }
        proof {
            if !stopped {
                let p = preds@.subrange(k as int, preds@.len() as int);
                let d = drafts@.subrange(k as int, drafts@.len() as int);
                if p.len() > 0 && d.len() > 0 {
                    assert(p[0] == preds@[k as int]);
                    assert(d[0] == drafts@[k as int]);
                }
                assert(emitted_drafts(p, d, stops, room - k) == 0);
            }
        }
        proof {
            lemma_emitted_drafts(preds@, drafts@, stops, room as int);
            lemma_emitted_run_is_maximal(preds@, drafts@, stops, room as int);
        }
        let ghost emitted = run@;
        let mut out: Vec<i32> = Vec::new();
        std::mem::swap(&mut out, &mut self.out);
        out.append(&mut run);
        assert(out@ =~= before.push(self.next) + drafts@.take(k as int));
        assert(out@.last() == emitted.last());
        self.stopped = stopped;
        self.out = out;
        Round { accepted: k, stopped }
    }

    /// Takes the prediction the next round starts from: the model's own after
    /// the last accepted row, refined or not.
    pub fn resume(&mut self, next: i32)
        ensures
            final(self).pending() == next,
            final(self).emitted() == old(self).emitted(),
            final(self).stop_ids() == old(self).stop_ids(),
            final(self).wanted() == old(self).wanted(),
            final(self).position() == old(self).position(),
            final(self).ended() == old(self).ended(),
    {
        proof {
            use_type_invariant(&*self);
        }
        self.next = next;
    }

    /// The tokens emitted.
    pub fn into_tokens(self) -> (out: Vec<i32>)
        ensures
            out@ == self.emitted(),
    {
        self.out
    }
}

/// Every emitted draft is what the model predicts there, and none but the last
/// ends the run.
pub proof fn lemma_emitted_drafts(preds: Seq<i32>, drafts: Seq<i32>, stops: Seq<i32>, room: int)
    ensures
        ({
            let k = emitted_drafts(preds, drafts, stops, room) as int;
            &&& k <= drafts.len()
            &&& k <= preds.len()
            &&& room >= 0 ==> k <= room
            &&& forall|j: int| 0 <= j < k ==> #[trigger] preds[j] == drafts[j]
            &&& forall|j: int| 0 <= j < k - 1 ==> !stops.contains(#[trigger] drafts[j])
        }),
    decreases drafts.len(),
{
    if !(room <= 0 || drafts.len() == 0 || preds.len() == 0 || preds[0] != drafts[0])
        && !stops.contains(drafts[0]) {
        let p = preds.subrange(1, preds.len() as int);
        let d = drafts.subrange(1, drafts.len() as int);
        lemma_emitted_drafts(p, d, stops, room - 1);
        let k = emitted_drafts(preds, drafts, stops, room) as int;
        assert forall|j: int| 0 <= j < k implies #[trigger] preds[j] == drafts[j] by {
            if j > 0 {
                assert(p[j - 1] == d[j - 1]);
            }
        }
        assert forall|j: int| 0 <= j < k - 1 implies !stops.contains(#[trigger] drafts[j]) by {
            if j > 0 {
                assert(!stops.contains(d[j - 1]));
            }
        }
    }
}

/// A round throws no confirmed draft away: where it emits fewer drafts than there
/// were, the model disagrees with the next one, the room is used up, or the last
/// token emitted ends the run.
pub proof fn lemma_emitted_run_is_maximal(
    preds: Seq<i32>,
    drafts: Seq<i32>,
    stops: Seq<i32>,
    room: int,
)
    ensures
        ({
            let k = emitted_drafts(preds, drafts, stops, room) as int;
            k < drafts.len() && k < preds.len() && k < room && (k > 0 ==> !stops.contains(
                drafts[k - 1],
            )) ==> preds[k] != drafts[k]
        }),
    decreases drafts.len(),
{
    if !(room <= 0 || drafts.len() == 0 || preds.len() == 0 || preds[0] != drafts[0])
        && !stops.contains(drafts[0]) {
        let p = preds.subrange(1, preds.len() as int);
        let d = drafts.subrange(1, drafts.len() as int);
        lemma_emitted_run_is_maximal(p, d, stops, room - 1);
        lemma_emitted_drafts(p, d, stops, room - 1);
        let k = emitted_drafts(preds, drafts, stops, room) as int;
        if k - 1 < d.len() && k - 1 < p.len() {
            assert(p[k - 1] == preds[k]);
            assert(d[k - 1] == drafts[k]);
        }
        if k > 1 {
            assert(d[k - 2] == drafts[k - 1]);
        }
    }
}

/// Only one number of drafts can be emitted: a run that is sound (each token is
/// what the model predicts, none but the last ends it) and maximal is the one.
pub proof fn lemma_emitted_run_is_unique(
    preds: Seq<i32>,
    drafts: Seq<i32>,
    stops: Seq<i32>,
    room: int,
    k: int,
)
    requires
        0 <= k <= drafts.len(),
        k <= preds.len(),
        k <= room,
        forall|j: int| 0 <= j < k ==> #[trigger] preds[j] == drafts[j],
        forall|j: int| 0 <= j < k - 1 ==> !stops.contains(#[trigger] drafts[j]),
        k < drafts.len() && k < preds.len() && k < room && (k > 0 ==> !stops.contains(
            drafts[k - 1],
        )) ==> preds[k] != drafts[k],
    ensures
        emitted_drafts(preds, drafts, stops, room) == k,
{
    lemma_emitted_drafts(preds, drafts, stops, room);
    lemma_emitted_run_is_maximal(preds, drafts, stops, room);
    let c = emitted_drafts(preds, drafts, stops, room) as int;
    if c < k {
        assert(preds[c] == drafts[c]);
        if c > 0 {
            assert(!stops.contains(drafts[c - 1]));
        }
    }
    if k < c {
        assert(preds[k] == drafts[k]);
        if k > 0 {
            assert(!stops.contains(drafts[k - 1]));
        }
    }
}

/// Right drafts are worth drafting: where the model predicts every one of them,
/// none ends the run and there is room, all are emitted in one round.
pub proof fn lemma_right_drafts_are_all_emitted(
    preds: Seq<i32>,
    drafts: Seq<i32>,
    stops: Seq<i32>,
    room: int,
)
    requires
        drafts.len() <= preds.len(),
        drafts.len() <= room,
        forall|j: int| 0 <= j < drafts.len() ==> #[trigger] preds[j] == drafts[j],
        forall|j: int| 0 <= j < drafts.len() ==> !stops.contains(#[trigger] drafts[j]),
    ensures
        emitted_drafts(preds, drafts, stops, room) == drafts.len(),
        confirmed(preds, drafts) == drafts.len(),
{
    lemma_emitted_run_is_unique(preds, drafts, stops, room, drafts.len() as int);
    lemma_confirmed_unique(preds, drafts, drafts.len() as int);
}

/// A longer budget never emits less of the same drafts, and what the shorter one
/// emits comes first.
pub proof fn lemma_more_room_emits_no_less(
    preds: Seq<i32>,
    drafts: Seq<i32>,
    stops: Seq<i32>,
    room: int,
    more: int,
)
    requires
        0 <= room <= more,
    ensures
        emitted_drafts(preds, drafts, stops, room) <= emitted_drafts(preds, drafts, stops, more),
{
    lemma_emitted_drafts(preds, drafts, stops, room);
    lemma_emitted_drafts(preds, drafts, stops, more);
    lemma_emitted_run_is_maximal(preds, drafts, stops, more);
    let a = emitted_drafts(preds, drafts, stops, room) as int;
    let b = emitted_drafts(preds, drafts, stops, more) as int;
    if b < a {
        assert(preds[b] == drafts[b]);
        if b > 0 {
            assert(!stops.contains(drafts[b - 1]));
        }
    }
}

/// The predictions a verify forward gives: after each row, what the model
/// predicts of everything up to it.
pub open spec fn verified_rows(
    f: spec_fn(Seq<i32>) -> i32,
    context: Seq<i32>,
    pending: i32,
    drafts: Seq<i32>,
    preds: Seq<i32>,
) -> bool {
    &&& preds.len() == drafts.len() + 1
    &&& forall|k: int|
        0 <= k < preds.len() ==> #[trigger] preds[k] == f(
            context.push(pending) + drafts.take(k),
        )
}

/// One speculative round extends a greedy run to a greedy run, whatever was
/// drafted, and leaves the model's own prediction pending: speculation changes
/// how many forwards a text takes, never the text.
///
/// `out` is what was emitted before the round, `pending` the prediction after
/// it, `k` what the round emits of `drafts`.
pub proof fn lemma_speculation_is_greedy(
    f: spec_fn(Seq<i32>) -> i32,
    prompt: Seq<i32>,
    stops: Seq<i32>,
    out: Seq<i32>,
    pending: i32,
    drafts: Seq<i32>,
    preds: Seq<i32>,
    room: int,
)
    requires
        greedy_run(f, prompt, stops, out),
        out.len() > 0 ==> !stops.contains(out.last()),
        pending == f(prompt + out),
        verified_rows(f, prompt + out, pending, drafts, preds),
        room >= 0,
    ensures
        ({
            let k = if stops.contains(pending) {
                0
            } else {
                emitted_drafts(preds, drafts, stops, room)
            } as int;
            let after = out.push(pending) + drafts.take(k);
            &&& greedy_run(f, prompt, stops, after)
            &&& k < preds.len()
            &&& preds[k] == f(prompt + after)
        }),
{
    let k = if stops.contains(pending) {
        0
    } else {
        emitted_drafts(preds, drafts, stops, room)
    } as int;
    lemma_emitted_drafts(preds, drafts, stops, room);
    let after = out.push(pending) + drafts.take(k);
    let n = out.len() as int;
    assert forall|i: int| 0 <= i < after.len() implies #[trigger] after[i] == f(
        prompt + after.take(i),
    ) by {
        if i < n {
            assert(after.take(i) =~= out.take(i));
            assert(out[i] == f(prompt + out.take(i)));
        } else if i == n {
            assert(after.take(i) =~= out);
        } else {
            let j = i - n - 1;
            assert(after[i] == drafts[j]);
            assert(preds[j] == drafts[j]);
            assert(prompt + after.take(i) =~= (prompt + out).push(pending) + drafts.take(j));
        }
    }
    assert forall|i: int| 0 <= i < after.len() - 1 implies !stops.contains(#[trigger] after[i]) by {
        if i < n - 1 {
            assert(!stops.contains(out[i]));
        } else if i == n - 1 {
            assert(out.last() == after[i]);
        } else if i == n {
            assert(k > 0);
            assert(!stops.contains(pending));
        } else {
            let j = i - n - 1;
            assert(!stops.contains(drafts[j]));
        }
    }
    assert(prompt + after =~= (prompt + out).push(pending) + drafts.take(k));
}

/// Everything greedy decoding emits after `out`: the prediction of all before,
/// until the run is over.
pub open spec fn greedy_from(
    f: spec_fn(Seq<i32>) -> i32,
    prompt: Seq<i32>,
    stops: Seq<i32>,
    n_new: nat,
    out: Seq<i32>,
) -> Seq<i32>
    decreases n_new - out.len(),
{
    if complete_run(prompt.len(), n_new, stops, out) {
        out
    } else {
        greedy_from(f, prompt, stops, n_new, out.push(f(prompt + out)))
    }
}

/// The predictions of one verify forward.
pub open spec fn round_preds(
    f: spec_fn(Seq<i32>) -> i32,
    context: Seq<i32>,
    pending: i32,
    drafts: Seq<i32>,
) -> Seq<i32> {
    Seq::new((drafts.len() + 1) as nat, |k: int| f(context.push(pending) + drafts.take(k)))
}

/// What one round emits of its drafts.
pub open spec fn round_accepts(
    f: spec_fn(Seq<i32>) -> i32,
    prompt: Seq<i32>,
    stops: Seq<i32>,
    n_new: nat,
    drafts: Seq<i32>,
    out: Seq<i32>,
) -> nat {
    let pending = f(prompt + out);
    if stops.contains(pending) {
        0
    } else {
        emitted_drafts(
            round_preds(f, prompt + out, pending, drafts),
            drafts,
            stops,
            n_new - out.len() - 1,
        )
    }
}

/// Everything speculative decoding emits after `out`, with whatever `draft`
/// proposes after each text.
pub open spec fn speculative_from(
    f: spec_fn(Seq<i32>) -> i32,
    draft: spec_fn(Seq<i32>) -> Seq<i32>,
    prompt: Seq<i32>,
    stops: Seq<i32>,
    n_new: nat,
    out: Seq<i32>,
) -> Seq<i32>
    decreases n_new - out.len(),
{
    if complete_run(prompt.len(), n_new, stops, out) {
        out
    } else {
        let k = round_accepts(f, prompt, stops, n_new, draft(out), out);
        proof {
            lemma_emitted_drafts(
                round_preds(f, prompt + out, f(prompt + out), draft(out)),
                draft(out),
                stops,
                n_new - out.len() - 1,
            );
        }
        speculative_from(
            f,
            draft,
            prompt,
            stops,
            n_new,
            out.push(f(prompt + out)) + draft(out).take(k as int),
        )
    }
}

proof fn lemma_greedy_from(
    f: spec_fn(Seq<i32>) -> i32,
    prompt: Seq<i32>,
    stops: Seq<i32>,
    n_new: nat,
    out: Seq<i32>,
)
    requires
        prompt.len() > 0,
        out.len() <= n_new,
        greedy_run(f, prompt, stops, out),
    ensures
        ({
            let all = greedy_from(f, prompt, stops, n_new, out);
            greedy_run(f, prompt, stops, all) && complete_run(prompt.len(), n_new, stops, all)
                && all.len() <= n_new
        }),
    decreases n_new - out.len(),
{
    if !complete_run(prompt.len(), n_new, stops, out) {
        lemma_generation_is_greedy(f, prompt, stops, n_new, out);
        lemma_greedy_from(f, prompt, stops, n_new, out.push(f(prompt + out)));
    }
}

/// Greedy decoding emits as many tokens as were asked for, unless one ends the
/// run: then that is the last and the only such one. Each token is the model's
/// prediction of everything before it. An empty prompt emits nothing.
pub proof fn lemma_greedy_output(
    f: spec_fn(Seq<i32>) -> i32,
    prompt: Seq<i32>,
    stops: Seq<i32>,
    n_new: nat,
)
    ensures
        ({
            let out = greedy_from(f, prompt, stops, n_new, Seq::empty());
            &&& prompt.len() == 0 ==> out.len() == 0
            &&& out.len() <= n_new
            &&& prompt.len() > 0 && out.len() < n_new ==> out.len() > 0 && stops.contains(
                out.last(),
            )
            &&& forall|i: int| 0 <= i < out.len() ==> #[trigger] out[i] == f(prompt + out.take(i))
            &&& forall|i: int| 0 <= i < out.len() - 1 ==> !stops.contains(#[trigger] out[i])
        }),
{
    if prompt.len() > 0 {
        lemma_greedy_from(f, prompt, stops, n_new, Seq::empty());
    }
}

proof fn lemma_speculative_from(
    f: spec_fn(Seq<i32>) -> i32,
    draft: spec_fn(Seq<i32>) -> Seq<i32>,
    prompt: Seq<i32>,
    stops: Seq<i32>,
    n_new: nat,
    out: Seq<i32>,
)
    requires
        prompt.len() > 0,
        out.len() <= n_new,
        greedy_run(f, prompt, stops, out),
    ensures
        ({
            let all = speculative_from(f, draft, prompt, stops, n_new, out);
            greedy_run(f, prompt, stops, all) && complete_run(prompt.len(), n_new, stops, all)
                && all.len() <= n_new
        }),
    decreases n_new - out.len(),
{
    if !complete_run(prompt.len(), n_new, stops, out) {
        let pending = f(prompt + out);
        let drafts = draft(out);
        let preds = round_preds(f, prompt + out, pending, drafts);
        let room = n_new - out.len() - 1;
        lemma_speculation_is_greedy(f, prompt, stops, out, pending, drafts, preds, room);
        lemma_emitted_drafts(preds, drafts, stops, room);
        let k = round_accepts(f, prompt, stops, n_new, drafts, out) as int;
        lemma_speculative_from(
            f,
            draft,
            prompt,
            stops,
            n_new,
            out.push(pending) + drafts.take(k),
        );
    }
}

/// Speculative decoding emits exactly what greedy decoding emits, whatever the
/// draft source proposes and however deep it drafts.
pub proof fn lemma_speculative_output_is_greedy_output(
    f: spec_fn(Seq<i32>) -> i32,
    draft: spec_fn(Seq<i32>) -> Seq<i32>,
    prompt: Seq<i32>,
    stops: Seq<i32>,
    n_new: nat,
)
    ensures
        speculative_from(f, draft, prompt, stops, n_new, Seq::empty()) == greedy_from(
            f,
            prompt,
            stops,
            n_new,
            Seq::empty(),
        ),
{
    let none = Seq::<i32>::empty();
    if prompt.len() > 0 {
        lemma_greedy_from(f, prompt, stops, n_new, none);
        lemma_speculative_from(f, draft, prompt, stops, n_new, none);
        lemma_greedy_run_unique(
            f,
            prompt,
            stops,
            n_new,
            speculative_from(f, draft, prompt, stops, n_new, none),
            greedy_from(f, prompt, stops, n_new, none),
        );
    }
}

/// What a request decoded in mode `m` emits.
pub open spec fn decoded(
    m: Mode,
    f: spec_fn(Seq<i32>) -> i32,
    draft: spec_fn(Seq<i32>) -> Seq<i32>,
    prompt: Seq<i32>,
    stops: Seq<i32>,
    n_new: nat,
) -> Seq<i32> {
    match m {
        Mode::Nothing => Seq::empty(),
        Mode::Greedy => greedy_from(f, prompt, stops, n_new, Seq::empty()),
        Mode::Speculative => speculative_from(f, draft, prompt, stops, n_new, Seq::empty()),
    }
}

/// Whether a model has a draft head, and how deep it drafts, never shows in what
/// it emits.
pub proof fn lemma_mode_never_shows(
    a: Mode,
    b: Mode,
    f: spec_fn(Seq<i32>) -> i32,
    draft: spec_fn(Seq<i32>) -> Seq<i32>,
    prompt: Seq<i32>,
    stops: Seq<i32>,
    n_new: nat,
)
    requires
        a == Mode::Nothing <==> prompt.len() == 0 || n_new == 0,
        b == Mode::Nothing <==> prompt.len() == 0 || n_new == 0,
    ensures
        decoded(a, f, draft, prompt, stops, n_new) == decoded(b, f, draft, prompt, stops, n_new),
{
    lemma_speculative_output_is_greedy_output(f, draft, prompt, stops, n_new);
}

} // verus!
