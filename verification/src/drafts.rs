//! Drafting with the model's own head, one sequence at a time or every sequence
//! in step, and accepting drafts against a sampled target. The caller computes
//! what the head proposes; these decide which rows it runs on and what is kept.

use vstd::prelude::*;

verus! {

/// What drafting from `out` on ends with, where `pick` is what the head proposes
/// after each run of drafts, or `None` where it is too unsure to: drafts until
/// the depth is reached or the head declines.
pub open spec fn drafted_from(
    pick: spec_fn(Seq<i32>) -> Option<i32>,
    depth: nat,
    out: Seq<i32>,
) -> Seq<i32>
    decreases depth - out.len(),
{
    if out.len() >= depth {
        out
    } else {
        match pick(out) {
            None => out,
            Some(t) => drafted_from(pick, depth, out.push(t)),
        }
    }
}

/// One row of the draft head.
pub struct HeadRow {
    /// The token it embeds.
    pub token: i32,
    /// Its position in the head's own cache.
    pub pos: usize,
    /// The incoming hidden is the main model's and is normed first; later rows
    /// carry the head's own output.
    pub norm_first: bool,
}

/// Drafting for one sequence.
pub struct HeadDraft {
    depth: usize,
    token: i32,
    out: Vec<i32>,
    declined: bool,
}

impl HeadDraft {
    /// Drafts so far.
    pub closed spec fn drafts(&self) -> Seq<i32> {
        self.out@
    }

    /// Drafts asked for.
    pub closed spec fn wanted(&self) -> nat {
        self.depth as nat
    }

    /// The head declined to draft further.
    pub closed spec fn ended(&self) -> bool {
        self.declined
    }

    /// The token the next row embeds.
    pub closed spec fn embeds(&self) -> i32 {
        self.token
    }

    /// Drafting is over.
    pub open spec fn done(&self) -> bool {
        self.ended() || self.drafts().len() >= self.wanted()
    }

    /// Drafting up to `depth` tokens after `next`.
    pub fn new(next: i32, depth: usize) -> (d: HeadDraft)
        ensures
            d.drafts() == Seq::<i32>::empty(),
            d.wanted() == depth,
            !d.ended(),
            d.embeds() == next,
    {
        HeadDraft { depth, token: next, out: Vec::new(), declined: false }
    }

    /// The row to run next, `None` when drafting is over.
    pub fn next_row(&self) -> (r: Option<HeadRow>)
        ensures
            r is Some <==> !self.done(),
            r is Some ==> (r->0).token == self.embeds() && (r->0).pos == self.drafts().len()
                && (r->0).norm_first == (self.drafts().len() == 0),
    {
        if self.declined || self.out.len() >= self.depth {
            None
        } else {
            let pos: usize = self.out.len();
            Some(HeadRow { token: self.token, pos, norm_first: pos == 0 })
        }
    }

    /// Takes what the head proposed. `None` means its best token was under the
    /// confidence floor: that token is not drafted and drafting ends.
    pub fn take(&mut self, pick: Option<i32>)
        requires
            !old(self).done(),
        ensures
            final(self).wanted() == old(self).wanted(),
            final(self).ended() == (pick is None),
            pick is None ==> final(self).drafts() == old(self).drafts() && final(self).embeds()
                == old(self).embeds(),
            pick is Some ==> final(self).drafts() == old(self).drafts().push(pick->0) && final(self).embeds() == pick->0,
    {
        match pick {
            None => {
                self.declined = true;
            },
            Some(t) => {
                self.out.push(t);
                self.token = t;
            },
        }
    }

    /// The drafts.
    pub fn into_drafts(self) -> (out: Vec<i32>)
        ensures
            out@ == self.drafts(),
    {
        self.out
    }
}

/// `i` is none of the first `n` of `active`.
spec fn none_of(active: Seq<usize>, n: int, i: int) -> bool {
    forall|q: int| 0 <= q < n ==> (#[trigger] active[q]) != i
}

/// A batch's state: each sequence's depth and drafts, the sequences still
/// drafting, and the depth reached.
pub struct BatchDraft {
    depth: Vec<usize>,
    out: Vec<Vec<i32>>,
    tokens: Vec<i32>,
    active: Vec<usize>,
    g: usize,
}

/// The first `n` still-drafting sequences that go on after a step: those the
/// head proposed a token for and that have not reached their depth.
pub open spec fn survivors(
    active: Seq<usize>,
    picks: Seq<Option<i32>>,
    depth: Seq<usize>,
    g: nat,
    n: nat,
) -> Seq<usize>
    decreases n,
{
    if n == 0 {
        Seq::empty()
    } else {
        let rest = survivors(active, picks, depth, g, (n - 1) as nat);
        if picks[n - 1] is Some && g + 1 < depth[active[n - 1] as int] {
            rest.push(active[n - 1])
        } else {
            rest
        }
    }
}

impl BatchDraft {
    /// Each sequence's drafts.
    pub closed spec fn drafts(&self) -> Seq<Seq<i32>> {
        Seq::new(self.out@.len(), |i: int| self.out@[i]@)
    }

    /// Each sequence's depth.
    pub closed spec fn depths(&self) -> Seq<usize> {
        self.depth@
    }

    /// The sequences still drafting, ascending.
    pub closed spec fn drafting(&self) -> Seq<usize> {
        self.active@
    }

    /// The token each sequence's next row embeds.
    pub closed spec fn embeds(&self) -> Seq<i32> {
        self.tokens@
    }

    /// Steps taken.
    pub closed spec fn step_count(&self) -> nat {
        self.g as nat
    }

    /// Sequences in the batch.
    pub open spec fn size(&self) -> nat {
        self.drafts().len()
    }

    /// The still-drafting sequences ascend, and each has drafted one token a
    /// step and has room for another.
    pub open spec fn wf(&self) -> bool {
        &&& self.depths().len() == self.size()
        &&& self.embeds().len() == self.size()
        &&& forall|r: int|
            0 <= r < self.drafting().len() ==> {
                let i = #[trigger] self.drafting()[r] as int;
                &&& i < self.size()
                &&& self.drafts()[i].len() == self.step_count()
                &&& self.step_count() < self.depths()[i]
            }
        &&& forall|r: int, q: int|
            0 <= r < q < self.drafting().len() ==> self.drafting()[r] < self.drafting()[q]
        &&& forall|i: int|
            0 <= i < self.size() ==> (#[trigger] self.drafts()[i]).len() <= self.depths()[i]
    }

    /// Starts a batch: every sequence with a hidden state to continue from and
    /// a depth to reach drafts. `None` when the lists differ in length.
    pub fn new(next: &[i32], has_hidden: &[bool], depth: &[usize]) -> (r: Option<BatchDraft>)
        ensures
            r is Some <==> has_hidden@.len() == next@.len() && depth@.len() == next@.len(),
            r is Some ==> {
                let b = r->0;
                &&& b.wf()
                &&& b.size() == next@.len()
                &&& b.depths() == depth@
                &&& b.embeds() == next@
                &&& b.step_count() == 0
                &&& forall|i: int| 0 <= i < b.size() ==> (#[trigger] b.drafts()[i]).len() == 0
                &&& forall|i: int|
                    0 <= i < b.size() ==> (#[trigger] b.drafting().contains(i as usize)
                        <==> has_hidden@[i] && depth@[i] > 0)
            },
    {
        let n: usize = next.len();
        if has_hidden.len() != n || depth.len() != n {
            return None;
        }
        let mut b = BatchDraft {
            depth: Vec::new(),
            out: Vec::new(),
            tokens: Vec::new(),
            active: Vec::new(),
            g: 0,
        };
        let mut i: usize = 0;
        while i < n
            invariant
                i <= n,
                n == next@.len(),
                has_hidden@.len() == n,
                depth@.len() == n,
                b.depth@ == depth@.take(i as int),
                b.tokens@ == next@.take(i as int),
                b.out@.len() == i,
                b.g == 0,
                forall|j: int| 0 <= j < i ==> (#[trigger] b.out@[j])@.len() == 0,
                forall|r: int|
                    0 <= r < b.active@.len() ==> (#[trigger] b.active@[r]) < i
                        && depth@[b.active@[r] as int] > 0,
                forall|r: int, q: int|
                    0 <= r < q < b.active@.len() ==> b.active@[r] < b.active@[q],
                forall|j: int|
                    0 <= j < i ==> (#[trigger] b.active@.contains(j as usize) <==> has_hidden@[j]
                        && depth@[j] > 0),
            decreases n - i,
        {
            let ghost before = b.active@;
            b.depth.push(depth[i]);
            b.tokens.push(next[i]);
            b.out.push(Vec::new());
            if has_hidden[i] && depth[i] > 0 {
                b.active.push(i);
                assert(b.active@[before.len() as int] == i);
                assert forall|j: int| 0 <= j < i implies (#[trigger] b.active@.contains(
                    j as usize,
                ) <==> before.contains(j as usize)) by {
                    if before.contains(j as usize) {
                        let r = choose|r: int| 0 <= r < before.len() && before[r] == j as usize;
                        assert(b.active@[r] == j as usize);
                    }
                }
            }
            assert(b.depth@ =~= depth@.take(i + 1));
            assert(b.tokens@ =~= next@.take(i + 1));
            i = i + 1;
        }
        assert(depth@.take(n as int) =~= depth@);
        assert(next@.take(n as int) =~= next@);
        Some(b)
    }

    /// Whether every sequence is done.
    pub fn is_done(&self) -> (b: bool)
        ensures
            b == (self.drafting().len() == 0),
    {
        self.active.len() == 0
    }

    /// Rows of the next step, one per still-drafting sequence.
    pub fn row_count(&self) -> (n: usize)
        ensures
            n == self.drafting().len(),
    {
        self.active.len()
    }

    /// Row `r` of the next step, with the sequence it is for.
    pub fn row(&self, r: usize) -> (row: (usize, HeadRow))
        requires
            self.wf(),
            r < self.drafting().len(),
        ensures
            row.0 == self.drafting()[r as int],
            row.1.token == self.embeds()[row.0 as int],
            row.1.pos == self.step_count(),
            row.1.norm_first == (self.step_count() == 0),
    {
        assert(self.drafting()[r as int] < self.size());
        let i: usize = self.active[r];
        (i, HeadRow { token: self.tokens[i], pos: self.g, norm_first: self.g == 0 })
    }

    /// What a step makes of the head's proposals.
    pub open spec fn stepped(&self, picks: Seq<Option<i32>>, after: BatchDraft) -> bool {
        &&& after.size() == self.size()
        &&& after.depths() == self.depths()
        &&& after.step_count() == self.step_count() + 1
        &&& after.drafting() == survivors(
            self.drafting(),
            picks,
            self.depths(),
            self.step_count(),
            self.drafting().len(),
        )
        &&& forall|r: int|
            0 <= r < self.drafting().len() ==> {
                let i = #[trigger] self.drafting()[r] as int;
                &&& after.drafts()[i] == match picks[r] {
                    Some(t) => self.drafts()[i].push(t),
                    None => self.drafts()[i],
                }
                &&& after.embeds()[i] == match picks[r] {
                    Some(t) => t,
                    None => self.embeds()[i],
                }
            }
        &&& forall|i: int|
            0 <= i < self.size() && !self.drafting().contains(i as usize) ==> #[trigger] after.drafts()[i]
                == self.drafts()[i] && after.embeds()[i] == self.embeds()[i]
    }

    /// Takes what the head proposed for each row. A sequence leaves when the
    /// head declined, when it proposed nothing, or at its own depth.
    pub fn step(&mut self, picks: &[Option<i32>])
        requires
            old(self).wf(),
            picks@.len() == old(self).drafting().len(),
            old(self).drafting().len() > 0,
        ensures
            final(self).wf(),
            old(self).stepped(picks@, *final(self)),
    {
        let ghost o = *self;
        let mut still: Vec<usize> = Vec::new();
        let mut r: usize = 0;
        assert(o.drafting()[0] < o.size());
        assert(o.step_count() < o.depths()[o.drafting()[0] as int]);
        while r < self.active.len()
            invariant
                o.wf(),
                self.active@ == o.active@,
                self.depth@ == o.depth@,
                self.g == o.g,
                picks@.len() == o.active@.len(),
                r <= o.active@.len(),
                self.out@.len() == o.out@.len(),
                self.tokens@.len() == o.tokens@.len(),
                forall|q: int|
                    0 <= q < r ==> {
                        let i = #[trigger] o.active@[q] as int;
                        &&& self.out@[i]@ == match picks@[q] {
                            Some(t) => o.out@[i]@.push(t),
                            None => o.out@[i]@,
                        }
                        &&& self.tokens@[i] == match picks@[q] {
                            Some(t) => t,
                            None => o.tokens@[i],
                        }
                    },
                forall|i: int|
                    0 <= i < o.out@.len() && none_of(o.active@, r as int, i)
                        ==> (#[trigger] self.out@[i])@ == o.out@[i]@ && self.tokens@[i]
                        == o.tokens@[i],
                still@ == survivors(o.active@, picks@, o.depth@, o.g as nat, r as nat),
            decreases o.active@.len() - r,
        {
            let i: usize = self.active[r];
            proof {
                assert(o.drafting()[r as int] < o.size());
                assert forall|q: int| 0 <= q < r implies (#[trigger] o.active@[q]) != i by {
                    assert(o.drafting()[q] < o.drafting()[r as int]);
                }
                assert(none_of(o.active@, r as int, i as int));
                assert(self.out@[i as int]@ == o.out@[i as int]@);
                assert(o.drafts()[i as int] == o.out@[i as int]@);
            }
            let ghost before = *self;
            match picks[r] {
                Some(t) => {
                    self.out[i].push(t);
                    self.tokens[i] = t;
                    if self.out[i].len() < self.depth[i] {
                        still.push(i);
                    }
                },
                None => {},
            }
            proof {
                assert forall|q: int| 0 <= q < r + 1 implies {
                    let j = #[trigger] o.active@[q] as int;
                    &&& self.out@[j]@ == match picks@[q] {
                        Some(t) => o.out@[j]@.push(t),
                        None => o.out@[j]@,
                    }
                    &&& self.tokens@[j] == match picks@[q] {
                        Some(t) => t,
                        None => o.tokens@[j],
                    }
                } by {
                    if q < r {
                        assert(o.active@[q] != i);
                        assert(before.out@[o.active@[q] as int] == self.out@[o.active@[q] as int]);
                    }
                }
                assert forall|j: int|
                    0 <= j < o.out@.len() && none_of(o.active@, r + 1, j) implies (
                #[trigger] self.out@[j])@ == o.out@[j]@ && self.tokens@[j] == o.tokens@[j] by {
                    assert(o.active@[r as int] != j);
                    assert(none_of(o.active@, r as int, j));
                    assert(before.out@[j] == self.out@[j]);
                }
            }
            r = r + 1;
        }
        self.active = still;
        self.g = self.g + 1;
        proof {
            lemma_survivors(o.active@, picks@, o.depth@, o.g as nat, o.active@.len());
            assert forall|q: int| 0 <= q < self.active@.len() implies {
                let i = #[trigger] self.drafting()[q] as int;
                &&& i < self.size()
                &&& self.drafts()[i].len() == self.step_count()
                &&& self.step_count() < self.depths()[i]
            } by {
                let w = choose|w: int|
                    0 <= w < o.active@.len() && #[trigger] o.active@[w] == self.active@[q]
                        && picks@[w] is Some && o.g + 1 < o.depth@[o.active@[w] as int];
                assert(o.drafting()[w] < o.size());
                assert(o.drafts()[o.active@[w] as int].len() == o.step_count());
            }
            assert forall|i: int| 0 <= i < self.size() implies (
            #[trigger] self.drafts()[i]).len() <= self.depths()[i] by {
                assert(o.drafts()[i].len() <= o.depths()[i]);
                if exists|q: int| 0 <= q < o.active@.len() && #[trigger] o.active@[q] == i {
                    let q = choose|q: int|
                        0 <= q < o.active@.len() && #[trigger] o.active@[q] == i;
                    assert(o.drafting()[q] < o.size());
                } else {
                    assert(none_of(o.active@, o.active@.len() as int, i));
                    assert(self.out@[i]@ == o.out@[i]@);
                }
            }
            assert forall|q: int| 0 <= q < o.drafting().len() implies {
                let i = #[trigger] o.drafting()[q] as int;
                &&& self.drafts()[i] == match picks@[q] {
                    Some(t) => o.drafts()[i].push(t),
                    None => o.drafts()[i],
                }
                &&& self.embeds()[i] == match picks@[q] {
                    Some(t) => t,
                    None => o.embeds()[i],
                }
            } by {
                assert(o.active@[q] < o.size());
            }
            assert forall|i: int|
                0 <= i < o.size() && !o.drafting().contains(
                    i as usize,
                ) implies #[trigger] self.drafts()[i] == o.drafts()[i] && self.embeds()[i]
                == o.embeds()[i] by {
                assert forall|q: int| 0 <= q < o.active@.len() implies (
                #[trigger] o.active@[q]) != i by {
                    if o.active@[q] == i {
                        assert(o.drafting().contains(i as usize));
                    }
                }
                assert(none_of(o.active@, o.active@.len() as int, i));
                assert(self.out@[i]@ == o.out@[i]@);
            }
            assert(self.drafting() == survivors(
                o.drafting(),
                picks@,
                o.depths(),
                o.step_count(),
                o.drafting().len(),
            ));
            assert(self.size() == o.size());
            assert(o.stepped(picks@, *self));
        }
    }

    /// Each sequence's drafts.
    pub fn into_drafts(self) -> (out: Vec<Vec<i32>>)
        ensures
            out@.len() == self.size(),
            forall|i: int| 0 <= i < out@.len() ==> (#[trigger] out@[i])@ == self.drafts()[i],
    {
        self.out
    }
}

/// The survivors of a step are some of the sequences before it, in order: each
/// was proposed a token and has room for more.
pub proof fn lemma_survivors(
    active: Seq<usize>,
    picks: Seq<Option<i32>>,
    depth: Seq<usize>,
    g: nat,
    n: nat,
)
    requires
        n <= active.len(),
        forall|r: int, q: int| 0 <= r < q < active.len() ==> active[r] < active[q],
    ensures
        ({
            let s = survivors(active, picks, depth, g, n);
            &&& forall|q: int|
                0 <= q < s.len() ==> exists|w: int|
                    0 <= w < n && #[trigger] active[w] == #[trigger] s[q] && picks[w] is Some && g + 1
                        < depth[active[w] as int]
            &&& forall|r: int, q: int| 0 <= r < q < s.len() ==> s[r] < s[q]
            &&& forall|w: int|
                0 <= w < n && picks[w] is Some && g + 1 < depth[(#[trigger] active[w]) as int]
                    ==> s.contains(active[w])
        }),
    decreases n,
{
    if n > 0 {
        let m = (n - 1) as nat;
        lemma_survivors(active, picks, depth, g, m);
        let rest = survivors(active, picks, depth, g, m);
        let s = survivors(active, picks, depth, g, n);
        assert forall|q: int| 0 <= q < s.len() implies exists|w: int|
            0 <= w < n && #[trigger] active[w] == #[trigger] s[q] && picks[w] is Some && g + 1
                < depth[active[w] as int] by {
            if q < rest.len() {
                let w = choose|w: int|
                    0 <= w < m && #[trigger] active[w] == #[trigger] rest[q] && picks[w] is Some && g
                        + 1 < depth[active[w] as int];
                assert(active[w] == s[q]);
            } else {
                assert(active[m as int] == s[q]);
            }
        }
        assert forall|r: int, q: int| 0 <= r < q < s.len() implies s[r] < s[q] by {
            if q == rest.len() {
                let w = choose|w: int|
                    0 <= w < m && #[trigger] active[w] == #[trigger] rest[r] && picks[w] is Some && g
                        + 1 < depth[active[w] as int];
                assert(active[w] < active[m as int]);
            }
        }
        assert forall|w: int|
            0 <= w < n && picks[w] is Some && g + 1 < depth[(
            #[trigger] active[w]) as int] implies s.contains(active[w]) by {
            if w < m {
                assert(rest.contains(active[w]));
                let q = choose|q: int| 0 <= q < rest.len() && rest[q] == active[w];
                assert(s[q] == active[w]);
            } else {
                assert(s[s.len() - 1] == active[w]);
            }
        }
    }
}

/// Drafting for one sequence ends with what the head proposes, up to the depth:
/// each step leaves the eventual run unchanged.
pub proof fn lemma_head_draft_follows(
    pick: spec_fn(Seq<i32>) -> Option<i32>,
    before: HeadDraft,
    after: HeadDraft,
)
    requires
        !before.done(),
        after.wanted() == before.wanted(),
        after.ended() == (pick(before.drafts()) is None),
        pick(before.drafts()) is None ==> after.drafts() == before.drafts(),
        pick(before.drafts()) is Some ==> after.drafts() == before.drafts().push(
            pick(before.drafts())->0,
        ),
    ensures
        drafted_from(pick, after.wanted(), after.drafts()) == drafted_from(
            pick,
            before.wanted(),
            before.drafts(),
        ),
        after.done() ==> after.drafts() == drafted_from(pick, before.wanted(), before.drafts()),
{
    reveal_with_fuel(drafted_from, 2);
}

/// Every sequence's proposals in a step are what its own head proposes.
pub open spec fn proposals(
    pick: spec_fn(int, Seq<i32>) -> Option<i32>,
    batch: BatchDraft,
    picks: Seq<Option<i32>>,
) -> bool {
    &&& picks.len() == batch.drafting().len()
    &&& forall|r: int|
        0 <= r < picks.len() ==> #[trigger] picks[r] == pick(
            batch.drafting()[r] as int,
            batch.drafts()[batch.drafting()[r] as int],
        )
}

/// Where each sequence will end up, given what it has drafted so far.
pub open spec fn ends_at(
    pick: spec_fn(int, Seq<i32>) -> Option<i32>,
    batch: BatchDraft,
    i: int,
) -> Seq<i32> {
    if batch.drafting().contains(i as usize) {
        drafted_from(|out: Seq<i32>| pick(i, out), batch.depths()[i] as nat, batch.drafts()[i])
    } else {
        batch.drafts()[i]
    }
}

/// Batching changes which rows share a forward, never what is drafted: after
/// every step each sequence is still headed for the run it would draft alone.
/// So when the batch is done, each has exactly that run.
pub proof fn lemma_batch_drafts_as_alone(
    pick: spec_fn(int, Seq<i32>) -> Option<i32>,
    before: BatchDraft,
    picks: Seq<Option<i32>>,
    after: BatchDraft,
    i: int,
)
    requires
        before.wf(),
        before.size() <= usize::MAX,
        before.stepped(picks, after),
        proposals(pick, before, picks),
        0 <= i < before.size(),
    ensures
        ends_at(pick, after, i) == ends_at(pick, before, i),
{
    let active = before.drafting();
    lemma_survivors(active, picks, before.depths(), before.step_count(), active.len());
    let p = |out: Seq<i32>| pick(i, out);
    reveal_with_fuel(drafted_from, 2);
    if active.contains(i as usize) {
        let r = choose|r: int| 0 <= r < active.len() && active[r] == i as usize;
        assert(active[r] == i);
        assert(picks[r] == pick(i, before.drafts()[i]));
        assert(p(before.drafts()[i]) == picks[r]);
        let d = before.depths()[i] as nat;
        assert(before.drafts()[i].len() == before.step_count());
        assert(ends_at(pick, before, i) == drafted_from(p, d, before.drafts()[i]));
        match picks[r] {
            Some(t) => {
                assert(after.drafts()[i] == before.drafts()[i].push(t));
                if before.step_count() + 1 < d {
                    assert(after.drafting().contains(active[r]));
                    assert(ends_at(pick, after, i) == drafted_from(p, d, after.drafts()[i]));
                } else {
                    if after.drafting().contains(i as usize) {
                        let q = choose|q: int|
                            0 <= q < after.drafting().len() && after.drafting()[q] == i as usize;
                        let w = choose|w: int|
                            0 <= w < active.len() && #[trigger] active[w]
                                == #[trigger] after.drafting()[q] && picks[w] is Some
                                && before.step_count() + 1 < before.depths()[active[w] as int];
                        assert(false);
                    }
                }
            },
            None => {
                if after.drafting().contains(i as usize) {
                    let q = choose|q: int|
                        0 <= q < after.drafting().len() && after.drafting()[q] == i as usize;
                    let w = choose|w: int|
                        0 <= w < active.len() && #[trigger] active[w]
                            == #[trigger] after.drafting()[q] && picks[w] is Some
                            && before.step_count() + 1 < before.depths()[active[w] as int];
                    if w < r {
                        assert(active[w] < active[r]);
                    }
                    if r < w {
                        assert(active[r] < active[w]);
                    }
                    assert(false);
                }
            },
        }
    } else {
        if after.drafting().contains(i as usize) {
            let q = choose|q: int|
                0 <= q < after.drafting().len() && after.drafting()[q] == i as usize;
            let w = choose|w: int|
                0 <= w < active.len() && #[trigger] active[w] == #[trigger] after.drafting()[q]
                    && picks[w] is Some && before.step_count() + 1
                    < before.depths()[active[w] as int];
            assert(active.contains(i as usize));
        }
    }
}

/// What accepting drafts against a sampled target asks of its caller.
#[derive(Clone, Copy, Debug, PartialEq, Eq, Structural)]
pub enum SampledAsk {
    /// Draw against row and draft `k`, which proposes this token.
    Judge {
        /// The row and the draft.
        k: usize,
        /// The drafted token.
        drafted: usize,
    },
    /// Sample this row as if nothing had been drafted.
    Sample {
        /// The row.
        row: usize,
    },
    /// No row is left to sample.
    NoRow,
    /// The run ended with the token that replaced a draft.
    Ended {
        /// That token.
        token: usize,
    },
}

/// Draft `k` can be held against a distribution: there is a row for it, the
/// distribution it was drawn from is known, and the token lies in both.
pub open spec fn scorable(
    drafts: Seq<i32>,
    n_rows: int,
    q_lens: Seq<usize>,
    vocab: int,
    k: int,
) -> bool {
    &&& 0 <= k < drafts.len()
    &&& k < n_rows
    &&& k < q_lens.len()
    &&& 0 <= drafts[k] < vocab
    &&& drafts[k] < q_lens[k]
}

/// Accepting drafts against a sampled target.
pub struct SampledRun {
    k: usize,
    replaced: Option<usize>,
}

impl SampledRun {
    /// Drafts accepted.
    pub closed spec fn count(&self) -> nat {
        self.k as nat
    }

    /// The token that replaced a rejected draft.
    pub closed spec fn replacement(&self) -> Option<usize> {
        self.replaced
    }

    /// Nothing judged yet.
    pub fn new() -> (r: SampledRun)
        ensures
            r.count() == 0,
            r.replacement() is None,
    {
        SampledRun { k: 0, replaced: None }
    }

    /// What to do next. A draft without a row or a distribution, or outside the
    /// vocabulary, is a fault and not a rejection: the run stops there and the
    /// row is sampled as it would be without drafts.
    pub fn ask(&self, drafts: &[i32], n_rows: usize, q_lens: &[usize], vocab: usize) -> (a: SampledAsk)
        ensures
            a == match self.replacement() {
                Some(token) => SampledAsk::Ended { token },
                None => if scorable(
                    drafts@,
                    n_rows as int,
                    q_lens@,
                    vocab as int,
                    self.count() as int,
                ) {
                    SampledAsk::Judge {
                        k: self.count() as usize,
                        drafted: drafts@[self.count() as int] as usize,
                    }
                } else if self.count() < n_rows {
                    SampledAsk::Sample { row: self.count() as usize }
                } else {
                    SampledAsk::NoRow
                },
            },
    {
        match self.replaced {
            Some(token) => {
                return SampledAsk::Ended { token };
            },
            None => {},
        }
        let k: usize = self.k;
        if k < drafts.len() && k < n_rows && k < q_lens.len() && drafts[k] >= 0 {
            let drafted: usize = drafts[k] as usize;
            if drafted < vocab && drafted < q_lens[k] {
                return SampledAsk::Judge { k, drafted };
            }
        }
        if k < n_rows {
            SampledAsk::Sample { row: k }
        } else {
            SampledAsk::NoRow
        }
    }

    /// Takes the token that was drawn for a judged draft: the draft itself, or
    /// the token that replaces it and ends the run.
    pub fn heard(&mut self, drafted: usize, emitted: usize)
        requires
            old(self).replacement() is None,
            old(self).count() < usize::MAX,
        ensures
            emitted == drafted ==> final(self).count() == old(self).count() + 1 && final(self).replacement() is None,
            emitted != drafted ==> final(self).count() == old(self).count() && final(self).replacement() == Some(emitted),
    {
        if emitted == drafted {
            self.k = self.k + 1;
        } else {
            self.replaced = Some(emitted);
        }
    }

    /// Drafts accepted.
    pub fn accepted(&self) -> (n: usize)
        ensures
            n == self.count(),
    {
        self.k
    }
}

/// What is drafted keeps what was there, each further token is what the head
/// proposes after those before it, and drafting stops only at the depth or where
/// the head proposes nothing.
pub proof fn lemma_drafted_run_is_longest(
    pick: spec_fn(Seq<i32>) -> Option<i32>,
    depth: nat,
    out: Seq<i32>,
)
    requires
        out.len() <= depth,
    ensures
        ({
            let run = drafted_from(pick, depth, out);
            &&& out.is_prefix_of(run)
            &&& run.len() <= depth
            &&& forall|i: int|
                out.len() <= i < run.len() ==> pick(#[trigger] run.take(i)) == Some(run[i])
            &&& run.len() < depth ==> pick(run) is None
        }),
    decreases depth - out.len(),
{
    let run = drafted_from(pick, depth, out);
    if out.len() < depth {
        match pick(out) {
            None => {},
            Some(t) => {
                lemma_drafted_run_is_longest(pick, depth, out.push(t));
                assert(run[out.len() as int] == out.push(t)[out.len() as int]);
                assert(run.take(out.len() as int) =~= out);
                assert(out.is_prefix_of(run));
            },
        }
    }
}

} // verus!
