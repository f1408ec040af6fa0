//! A scoreboard for expert predictors: each offers ranked candidates for a layer
//! before it routes, and is scored against what the layer routed.
//!
//! One arm is a control, uniform noise with a fixed seed. Whatever it scores is
//! what guessing gives for free, and another arm's score means something only
//! as a margin over it.

use std::collections::HashMap;
use vstd::prelude::*;

use crate::text;

verus! {

/// Name of the control arm.
pub const CONTROL_ARM: &'static str = "control/noise";

/// One step of the control's generator.
pub open spec fn mixed(z: u64) -> u64 {
    let a = (z ^ (z >> 30u64)).wrapping_mul(0xBF58_476D_1CE4_E5B9);
    let b = (a ^ (a >> 27u64)).wrapping_mul(0x94D0_49BB_1331_11EB);
    b ^ (b >> 31u64)
}

/// Where the generator starts for a layer and a token.
pub open spec fn seed(layer: usize, token: u64) -> u64 {
    (layer as u64).wrapping_mul(0x9E37_79B9_7F4A_7C15).wrapping_add(
        token.wrapping_mul(0xBF58_476D_1CE4_E5B9),
    )
}

/// The expert one draw names.
pub open spec fn drawn(z: u64, n_experts: u64) -> i32 {
    (mixed(z) % n_experts) as i32
}

/// The control's candidates after `out`: draws until `want` different ones are
/// found or `tries` are spent.
pub open spec fn control_from(z: u64, n_experts: u64, want: nat, tries: nat, out: Seq<i32>) -> Seq<
    i32,
>
    decreases tries,
{
    if out.len() >= want || tries == 0 {
        out
    } else {
        let y = z.wrapping_add(0x9E37_79B9_7F4A_7C15);
        let e = drawn(y, n_experts);
        control_from(
            y,
            n_experts,
            want,
            (tries - 1) as nat,
            if out.contains(e) {
                out
            } else {
                out.push(e)
            },
        )
    }
}

fn holds(v: &[i32], e: i32) -> (b: bool)
    ensures
        b == v@.contains(e),
{
    let mut i: usize = 0;
    while i < v.len()
        invariant
            i <= v@.len(),
            forall|j: int| 0 <= j < i ==> v@[j] != e,
        decreases v@.len() - i,
    {
        if v[i] == e {
            return true;
        }
        i = i + 1;
    }
    false
}

/// The control's candidates for a layer and a token.
pub open spec fn control_of(width: usize, n_experts: usize, layer: usize, token: u64) -> Seq<i32> {
    if n_experts == 0 || width == 0 {
        Seq::empty()
    } else {
        control_from(
            seed(layer, token),
            n_experts as u64,
            if width < n_experts {
                width as nat
            } else {
                n_experts as nat
            },
            (width * 16 + 64) as nat,
            Seq::empty(),
        )
    }
}

/// Uniform-random candidates for the control arm, as many as the other arms
/// offer. Determined by the layer and the token: a control that varied from run
/// to run could be rerolled until the others won.
pub fn control_candidates(width: usize, n_experts: usize, layer: usize, token: u64) -> (out: Vec<i32>)
    requires
        width * 16 + 64 <= usize::MAX,
    ensures
        out@ == control_of(width, n_experts, layer, token),
{
    let mut out: Vec<i32> = Vec::new();
    if n_experts == 0 || width == 0 {
        return out;
    }
    let mut z: u64 = (layer as u64).wrapping_mul(0x9E37_79B9_7F4A_7C15).wrapping_add(
        token.wrapping_mul(0xBF58_476D_1CE4_E5B9),
    );
    let n: u64 = n_experts as u64;
    let want: usize = if width < n_experts {
        width
    } else {
        n_experts
    };
    let mut tries: usize = width * 16 + 64;
    let ghost whole = control_from(z, n, want as nat, tries as nat, Seq::empty());
    while out.len() < want && tries > 0
        invariant
            n > 0,
            whole == control_from(z, n, want as nat, tries as nat, out@),
        decreases tries,
    {
        z = z.wrapping_add(0x9E37_79B9_7F4A_7C15);
        let a: u64 = (z ^ (z >> 30u64)).wrapping_mul(0xBF58_476D_1CE4_E5B9);
        let b: u64 = (a ^ (a >> 27u64)).wrapping_mul(0x94D0_49BB_1331_11EB);
        let x: u64 = b ^ (b >> 31u64);
        let e: i32 = (#[verifier::truncate] ((x % n) as i32));
        assert(e == drawn(z, n));
        if !holds(out.as_slice(), e) {
            out.push(e);
        }
        tries = tries - 1;
    }
    out
}

/// The control offers no expert twice, none that is not there, and no more than
/// were asked for: a repeated one would understate what guessing gives.
pub proof fn lemma_control_is_distinct(
    z: u64,
    n_experts: u64,
    want: nat,
    tries: nat,
    out: Seq<i32>,
)
    requires
        0 < n_experts <= 0x8000_0000,
        out.no_duplicates(),
        out.len() <= want,
        forall|i: int| 0 <= i < out.len() ==> 0 <= #[trigger] out[i] < n_experts,
    ensures
        ({
            let all = control_from(z, n_experts, want, tries, out);
            &&& all.no_duplicates()
            &&& all.len() <= want
            &&& forall|i: int| 0 <= i < all.len() ==> 0 <= #[trigger] all[i] < n_experts
        }),
    decreases tries,
{
    if !(out.len() >= want || tries == 0) {
        let y = z.wrapping_add(0x9E37_79B9_7F4A_7C15);
        let m = mixed(y);
        let e = drawn(y, n_experts);
        assert(0 <= m % n_experts < n_experts);
        let r = m % n_experts;
        assert(0 <= r as i32 && r as i32 == r) by (bit_vector)
            requires
                r < 0x8000_0000u64,
        ;
        let next = if out.contains(e) {
            out
        } else {
            out.push(e)
        };
        lemma_control_is_distinct(y, n_experts, want, (tries - 1) as nat, next);
    }
}

/// One predictor's running score.
pub struct Arm {
    name: String,
    rank_hit: Vec<u64>,
    rank_n: Vec<u64>,
    covered: u64,
    actual: u64,
    asked: u64,
    silent: u64,
}

/// A score as plain values.
#[verifier::ext_equal]
pub struct Tally {
    /// Times the candidate at each rank was routed.
    pub rank_hit: Seq<u64>,
    /// Times a candidate was offered at each rank.
    pub rank_n: Seq<u64>,
    /// Different routed experts the offers covered, summed over layers.
    pub covered: int,
    /// Routed experts, summed over layers.
    pub actual: int,
    /// Layers the arm was asked about.
    pub asked: int,
    /// Layers for which it offered nothing.
    pub silent: int,
}

/// How many of a layer's routed experts the first `width` candidates cover, each
/// counted once.
pub open spec fn coverage(pred: Seq<i32>, actual: Seq<i32>, width: nat) -> nat {
    let offer = if pred.len() < width {
        pred
    } else {
        pred.take(width as int)
    };
    offer.to_set().intersect(actual.to_set()).len()
}

/// `t` after scoring the candidates `pred` against the routed set `actual`.
pub open spec fn scored_tally(t: Tally, pred: Seq<i32>, actual: Seq<i32>) -> Tally {
    let width = t.rank_n.len();
    Tally {
        rank_hit: Seq::new(
            width,
            |r: int|
                if r < pred.len() && actual.contains(pred[r]) {
                    (t.rank_hit[r] + 1) as u64
                } else {
                    t.rank_hit[r]
                },
        ),
        rank_n: Seq::new(
            width,
            |r: int|
                if r < pred.len() {
                    (t.rank_n[r] + 1) as u64
                } else {
                    t.rank_n[r]
                },
        ),
        covered: t.covered + coverage(pred, actual, width),
        actual: t.actual + actual.len(),
        asked: t.asked + 1,
        silent: t.silent + if pred.len() == 0 {
            1int
        } else {
            0
        },
    }
}

/// A score nothing has entered yet.
pub open spec fn blank_tally(width: nat) -> Tally {
    Tally {
        rank_hit: Seq::new(width, |r: int| 0u64),
        rank_n: Seq::new(width, |r: int| 0u64),
        covered: 0,
        actual: 0,
        asked: 0,
        silent: 0,
    }
}

/// A score that adds up: nothing was hit that was not offered; a rank was offered
/// at most as often as the rank before it and as the arm spoke at all, and the
/// first rank exactly that often; no more was covered than was routed.
pub open spec fn sound_tally(t: Tally) -> bool {
    &&& t.rank_hit.len() == t.rank_n.len()
    &&& 0 <= t.covered <= t.actual
    &&& 0 <= t.silent <= t.asked
    &&& t.rank_n.len() > 0 ==> t.rank_n[0] == t.asked - t.silent
    &&& forall|r: int| 0 <= r < t.rank_n.len() ==> #[trigger] t.rank_n[r] <= t.asked - t.silent
    &&& forall|q: int, r: int|
        0 <= q <= r < t.rank_n.len() ==> #[trigger] t.rank_n[r] <= #[trigger] t.rank_n[q]
    &&& forall|r: int| 0 <= r < t.rank_hit.len() ==> #[trigger] t.rank_hit[r] <= t.rank_n[r]
}

/// Scoring a layer keeps a score adding up, whatever was offered and routed, as
/// long as the number of layers can still be counted.
pub proof fn lemma_scoring_keeps_tally_sound(t: Tally, pred: Seq<i32>, actual: Seq<i32>)
    requires
        sound_tally(t),
        t.asked < u64::MAX,
    ensures
        sound_tally(scored_tally(t, pred, actual)),
{
    lemma_coverage_at_most_actual(pred, actual, t.rank_n.len());
    let u = scored_tally(t, pred, actual);
    assert forall|r: int| 0 <= r < u.rank_n.len() implies {
        &&& #[trigger] u.rank_n[r] <= u.asked - u.silent
        &&& u.rank_hit[r] <= u.rank_n[r]
        &&& u.rank_n[r] == t.rank_n[r] + if r < pred.len() {
            1int
        } else {
            0
        }
    } by {
        assert(t.rank_n[r] <= t.asked - t.silent);
        assert(t.rank_hit[r] <= t.rank_n[r]);
    }
    assert forall|q: int, r: int| 0 <= q <= r < u.rank_n.len() implies #[trigger] u.rank_n[r]
        <= #[trigger] u.rank_n[q] by {
        assert(t.rank_n[r] <= t.rank_n[q]);
    }
    assert forall|r: int| 0 <= r < u.rank_hit.len() implies #[trigger] u.rank_hit[r]
        <= u.rank_n[r] by {
        assert(u.rank_n[r] <= u.asked - u.silent);
    }
}

/// The first `width` candidates cover no more experts than were routed.
pub proof fn lemma_coverage_at_most_actual(pred: Seq<i32>, actual: Seq<i32>, width: nat)
    ensures
        coverage(pred, actual, width) <= actual.len(),
{
    let offer = if pred.len() < width {
        pred
    } else {
        pred.take(width as int)
    };
    vstd::seq_lib::seq_to_set_is_finite(offer);
    vstd::seq_lib::seq_to_set_is_finite(actual);
    actual.lemma_cardinality_of_set();
    vstd::set_lib::lemma_len_subset(
        offer.to_set().intersect(actual.to_set()),
        actual.to_set(),
    );
}

impl Arm {
    /// The score as plain values.
    pub closed spec fn tally(&self) -> Tally {
        Tally {
            rank_hit: self.rank_hit@,
            rank_n: self.rank_n@,
            covered: self.covered as int,
            actual: self.actual as int,
            asked: self.asked as int,
            silent: self.silent as int,
        }
    }

    /// The predictor's name.
    pub closed spec fn called(&self) -> Seq<char> {
        self.name@
    }

    /// The score adds up.
    pub open spec fn sound(&self) -> bool {
        sound_tally(self.tally())
    }

    fn new(name: &str, width: usize) -> (a: Arm)
        ensures
            a.sound(),
            a.called() == name@,
            a.tally() == blank_tally(width as nat),
    {
        let rank_hit = zeros(width);
        let rank_n = zeros(width);
        Arm {
            name: name.to_owned(),
            rank_hit,
            rank_n,
            covered: 0,
            actual: 0,
            asked: 0,
            silent: 0,
        }
    }

    /// Scores one layer's candidates.
    fn score(&mut self, pred: &Vec<i32>, actual: &[i32])
        requires
            old(self).sound(),
            old(self).tally().asked < u64::MAX,
            old(self).tally().actual + actual@.len() <= u64::MAX,
        ensures
            final(self).sound(),
            final(self).called() == old(self).called(),
            final(self).tally() == scored_tally(old(self).tally(), pred@, actual@),
    {
        let ghost o = *self;
        let width: usize = self.rank_n.len();
        proof {
            lemma_coverage_at_most_actual(pred@, actual@, width as nat);
        }
        self.asked = self.asked + 1;
        self.actual = self.actual + actual.len() as u64;
        if pred.len() == 0 {
            self.silent = self.silent + 1;
            proof {
                assert(pred@.to_set() =~= Set::empty());
                assert(pred@.to_set().intersect(actual@.to_set()) =~= Set::empty());
                if width == 0 {
                    assert(pred@.take(0) =~= pred@);
                }
                assert(self.tally() =~= scored_tally(o.tally(), pred@, actual@));
                lemma_scoring_keeps_tally_sound(o.tally(), pred@, actual@);
            }
            return ;
        }
        let n: usize = if pred.len() < width {
            pred.len()
        } else {
            width
        };
        let mut covered: u64 = 0;
        let mut rank: usize = 0;
        proof {
            assert(pred@.take(0).to_set() =~= Set::empty());
            assert(pred@.take(0).to_set().intersect(actual@.to_set()) =~= Set::empty());
        }
        while rank < n
            invariant
                n <= width,
                n <= pred@.len(),
                rank <= n,
                o.sound(),
                o.tally().asked < u64::MAX,
                width == o.rank_n@.len(),
                self.rank_n@.len() == width,
                self.rank_hit@.len() == width,
                self.name == o.name,
                self.covered == o.covered,
                self.actual == o.actual + actual@.len(),
                self.asked == o.asked + 1,
                self.silent == o.silent,
                covered == pred@.take(rank as int).to_set().intersect(actual@.to_set()).len(),
                covered <= actual@.len(),
                pred@.take(rank as int).to_set().finite(),
                forall|r: int|
                    0 <= r < width ==> #[trigger] self.rank_n@[r] == if r < rank {
                        (o.rank_n@[r] + 1) as u64
                    } else {
                        o.rank_n@[r]
                    },
                forall|r: int|
                    0 <= r < width ==> #[trigger] self.rank_hit@[r] == if r < rank
                        && actual@.contains(pred@[r]) {
                        (o.rank_hit@[r] + 1) as u64
                    } else {
                        o.rank_hit@[r]
                    },
            decreases n - rank,
        {
            let e: i32 = pred[rank];
            proof {
                assert(o.tally().rank_n[rank as int] <= o.tally().asked - o.tally().silent);
                assert(o.tally().rank_hit[rank as int] <= o.tally().rank_n[rank as int]);
                lemma_offer_grows(pred@, actual@, rank as int);
                lemma_coverage_at_most_actual(pred@, actual@, (rank + 1) as nat);
                if pred@.len() == rank + 1 {
                    assert(pred@.take(rank + 1) =~= pred@);
                }
            }
            let seen: bool = repeats(pred, rank);
            let c: u64 = self.rank_n[rank] + 1;
            self.rank_n[rank] = c;
            if holds(actual, e) {
                let h: u64 = self.rank_hit[rank] + 1;
                self.rank_hit[rank] = h;
                if !seen {
                    covered = covered + 1;
                }
            }
            rank = rank + 1;
        }
        proof {
            if pred@.len() < width {
                assert(pred@.take(n as int) =~= pred@);
            }
            assert(covered == coverage(pred@, actual@, width as nat));
        }
        self.covered = self.covered + covered;
        proof {
            assert(self.rank_n@ =~= scored_tally(o.tally(), pred@, actual@).rank_n);
            assert(self.rank_hit@ =~= scored_tally(o.tally(), pred@, actual@).rank_hit);
            assert(self.tally() =~= scored_tally(o.tally(), pred@, actual@));
            lemma_scoring_keeps_tally_sound(o.tally(), pred@, actual@);
        }
    }
}

/// Whether the candidate at `rank` was offered at an earlier rank.
fn repeats(pred: &Vec<i32>, rank: usize) -> (b: bool)
    requires
        rank < pred@.len(),
    ensures
        b == pred@.take(rank as int).contains(pred@[rank as int]),
{
    let mut i: usize = 0;
    while i < rank
        invariant
            i <= rank < pred@.len(),
            forall|j: int| 0 <= j < i ==> pred@[j] != pred@[rank as int],
        decreases rank - i,
    {
        if pred[i] == pred[rank] {
            assert(pred@.take(rank as int)[i as int] == pred@[rank as int]);
            return true;
        }
        i = i + 1;
    }
    false
}

/// One more candidate adds one to the coverage where it was routed and is new.
proof fn lemma_offer_grows(pred: Seq<i32>, actual: Seq<i32>, rank: int)
    requires
        0 <= rank < pred.len(),
    ensures
        pred.take(rank + 1).to_set().finite(),
        pred.take(rank + 1).to_set().intersect(actual.to_set()).len() == pred.take(
            rank,
        ).to_set().intersect(actual.to_set()).len() + if actual.contains(pred[rank])
            && !pred.take(rank).contains(pred[rank]) {
            1int
        } else {
            0
        },
{
    let a = pred.take(rank);
    let b = pred.take(rank + 1);
    let e = pred[rank];
    vstd::seq_lib::seq_to_set_is_finite(a);
    vstd::seq_lib::seq_to_set_is_finite(b);
    assert(b =~= a.push(e));
    assert(b.to_set() =~= a.to_set().insert(e)) by {
        broadcast use vstd::seq_lib::group_seq_properties;
    }
    let x = a.to_set().intersect(actual.to_set());
    if actual.contains(e) {
        assert(b.to_set().intersect(actual.to_set()) =~= x.insert(e));
    } else {
        assert(b.to_set().intersect(actual.to_set()) =~= x);
    }
}

fn zeros(n: usize) -> (v: Vec<u64>)
    ensures
        v@ == Seq::new(n as nat, |i: int| 0u64),
{
    let mut v: Vec<u64> = Vec::new();
    let mut i: usize = 0;
    while i < n
        invariant
            i <= n,
            v@ == Seq::new(i as nat, |j: int| 0u64),
        decreases n - i,
    {
        v.push(0);
        i = i + 1;
        assert(v@ =~= Seq::new(i as nat, |j: int| 0u64));
    }
    v
}

/// Candidate lists as sequences.
pub open spec fn lists(v: Seq<Vec<i32>>) -> Seq<Seq<i32>> {
    Seq::new(v.len(), |i: int| v[i]@)
}

/// Scores several predictors against what each layer routed.
pub struct PredictEval {
    width: usize,
    arms: Vec<Arm>,
    pending: HashMap<usize, Vec<Vec<i32>>>,
    scored_layers: u64,
}

impl PredictEval {
    /// Candidates scored per arm.
    pub closed spec fn scored_width(&self) -> usize {
        self.width
    }

    /// The arms, in the order given.
    pub closed spec fn board(&self) -> Seq<Arm> {
        self.arms@
    }

    /// Layers with candidates that were not scored yet.
    pub closed spec fn waiting(&self) -> Set<usize> {
        self.pending@.dom()
    }

    /// The candidates waiting for a layer, one list per arm.
    pub closed spec fn offers(&self, layer: usize) -> Seq<Seq<i32>> {
        lists(self.pending@[layer]@)
    }

    /// Layers scored.
    pub closed spec fn count(&self) -> u64 {
        self.scored_layers
    }

    /// Every arm is sound, was asked about every scored layer, and was scored
    /// against the same routed experts; waiting candidates are one list per arm.
    pub open spec fn wf(&self) -> bool {
        &&& forall|a: int|
            0 <= a < self.board().len() ==> {
                let t = (#[trigger] self.board()[a]).tally();
                &&& self.board()[a].sound()
                &&& t.rank_n.len() == self.scored_width()
                &&& t.asked == self.count()
                &&& t.actual == self.board()[0].tally().actual
            }
        &&& forall|l: usize| #[trigger] self.waiting().contains(l) ==> self.offers(l).len()
            == self.board().len()
    }

    /// A scoreboard of `width` candidates per arm, with one arm per name.
    pub fn new(width: usize, names: &[&str]) -> (ev: PredictEval)
        ensures
            ev.wf(),
            ev.scored_width() == width,
            ev.board().len() == names@.len(),
            forall|a: int|
                0 <= a < names@.len() ==> {
                    &&& (#[trigger] ev.board()[a]).called() == names@[a]@
                    &&& ev.board()[a].tally() == blank_tally(width as nat)
                },
            ev.waiting() == Set::<usize>::empty(),
            ev.count() == 0,
    {
        broadcast use vstd::std_specs::hash::group_hash_axioms;

        let mut arms: Vec<Arm> = Vec::new();
        let mut i: usize = 0;
        while i < names.len()
            invariant
                i <= names@.len(),
                arms@.len() == i,
                forall|a: int|
                    0 <= a < i ==> {
                        &&& (#[trigger] arms@[a]).sound()
                        &&& arms@[a].called() == names@[a]@
                        &&& arms@[a].tally() == blank_tally(width as nat)
                    },
            decreases names@.len() - i,
        {
            arms.push(Arm::new(names[i], width));
            i = i + 1;
        }
        let pending: HashMap<usize, Vec<Vec<i32>>> = HashMap::new();
        let ev = PredictEval { width, arms, pending, scored_layers: 0 };
        assert(ev.waiting() =~= Set::empty());
        ev
    }

    /// Candidates scored per arm.
    pub fn width(&self) -> (w: usize)
        ensures
            w == self.scored_width(),
    {
        self.width
    }

    /// Number of arms.
    pub fn arms(&self) -> (n: usize)
        ensures
            n == self.board().len(),
    {
        self.arms.len()
    }

    /// Layers scored so far, which also seeds the control arm.
    pub fn scored(&self) -> (n: u64)
        ensures
            n == self.count(),
    {
        self.scored_layers
    }

    /// Layers scored so far.
    pub fn scored_layers(&self) -> (n: u64)
        ensures
            n == self.count(),
    {
        self.scored_layers
    }

    /// Records each arm's ranked candidates for `layer`, in the arms' order. A
    /// list of another length is dropped: it would credit one predictor with
    /// another's candidates. Newer candidates replace unscored ones.
    pub fn stash(&mut self, layer: usize, per_arm: Vec<Vec<i32>>)
        requires
            old(self).wf(),
        ensures
            final(self).wf(),
            stashed(*old(self), layer, lists(per_arm@), *final(self)),
    {
        broadcast use vstd::std_specs::hash::group_hash_axioms;

        if per_arm.len() != self.arms.len() {
            return ;
        }
        let ghost given = lists(per_arm@);
        self.pending.insert(layer, per_arm);
        proof {
            assert(self.waiting() =~= old(self).waiting().insert(layer));
            assert(self.offers(layer) == given);
            assert(stashed(*old(self), layer, given, *self));
            lemma_call_keeps_wf(*old(self), EvalCall::Stash(layer, given), *self);
        }
    }

    /// What scoring a layer leaves of each arm.
    pub open spec fn scored_arms(&self, layer: usize, actual: Seq<i32>, after: Seq<Arm>) -> bool {
        &&& after.len() == self.board().len()
        &&& forall|a: int|
            0 <= a < after.len() ==> {
                &&& (#[trigger] after[a]).called() == self.board()[a].called()
                &&& after[a].tally() == scored_tally(
                    self.board()[a].tally(),
                    self.offers(layer)[a],
                    actual,
                )
            }
    }

    /// Scores every arm's candidates for `layer` against what it routed. A layer
    /// without candidates is skipped; so is one that routed nothing, and its
    /// candidates are dropped.
    pub fn score(&mut self, layer: usize, actual: &[i32])
        requires
            old(self).wf(),
            score_fits(*old(self), layer, actual@),
        ensures
            final(self).wf(),
            scored(*old(self), layer, actual@, *final(self)),
    {
        broadcast use vstd::std_specs::hash::group_hash_axioms;

        let ghost o = *self;
        let per_arm: Vec<Vec<i32>> = match self.pending.remove(&layer) {
            Some(p) => p,
            None => {
                assert(self.pending@ =~= o.pending@.remove(layer));
                assert(self.waiting() =~= o.waiting().remove(layer));
                return ;
            },
        };
        proof {
            assert(self.pending@ == o.pending@.remove(layer));
            assert(self.waiting() =~= o.waiting().remove(layer));
            assert(o.waiting().contains(layer));
            assert(o.offers(layer) == lists(per_arm@));
            assert forall|l: usize| self.waiting().contains(l) implies #[trigger] self.offers(l)
                == o.offers(l) by {
                assert(self.pending@[l] == o.pending@[l]);
            }
        }
        if actual.len() == 0 {
            return ;
        }
        self.scored_layers = self.scored_layers + 1;
        let ghost arms0 = self.arms@;
        let mut a: usize = 0;
        while a < self.arms.len()
            invariant
                o.wf(),
                o.count() < u64::MAX,
                o.board().len() > 0 ==> o.board()[0].tally().actual + actual@.len() <= u64::MAX,
                arms0 == o.arms@,
                self.width == o.width,
                self.pending@ == o.pending@.remove(layer),
                self.scored_layers == o.scored_layers + 1,
                self.arms@.len() == arms0.len(),
                per_arm@.len() == arms0.len(),
                o.offers(layer) == lists(per_arm@),
                a <= arms0.len(),
                forall|b: int| a <= b < arms0.len() ==> (#[trigger] self.arms@[b]) == arms0[b],
                forall|b: int|
                    0 <= b < a ==> {
                        &&& (#[trigger] self.arms@[b]).sound()
                        &&& self.arms@[b].called() == arms0[b].called()
                        &&& self.arms@[b].tally() == scored_tally(
                            arms0[b].tally(),
                            per_arm@[b]@,
                            actual@,
                        )
                    },
            decreases arms0.len() - a,
        {
            assert(self.arms@[a as int] == arms0[a as int]);
            assert(o.board()[a as int].sound());
            assert(o.board()[a as int].tally().asked == o.count());
            assert(o.board()[a as int].tally().actual == o.board()[0].tally().actual);
            self.arms[a].score(&per_arm[a], actual);
            a = a + 1;
        }
        proof {
            assert forall|b: int| 0 <= b < self.board().len() implies {
                let t = (#[trigger] self.board()[b]).tally();
                &&& self.board()[b].sound()
                &&& t.rank_n.len() == self.scored_width()
                &&& t.asked == self.count()
                &&& t.actual == self.board()[0].tally().actual
            } by {
                assert(o.board()[b].tally().asked == o.count());
                assert(o.board()[b].tally().actual == o.board()[0].tally().actual);
                assert(self.arms@[0].tally() == scored_tally(
                    arms0[0].tally(),
                    per_arm@[0]@,
                    actual@,
                ));
            }
        }
    }
}

/// `b` is `a` after recording the candidates `per_arm` for `layer`: dropped where
/// they are not one list per arm, else in place of what was waiting there.
pub open spec fn stashed(
    a: PredictEval,
    layer: usize,
    per_arm: Seq<Seq<i32>>,
    b: PredictEval,
) -> bool {
    &&& b.scored_width() == a.scored_width()
    &&& b.board() == a.board()
    &&& b.count() == a.count()
    &&& per_arm.len() != a.board().len() ==> b.waiting() == a.waiting() && forall|l: usize|
        a.waiting().contains(l) ==> #[trigger] b.offers(l) == a.offers(l)
    &&& per_arm.len() == a.board().len() ==> {
        &&& b.waiting() == a.waiting().insert(layer)
        &&& b.offers(layer) == per_arm
        &&& forall|l: usize|
            l != layer && a.waiting().contains(l) ==> #[trigger] b.offers(l) == a.offers(l)
    }
}

/// Scoring `layer` against `actual` counts: candidates wait for it and something
/// was routed.
pub open spec fn counts(a: PredictEval, layer: usize, actual: Seq<i32>) -> bool {
    a.waiting().contains(layer) && actual.len() > 0
}

/// A score that counts leaves every counter countable: fewer layers than a count
/// holds, and no more routed experts.
pub open spec fn score_fits(a: PredictEval, layer: usize, actual: Seq<i32>) -> bool {
    counts(a, layer, actual) ==> {
        &&& a.count() < u64::MAX
        &&& a.board().len() > 0 ==> a.board()[0].tally().actual + actual.len() <= u64::MAX
    }
}

/// `b` is `a` after scoring `layer` against `actual`: its candidates are gone,
/// those of other layers are kept, and every arm's score moved where it counts.
pub open spec fn scored(a: PredictEval, layer: usize, actual: Seq<i32>, b: PredictEval) -> bool {
    &&& b.scored_width() == a.scored_width()
    &&& b.waiting() == a.waiting().remove(layer)
    &&& forall|l: usize| b.waiting().contains(l) ==> #[trigger] b.offers(l) == a.offers(l)
    &&& !counts(a, layer, actual) ==> b.board() == a.board() && b.count() == a.count()
    &&& counts(a, layer, actual) ==> {
        &&& b.count() == a.count() + 1
        &&& a.scored_arms(layer, actual, b.board())
    }
}

/// A finished score: each fraction as its numerator and denominator.
pub struct ArmReport {
    /// The predictor's name.
    pub name: String,
    /// Routed experts the offers contained, of those routed.
    pub recall: (u64, u64),
    /// Candidates that were routed, of those offered, over all ranks.
    pub precision: (u64, u64),
    /// The same at each rank: the profile that says how wide a look-ahead pays.
    pub precision_at: Vec<(u64, u64)>,
    /// Layers scored.
    pub asked: u64,
    /// Of those, layers for which nothing was offered.
    pub silent: u64,
}

/// The sum of the first `n` counts.
pub open spec fn count_sum(v: Seq<u64>, n: nat) -> int
    decreases n,
{
    if n == 0 {
        0
    } else {
        count_sum(v, (n - 1) as nat) + v[n - 1]
    }
}

proof fn lemma_count_sum_grows(v: Seq<u64>, m: nat, n: nat)
    requires
        m <= n <= v.len(),
    ensures
        0 <= count_sum(v, m) <= count_sum(v, n),
    decreases n,
{
    if n > 0 {
        if m < n {
            lemma_count_sum_grows(v, m, (n - 1) as nat);
        } else {
            lemma_count_sum_grows(v, (n - 1) as nat, (n - 1) as nat);
        }
    }
}

fn sum_counts(v: &Vec<u64>) -> (n: u64)
    requires
        count_sum(v@, v@.len()) <= u64::MAX,
    ensures
        n == count_sum(v@, v@.len()),
{
    let mut n: u64 = 0;
    let mut i: usize = 0;
    while i < v.len()
        invariant
            i <= v@.len(),
            count_sum(v@, v@.len()) <= u64::MAX,
            n == count_sum(v@, i as nat),
        decreases v@.len() - i,
    {
        proof {
            lemma_count_sum_grows(v@, (i + 1) as nat, v@.len());
        }
        n = n + v[i];
        i = i + 1;
    }
    n
}

/// `r` reports the score of `a`.
pub open spec fn reports(a: Arm, r: ArmReport) -> bool {
    let t = a.tally();
    &&& r.name@ == a.called()
    &&& r.recall.0 == t.covered
    &&& r.recall.1 == t.actual
    &&& r.precision.0 == count_sum(t.rank_hit, t.rank_hit.len())
    &&& r.precision.1 == count_sum(t.rank_n, t.rank_n.len())
    &&& r.precision_at@.len() == t.rank_n.len()
    &&& forall|k: int|
        0 <= k < t.rank_n.len() ==> #[trigger] r.precision_at@[k] == (t.rank_hit[k], t.rank_n[k])
    &&& r.asked == t.asked
    &&& r.silent == t.silent
}

/// The candidates an arm was offered fit in a count.
pub open spec fn countable(a: Arm) -> bool {
    count_sum(a.tally().rank_n, a.tally().rank_n.len()) <= u64::MAX
}

proof fn lemma_hits_within_offers(hit: Seq<u64>, n: Seq<u64>, k: nat)
    requires
        hit.len() == n.len(),
        k <= n.len(),
        forall|r: int| 0 <= r < hit.len() ==> #[trigger] hit[r] <= n[r],
    ensures
        count_sum(hit, k) <= count_sum(n, k),
    decreases k,
{
    if k > 0 {
        lemma_hits_within_offers(hit, n, (k - 1) as nat);
        assert(hit[k - 1] <= n[k - 1]);
    }
}

impl Arm {
    fn report(&self) -> (r: ArmReport)
        requires
            self.sound(),
            countable(*self),
        ensures
            reports(*self, r),
    {
        proof {
            assert forall|r: int| 0 <= r < self.rank_hit@.len() implies #[trigger] self.rank_hit@[r]
                <= self.rank_n@[r] by {
                assert(self.tally().rank_hit[r] <= self.tally().rank_n[r]);
            }
            lemma_hits_within_offers(self.rank_hit@, self.rank_n@, self.rank_n@.len());
        }
        let offered: u64 = sum_counts(&self.rank_n);
        let hit: u64 = sum_counts(&self.rank_hit);
        let mut precision_at: Vec<(u64, u64)> = Vec::new();
        let mut k: usize = 0;
        while k < self.rank_n.len()
            invariant
                k <= self.rank_n@.len(),
                self.rank_hit@.len() == self.rank_n@.len(),
                precision_at@.len() == k,
                forall|j: int|
                    0 <= j < k ==> #[trigger] precision_at@[j] == (
                        self.rank_hit@[j],
                        self.rank_n@[j],
                    ),
            decreases self.rank_n@.len() - k,
        {
            precision_at.push((self.rank_hit[k], self.rank_n[k]));
            k = k + 1;
        }
        ArmReport {
            name: self.name.clone(),
            recall: (self.covered, self.actual),
            precision: (hit, offered),
            precision_at,
            asked: self.asked,
            silent: self.silent,
        }
    }
}

/// What the control arm says of the scoreboard: how many routed experts the best
/// other arm and the control covered, of those routed.
pub struct Separation {
    /// Covered by the best other arm.
    pub best_real: u64,
    /// Covered by the control.
    pub control: u64,
    /// Routed, over all scored layers.
    pub actual: u64,
    /// The best other arm.
    pub best_name: String,
}

impl Separation {
    /// The best other arm covers at least twice what the control covers, or
    /// something where the control covers nothing.
    pub open spec fn separated(&self) -> bool {
        if self.control > 0 {
            self.best_real >= 2 * self.control
        } else {
            self.best_real > 0
        }
    }

    /// Whether the scoreboard tells a predictor from a coin flip.
    pub fn separates(&self) -> (b: bool)
        ensures
            b == self.separated(),
    {
        if self.control > 0 {
            self.best_real / 2 >= self.control
        } else {
            self.best_real > 0
        }
    }

    /// The verdict on the instrument, not on the predictors.
    pub fn verdict(&self) -> (s: &'static str)
        ensures
            s@ == if self.separated() {
                "[predict-eval] the scoreboard separates signal from noise; its other columns are readable.\n"@
            } else {
                "[predict-eval] WARNING: the best real arm is within 2x of uniform noise. Either every predictor has degraded, or this scoreboard cannot discriminate at this width and sample count — and its recall columns should not be quoted until which one is known.\n"@
            },
    {
        if self.separates() {
            "[predict-eval] the scoreboard separates signal from noise; its other columns are readable.\n"
        } else {
            "[predict-eval] WARNING: the best real arm is within 2x of uniform noise. Either every predictor has degraded, or this scoreboard cannot discriminate at this width and sample count — and its recall columns should not be quoted until which one is known.\n"
        }
    }
}

/// Arm `a` is the control.
pub open spec fn is_control(a: Arm) -> bool {
    a.called() == "control/noise"@
}

/// Arm `i` is the first control.
pub open spec fn control_at(board: Seq<Arm>, i: int) -> bool {
    &&& 0 <= i < board.len()
    &&& is_control(board[i])
    &&& forall|j: int| 0 <= j < i ==> !is_control(#[trigger] board[j])
}

/// Arm `i` is the best other arm: none covers more, and none after it as much.
pub open spec fn best_at(board: Seq<Arm>, i: int) -> bool {
    &&& 0 <= i < board.len()
    &&& !is_control(board[i])
    &&& forall|j: int|
        0 <= j < board.len() && !is_control(#[trigger] board[j]) ==> if j <= i {
            board[j].tally().covered <= board[i].tally().covered
        } else {
            board[j].tally().covered < board[i].tally().covered
        }
}

/// `r` is the report of a scoreboard: one entry per arm, in order, and none before
/// anything was scored.
pub open spec fn reported(ev: PredictEval, r: Seq<ArmReport>) -> bool {
    &&& ev.count() == 0 ==> r.len() == 0
    &&& ev.count() > 0 ==> {
        &&& r.len() == ev.board().len()
        &&& forall|a: int| 0 <= a < r.len() ==> reports(ev.board()[a], #[trigger] r[a])
    }
}

impl PredictEval {
    /// Every arm's score; nothing before anything was scored, since a fraction
    /// of nothing is no number.
    pub fn report(&self) -> (r: Vec<ArmReport>)
        requires
            self.wf(),
            forall|a: int| 0 <= a < self.board().len() ==> countable(#[trigger] self.board()[a]),
        ensures
            reported(*self, r@),
    {
        let mut r: Vec<ArmReport> = Vec::new();
        if self.scored_layers == 0 {
            return r;
        }
        let mut i: usize = 0;
        while i < self.arms.len()
            invariant
                self.wf(),
                forall|a: int| 0 <= a < self.board().len() ==> countable(
                    #[trigger] self.board()[a],
                ),
                i <= self.arms@.len(),
                r@.len() == i,
                forall|a: int| 0 <= a < i ==> reports(self.arms@[a], #[trigger] r@[a]),
            decreases self.arms@.len() - i,
        {
            assert(self.board()[i as int].sound());
            assert(countable(self.board()[i as int]));
            r.push(self.arms[i].report());
            i = i + 1;
        }
        r
    }

    /// Compares the best other arm with the control. `None` before anything was
    /// scored, and where there is no control or nothing to compare it with: a
    /// board without a control has a floor that nobody measured.
    pub fn separation(&self) -> (s: Option<Separation>)
        requires
            self.wf(),
        ensures
            s is Some <==> self.count() > 0 && (exists|i: int| #[trigger] control_at(self.board(), i))
                && (exists|i: int| #[trigger] best_at(self.board(), i)),
            s is Some ==> exists|c: int, b: int|
                #![trigger control_at(self.board(), c), best_at(self.board(), b)]
                control_at(self.board(), c) && best_at(self.board(), b) && (s->0).control
                    == self.board()[c].tally().covered && (s->0).best_real
                    == self.board()[b].tally().covered && (s->0).actual
                    == self.board()[b].tally().actual && (s->0).best_name@
                    == self.board()[b].called(),
    {
        if self.scored_layers == 0 {
            return None;
        }
        let mut control: Option<usize> = None;
        let mut best: Option<usize> = None;
        let mut i: usize = 0;
        while i < self.arms.len()
            invariant
                i <= self.arms@.len(),
                control is None ==> forall|j: int| 0 <= j < i ==> !is_control(
                    #[trigger] self.arms@[j],
                ),
                control is Some ==> control->0 < i && control_at(self.arms@, control->0 as int),
                best is None ==> forall|j: int| 0 <= j < i ==> is_control(
                    #[trigger] self.arms@[j],
                ),
                best is Some ==> best->0 < i && !is_control(self.arms@[best->0 as int]) && forall|
                    j: int,
                |
                    0 <= j < i && !is_control(#[trigger] self.arms@[j]) ==> if j <= best->0 {
                        self.arms@[j].tally().covered <= self.arms@[best->0 as int].tally().covered
                    } else {
                        self.arms@[j].tally().covered < self.arms@[best->0 as int].tally().covered
                    },
            decreases self.arms@.len() - i,
        {
            if text::same_text(self.arms[i].name.as_str(), "control/noise") {
                assert(is_control(self.arms@[i as int]));
                if control.is_none() {
                    control = Some(i);
                }
            } else {
                assert(!is_control(self.arms@[i as int]));
                match best {
                    None => {
                        best = Some(i);
                    },
                    Some(b) => if self.arms[i].covered >= self.arms[b].covered {
                        best = Some(i);
                    },
                }
            }
            i = i + 1;
        }
        match (control, best) {
            (Some(c), Some(b)) => {
                assert(control_at(self.board(), c as int));
                assert(best_at(self.board(), b as int));
                Some(
                    Separation {
                        best_real: self.arms[b].covered,
                        control: self.arms[c].covered,
                        actual: self.arms[b].actual,
                        best_name: self.arms[b].name.clone(),
                    },
                )
            },
            (None, _) => {
                assert forall|k: int| !#[trigger] control_at(self.board(), k) by {
                    if 0 <= k < self.board().len() {
                        assert(!is_control(self.arms@[k]));
                    }
                }
                None
            },
            (_, None) => {
                assert forall|k: int| !#[trigger] best_at(self.board(), k) by {
                    if 0 <= k < self.board().len() {
                        assert(is_control(self.arms@[k]));
                    }
                }
                None
            },
        }
    }
}

/// No arm's recall exceeds one, however often it repeats a right answer.
pub proof fn lemma_recall_at_most_one(ev: PredictEval, a: int, r: ArmReport)
    requires
        ev.wf(),
        0 <= a < ev.board().len(),
        reports(ev.board()[a], r),
    ensures
        r.recall.0 <= r.recall.1,
{
    assert(ev.board()[a].sound());
}

/// A report is empty exactly where there is no arm or nothing was scored. Else it
/// has one entry per arm, each with a fraction for every rank, and no fraction
/// exceeds one.
pub proof fn lemma_report_is_fractions(ev: PredictEval, r: Seq<ArmReport>)
    requires
        ev.wf(),
        reported(ev, r),
    ensures
        r.len() == 0 <==> ev.board().len() == 0 || ev.count() == 0,
        forall|a: int|
            0 <= a < r.len() ==> {
                let e = #[trigger] r[a];
                &&& e.name@ == ev.board()[a].called()
                &&& e.precision_at@.len() == ev.scored_width()
                &&& e.recall.0 <= e.recall.1
                &&& e.precision.0 <= e.precision.1
                &&& forall|k: int|
                    0 <= k < e.precision_at@.len() ==> (#[trigger] e.precision_at@[k]).0
                        <= e.precision_at@[k].1
            },
{
    assert forall|a: int| 0 <= a < r.len() implies {
        let e = #[trigger] r[a];
        &&& e.name@ == ev.board()[a].called()
        &&& e.precision_at@.len() == ev.scored_width()
        &&& e.recall.0 <= e.recall.1
        &&& e.precision.0 <= e.precision.1
        &&& forall|k: int|
            0 <= k < e.precision_at@.len() ==> (#[trigger] e.precision_at@[k]).0
                <= e.precision_at@[k].1
    } by {
        let t = ev.board()[a].tally();
        assert(ev.board()[a].sound());
        assert(reports(ev.board()[a], r[a]));
        lemma_hits_within_offers(t.rank_hit, t.rank_n, t.rank_n.len());
        assert forall|k: int| 0 <= k < r[a].precision_at@.len() implies (
        #[trigger] r[a].precision_at@[k]).0 <= r[a].precision_at@[k].1 by {
            assert(t.rank_hit[k] <= t.rank_n[k]);
        }
    }
}

/// Scoring a layer nothing waits for, or that routed nothing, leaves every score
/// and every report as it was.
pub proof fn lemma_idle_score_changes_nothing(
    a: PredictEval,
    layer: usize,
    actual: Seq<i32>,
    b: PredictEval,
    r: Seq<ArmReport>,
)
    requires
        scored(a, layer, actual, b),
        !a.waiting().contains(layer) || actual.len() == 0,
    ensures
        b.board() == a.board(),
        b.count() == a.count(),
        reported(a, r) <==> reported(b, r),
{
}

/// After any score of a layer nothing waits for it: scoring it again without new
/// candidates changes nothing, and what waits for other layers is kept throughout.
pub proof fn lemma_second_score_changes_nothing(
    a: PredictEval,
    layer: usize,
    x: Seq<i32>,
    b: PredictEval,
    y: Seq<i32>,
    c: PredictEval,
)
    requires
        scored(a, layer, x, b),
        scored(b, layer, y, c),
    ensures
        !b.waiting().contains(layer),
        c.board() == b.board(),
        c.count() == b.count(),
        c.waiting() == b.waiting(),
        forall|l: usize|
            l != layer && a.waiting().contains(l) ==> c.waiting().contains(l)
                && #[trigger] c.offers(l) == a.offers(l),
{
    assert(c.waiting() =~= b.waiting());
    assert forall|l: usize| l != layer && a.waiting().contains(l) implies c.waiting().contains(l)
        && #[trigger] c.offers(l) == a.offers(l) by {
        assert(b.waiting().contains(l));
        assert(b.offers(l) == a.offers(l));
    }
}

/// A call on a scoreboard.
pub enum EvalCall {
    /// Candidates recorded for a layer, one list per arm.
    Stash(usize, Seq<Seq<i32>>),
    /// A layer scored against what it routed.
    Score(usize, Seq<i32>),
}

/// `b` is `a` after one call.
pub open spec fn called_on(a: PredictEval, call: EvalCall, b: PredictEval) -> bool {
    match call {
        EvalCall::Stash(layer, per_arm) => stashed(a, layer, per_arm, b),
        EvalCall::Score(layer, actual) => scored(a, layer, actual, b),
    }
}

/// One call leaves every counter countable.
pub open spec fn call_fits(a: PredictEval, call: EvalCall) -> bool {
    call matches EvalCall::Score(layer, actual) ==> score_fits(a, layer, actual)
}

/// `evs` are the states a scoreboard goes through under `calls`.
pub open spec fn goes_through(evs: Seq<PredictEval>, calls: Seq<EvalCall>) -> bool {
    &&& evs.len() == calls.len() + 1
    &&& forall|i: int|
        0 <= i < calls.len() ==> call_fits(evs[i], #[trigger] calls[i]) && called_on(
            evs[i],
            calls[i],
            evs[i + 1],
        )
}

/// How many of the first `n` calls scored something.
pub open spec fn scores_counted(evs: Seq<PredictEval>, calls: Seq<EvalCall>, n: nat) -> nat
    decreases n,
{
    if n == 0 {
        0
    } else {
        let here: nat = match calls[n - 1] {
            EvalCall::Score(layer, actual) => if counts(evs[n - 1], layer, actual) {
                1
            } else {
                0
            },
            EvalCall::Stash(..) => 0,
        };
        scores_counted(evs, calls, (n - 1) as nat) + here
    }
}

/// A scoreboard as it is made.
pub open spec fn fresh_board(ev: PredictEval, width: nat) -> bool {
    &&& ev.scored_width() == width
    &&& forall|a: int|
        0 <= a < ev.board().len() ==> (#[trigger] ev.board()[a]).tally() == blank_tally(width)
    &&& ev.waiting() == Set::<usize>::empty()
    &&& ev.count() == 0
}

proof fn lemma_call_keeps_wf(a: PredictEval, call: EvalCall, b: PredictEval)
    requires
        a.wf(),
        call_fits(a, call),
        called_on(a, call, b),
    ensures
        b.wf(),
        b.board().len() == a.board().len(),
        b.scored_width() == a.scored_width(),
        forall|i: int|
            0 <= i < a.board().len() ==> (#[trigger] b.board()[i]).called() == a.board()[i].called(),
{
    match call {
        EvalCall::Stash(layer, per_arm) => {
            assert forall|l: usize| #[trigger] b.waiting().contains(l) implies b.offers(l).len()
                == b.board().len() by {
                if per_arm.len() != a.board().len() || l != layer {
                    assert(a.waiting().contains(l));
                    assert(b.offers(l) == a.offers(l));
                }
            }
        },
        EvalCall::Score(layer, actual) => {
            assert forall|l: usize| #[trigger] b.waiting().contains(l) implies b.offers(l).len()
                == b.board().len() by {
                assert(a.waiting().contains(l));
                assert(b.offers(l) == a.offers(l));
            }
            if counts(a, layer, actual) {
                assert forall|i: int| 0 <= i < b.board().len() implies {
                    let t = (#[trigger] b.board()[i]).tally();
                    &&& b.board()[i].sound()
                    &&& t.rank_n.len() == b.scored_width()
                    &&& t.asked == b.count()
                    &&& t.actual == b.board()[0].tally().actual
                } by {
                    assert(a.board()[i].sound());
                    assert(a.board()[0].sound());
                    assert(b.board()[0].tally() == scored_tally(
                        a.board()[0].tally(),
                        a.offers(layer)[0],
                        actual,
                    ));
                    lemma_scoring_keeps_tally_sound(
                        a.board()[i].tally(),
                        a.offers(layer)[i],
                        actual,
                    );
                }
            }
        },
    }
}

/// Whatever calls a scoreboard has seen since it was made, it adds up: every arm
/// was asked about every scored layer, its score is sound, all arms were scored
/// against the same routed experts, and the number of scored layers is the number
/// of calls that found candidates waiting and something routed.
pub proof fn lemma_scoreboard_adds_up(
    evs: Seq<PredictEval>,
    calls: Seq<EvalCall>,
    width: nat,
    n: nat,
)
    requires
        goes_through(evs, calls),
        fresh_board(evs[0], width),
        n <= calls.len(),
    ensures
        evs[n as int].wf(),
        evs[n as int].scored_width() == width,
        evs[n as int].board().len() == evs[0].board().len(),
        evs[n as int].count() == scores_counted(evs, calls, n),
        forall|a: int|
            0 <= a < evs[0].board().len() ==> {
                let t = (#[trigger] evs[n as int].board()[a]).tally();
                &&& evs[n as int].board()[a].called() == evs[0].board()[a].called()
                &&& sound_tally(t)
                &&& t.asked == evs[n as int].count()
                &&& t.rank_n.len() == width
            },
    decreases n,
{
    if n == 0 {
        let ev = evs[0];
        assert forall|a: int| 0 <= a < ev.board().len() implies {
            let t = (#[trigger] ev.board()[a]).tally();
            &&& ev.board()[a].sound()
            &&& t.rank_n.len() == ev.scored_width()
            &&& t.asked == ev.count()
            &&& t.actual == ev.board()[0].tally().actual
        } by {
            assert(ev.board()[a].tally() == blank_tally(width));
            assert(ev.board()[0].tally() == blank_tally(width));
        }
    } else {
        let m = (n - 1) as nat;
        lemma_scoreboard_adds_up(evs, calls, width, m);
        assert(call_fits(evs[m as int], calls[m as int]));
        assert(called_on(evs[m as int], calls[m as int], evs[n as int]));
        lemma_call_keeps_wf(evs[m as int], calls[m as int], evs[n as int]);
        assert forall|a: int| 0 <= a < evs[0].board().len() implies {
            let t = (#[trigger] evs[n as int].board()[a]).tally();
            &&& evs[n as int].board()[a].called() == evs[0].board()[a].called()
            &&& sound_tally(t)
            &&& t.asked == evs[n as int].count()
            &&& t.rank_n.len() == width
        } by {
            assert(evs[m as int].board()[a].called() == evs[0].board()[a].called());
            assert(evs[n as int].board()[a].sound());
        }
    }
}

/// Every arm is scored against the same routed experts, so comparing what two
/// arms covered compares their recall.
pub proof fn lemma_arms_share_denominator(ev: PredictEval, a: int, b: int)
    requires
        ev.wf(),
        0 <= a < ev.board().len(),
        0 <= b < ev.board().len(),
    ensures
        ev.board()[a].tally().actual == ev.board()[b].tally().actual,
{
    assert(ev.board()[a].tally().actual == ev.board()[0].tally().actual);
    assert(ev.board()[b].tally().actual == ev.board()[0].tally().actual);
}

/// Scoring a layer that offered nothing counts as silence and leaves every
/// rank's precision alone: abstaining is not guessing wrong.
pub proof fn lemma_silence_is_not_error(t: Tally, actual: Seq<i32>)
    requires
        t.rank_hit.len() == t.rank_n.len(),
    ensures
        scored_tally(t, Seq::empty(), actual).rank_n == t.rank_n,
        scored_tally(t, Seq::empty(), actual).rank_hit == t.rank_hit,
        scored_tally(t, Seq::empty(), actual).silent == t.silent + 1,
{
    assert(scored_tally(t, Seq::empty(), actual).rank_n =~= t.rank_n);
    assert(scored_tally(t, Seq::empty(), actual).rank_hit =~= t.rank_hit);
}

/// What scoring a layer adds. A rank's candidate is counted where there is one,
/// and its hit where that expert was routed to; the layer, its routed experts and
/// its silence are counted once. Ranks without a candidate stay as they were.
pub proof fn lemma_scoring_adds_one_layer(t: Tally, pred: Seq<i32>, actual: Seq<i32>)
    requires
        sound_tally(t),
        t.asked < u64::MAX,
    ensures
        ({
            let u = scored_tally(t, pred, actual);
            &&& u.rank_n.len() == t.rank_n.len()
            &&& u.rank_hit.len() == t.rank_hit.len()
            &&& forall|r: int|
                0 <= r < t.rank_n.len() ==> #[trigger] u.rank_n[r] - t.rank_n[r] == if r
                    < pred.len() {
                    1int
                } else {
                    0
                }
            &&& forall|r: int|
                0 <= r < t.rank_hit.len() ==> #[trigger] u.rank_hit[r] - t.rank_hit[r] == if r
                    < pred.len() && actual.contains(pred[r]) {
                    1int
                } else {
                    0
                }
            &&& u.asked - t.asked == 1
            &&& u.actual - t.actual == actual.len()
            &&& u.silent - t.silent == if pred.len() == 0 {
                1int
            } else {
                0
            }
            &&& 0 <= u.covered - t.covered <= actual.len()
        }),
{
    let u = scored_tally(t, pred, actual);
    lemma_coverage_at_most_actual(pred, actual, t.rank_n.len());
    assert forall|r: int| 0 <= r < t.rank_hit.len() implies #[trigger] u.rank_hit[r]
        - t.rank_hit[r] == if r < pred.len() && actual.contains(pred[r]) {
        1int
    } else {
        0
    } by {
        assert(t.rank_n[r] <= t.asked - t.silent);
        assert(t.rank_hit[r] <= t.rank_n[r]);
    }
    assert forall|r: int| 0 <= r < t.rank_n.len() implies #[trigger] u.rank_n[r] - t.rank_n[r]
        == if r < pred.len() {
        1int
    } else {
        0
    } by {
        assert(t.rank_n[r] <= t.asked - t.silent);
    }
}

/// What is covered are the routed experts among the leading candidates. Offering
/// all of them covers all, offering none of them covers none, a candidate past
/// the width changes nothing, and one more that was routed and not yet offered
/// covers one more.
pub proof fn lemma_what_is_covered(pred: Seq<i32>, actual: Seq<i32>, width: nat, e: i32)
    ensures
        pred.len() <= width && actual.no_duplicates() && (forall|i: int|
            0 <= i < actual.len() ==> pred.contains(#[trigger] actual[i])) ==> coverage(
            pred,
            actual,
            width,
        ) == actual.len(),
        (forall|i: int| 0 <= i < pred.len() ==> !actual.contains(#[trigger] pred[i])) ==> coverage(
            pred,
            actual,
            width,
        ) == 0,
        pred.len() >= width ==> coverage(pred.push(e), actual, width) == coverage(
            pred,
            actual,
            width,
        ),
        pred.len() < width && actual.contains(e) && !pred.contains(e) ==> coverage(
            pred.push(e),
            actual,
            width,
        ) == coverage(pred, actual, width) + 1,
        pred.len() < width && (!actual.contains(e) || pred.contains(e)) ==> coverage(
            pred.push(e),
            actual,
            width,
        ) == coverage(pred, actual, width),
{
    vstd::seq_lib::seq_to_set_is_finite(actual);
    vstd::seq_lib::seq_to_set_is_finite(pred);
    let offer = if pred.len() < width {
        pred
    } else {
        pred.take(width as int)
    };
    if pred.len() <= width {
        assert(offer =~= pred);
    }
    vstd::seq_lib::seq_to_set_is_finite(offer);
    if pred.len() <= width && actual.no_duplicates() && (forall|i: int|
        0 <= i < actual.len() ==> pred.contains(#[trigger] actual[i])) {
        assert(pred.to_set().intersect(actual.to_set()) =~= actual.to_set());
        actual.unique_seq_to_set();
    }
    if forall|i: int| 0 <= i < pred.len() ==> !actual.contains(#[trigger] pred[i]) {
        assert forall|x: i32| offer.contains(x) implies !actual.contains(x) by {
            let i = choose|i: int| 0 <= i < offer.len() && offer[i] == x;
            assert(pred[i] == x);
        }
        assert(offer.to_set().intersect(actual.to_set()) =~= Set::<i32>::empty());
    }
    if pred.len() >= width {
        assert(pred.push(e).take(width as int) =~= pred.take(width as int));
    } else {
        let more = pred.push(e);
        assert(more.take(more.len() as int) =~= more);
        assert forall|x: i32| more.contains(x) <==> pred.contains(x) || x == e by {
            if pred.contains(x) {
                let i = choose|i: int| 0 <= i < pred.len() && pred[i] == x;
                assert(more[i] == x);
            }
            if x == e {
                assert(more[pred.len() as int] == x);
            }
        }
        let before = pred.to_set().intersect(actual.to_set());
        if actual.contains(e) {
            assert(more.to_set().intersect(actual.to_set()) =~= before.insert(e));
        } else {
            assert(more.to_set().intersect(actual.to_set()) =~= before);
        }
        if pred.contains(e) {
            assert(more.to_set().intersect(actual.to_set()) =~= before);
        }
    }
}

/// Every count enters a sum once.
pub proof fn lemma_count_sum_counts_each_once(v: Seq<u64>, x: u64)
    ensures
        count_sum(v, 0) == 0,
        count_sum(v.push(x), v.len() + 1) == count_sum(v, v.len()) + x,
{
    lemma_count_sum_of_a_longer_list(v, x, v.len());
}

proof fn lemma_count_sum_of_a_longer_list(v: Seq<u64>, x: u64, n: nat)
    requires
        n <= v.len(),
    ensures
        count_sum(v.push(x), n) == count_sum(v, n),
    decreases n,
{
    if n > 0 {
        lemma_count_sum_of_a_longer_list(v, x, (n - 1) as nat);
    }
}

/// There is one best arm at most: none other covers more, and of those that cover
/// as much it stands last. The control is never it. The control is the first arm
/// of that name, and there is one at most.
pub proof fn lemma_best_and_control_are_unique(board: Seq<Arm>, i: int, j: int)
    ensures
        best_at(board, i) && best_at(board, j) ==> i == j,
        control_at(board, i) && control_at(board, j) ==> i == j,
        best_at(board, i) && 0 <= j < board.len() && board[j].called() != "control/noise"@
            ==> board[j].tally().covered <= board[i].tally().covered,
        best_at(board, i) && i < j < board.len() && board[j].called() != "control/noise"@
            ==> board[j].tally().covered < board[i].tally().covered,
        best_at(board, i) ==> board[i].called() != "control/noise"@,
        control_at(board, i) ==> board[i].called() == "control/noise"@,
        control_at(board, i) && 0 <= j < i ==> board[j].called() != "control/noise"@,
{
}

/// A scoreboard tells signal from noise exactly where its best arm covers
/// something and at least twice what the control covers. More coverage by the
/// best arm, or less by the control, never takes that away.
pub proof fn lemma_when_the_board_separates(a: Separation, b: Separation)
    ensures
        a.separated() <==> a.best_real > 0 && a.best_real >= a.control + a.control,
        a.separated() && b.best_real >= a.best_real && b.control <= a.control ==> b.separated(),
{
}

/// A new score is zero throughout, with a place for every rank.
pub proof fn lemma_new_scores_are_zero(width: nat)
    ensures
        blank_tally(width).rank_n.len() == width && blank_tally(width).rank_hit.len() == width,
        forall|r: int|
            0 <= r < width ==> #[trigger] blank_tally(width).rank_n[r] == 0 && blank_tally(
                width,
            ).rank_hit[r] == 0,
        blank_tally(width).covered == 0 && blank_tally(width).actual == 0,
        blank_tally(width).asked == 0 && blank_tally(width).silent == 0,
        sound_tally(blank_tally(width)),
{
}

/// Candidates that were stashed for a layer are what that layer is scored on: each
/// arm is asked once more, covers the routed experts it offered, and nothing waits
/// for the layer afterwards. Layers that waited before still do.
pub proof fn lemma_layers_are_scored_on_what_was_stashed(
    a: PredictEval,
    layer: usize,
    per_arm: Seq<Seq<i32>>,
    b: PredictEval,
    actual: Seq<i32>,
    c: PredictEval,
    k: int,
)
    requires
        stashed(a, layer, per_arm, b),
        scored(b, layer, actual, c),
        per_arm.len() == a.board().len(),
        actual.len() > 0,
        0 <= k < a.board().len(),
    ensures
        ({
            let t = a.board()[k].tally();
            let u = c.board()[k].tally();
            &&& c.count() == a.count() + 1
            &&& c.board().len() == a.board().len()
            &&& c.board()[k].called() == a.board()[k].called()
            &&& u.asked == t.asked + 1
            &&& u.actual == t.actual + actual.len()
            &&& u.covered == t.covered + coverage(per_arm[k], actual, t.rank_n.len())
            &&& u.silent == t.silent + if per_arm[k].len() == 0 {
                1int
            } else {
                0
            }
        }),
        !c.waiting().contains(layer),
        forall|l: usize|
            l != layer && a.waiting().contains(l) ==> c.waiting().contains(l)
                && #[trigger] c.offers(l) == a.offers(l),
{
    assert(b.waiting().contains(layer));
    assert(b.scored_arms(layer, actual, c.board()));
    assert(c.board()[k].called() == b.board()[k].called());
    assert forall|l: usize| l != layer && a.waiting().contains(l) implies c.waiting().contains(l)
        && #[trigger] c.offers(l) == a.offers(l) by {
        assert(b.waiting().contains(l));
        assert(b.offers(l) == a.offers(l));
    }
}

/// Stashing one list per arm is all that counts: any other number of lists is not
/// taken.
pub proof fn lemma_uneven_stash_changes_nothing(
    a: PredictEval,
    layer: usize,
    per_arm: Seq<Seq<i32>>,
    b: PredictEval,
)
    requires
        stashed(a, layer, per_arm, b),
        per_arm.len() != a.board().len(),
    ensures
        b.waiting() == a.waiting(),
        b.board() == a.board(),
        b.count() == a.count(),
        forall|l: usize| a.waiting().contains(l) ==> #[trigger] b.offers(l) == a.offers(l),
{
}

} // verus!
