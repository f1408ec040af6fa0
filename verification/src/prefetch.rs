//! Speculative expert reads: which to start, when they are still worth serving,
//! and which resident experts they protect.

use vstd::prelude::*;

use crate::knobs;

verus! {

/// The layer-step clock speculative reads are stamped with, and how many steps
/// past its stamp one stays worth serving.
pub struct SweepClock {
    step: u64,
    slack: u64,
}

/// The slack the two settings spell: everything stays serviceable when dropping
/// is turned off, one step otherwise unless a number says more or less.
pub open spec fn slack_of(drop: Option<Seq<char>>, slack: Option<Seq<char>>) -> int {
    if knobs::says_off(drop) {
        u64::MAX as int
    } else {
        match knobs::trimmed_number(slack, u64::MAX as int) {
            Some(n) => n,
            None => 1,
        }
    }
}

impl SweepClock {
    /// The current layer-step.
    pub closed spec fn at(&self) -> u64 {
        self.step
    }

    /// Steps past its stamp a read stays serviceable.
    pub closed spec fn allowance(&self) -> u64 {
        self.slack
    }

    /// A clock at step zero with the slack the settings spell.
    pub fn from_env_values(drop: Option<&str>, slack: Option<&str>) -> (c: SweepClock)
        ensures
            c.at() == 0,
            c.allowance() == slack_of(knobs::setting(drop), knobs::setting(slack)),
    {
        if !knobs::not_opted_out(drop) {
            SweepClock { step: 0, slack: u64::MAX }
        } else {
            match knobs::number_u64(slack) {
                Some(n) => SweepClock { step: 0, slack: n },
                None => SweepClock { step: 0, slack: 1 },
            }
        }
    }

    /// The current layer-step, to stamp a batch of reads with.
    pub fn now(&self) -> (n: u64)
        ensures
            n == self.at(),
    {
        self.step
    }

    /// Steps past its stamp a read stays serviceable.
    pub fn slack(&self) -> (n: u64)
        ensures
            n == self.allowance(),
    {
        self.slack
    }

    /// Advances one layer-step.
    pub fn tick(&mut self)
        ensures
            final(self).allowance() == old(self).allowance(),
            final(self).at() == if old(self).at() == u64::MAX {
                0
            } else {
                old(self).at() + 1
            },
    {
        self.step = self.step.wrapping_add(1);
    }
}

/// A read stamped at `stamp` is past its window at `now`.
pub open spec fn stale(now: u64, stamp: u64, slack: u64) -> bool {
    now - stamp > slack
}

/// Whether a read stamped at `stamp` is past its window at `now`. A stamp ahead
/// of the clock has no age, so one of `u64::MAX` never goes stale.
pub fn warm_item_is_stale(now: u64, stamp: u64, slack: u64) -> (b: bool)
    ensures
        b == stale(now, stamp, slack),
{
    now.saturating_sub(stamp) > slack
}

/// A deliberate read never goes stale, and nothing does while dropping is off.
pub proof fn lemma_never_stale(now: u64, stamp: u64, slack: u64)
    ensures
        !stale(now, u64::MAX, slack),
        !stale(now, stamp, u64::MAX),
{
}

/// An expert of a layer.
pub type ExpertKey = (u32, u32);

/// What to do with the next read of a batch.
#[derive(Clone, Copy, Debug, PartialEq, Eq)]
pub enum WarmStep {
    /// The batch is served.
    Done,
    /// Its window has passed: count it and leave it unread.
    DropStale,
    /// It is warm already.
    Skip,
    /// Read it.
    Read(ExpertKey),
}

/// A batch of speculative reads being served, one by one.
pub struct WarmBatch {
    items: Vec<ExpertKey>,
    stamp: u64,
    next: usize,
}

impl WarmBatch {
    /// The reads not served yet, in order.
    pub closed spec fn left(&self) -> Seq<ExpertKey> {
        self.items@.skip(self.next as int)
    }

    /// The step the batch was emitted in.
    pub closed spec fn stamped(&self) -> u64 {
        self.stamp
    }

    /// The batch has not run past its end.
    pub closed spec fn wf(&self) -> bool {
        self.next <= self.items@.len()
    }

    /// A batch as it was emitted.
    pub fn new(items: Vec<ExpertKey>, stamp: u64) -> (b: WarmBatch)
        ensures
            b.wf(),
            b.left() == items@,
            b.stamped() == stamp,
    {
        let b = WarmBatch { items, stamp, next: 0 };
        assert(b.left() =~= b.items@);
        b
    }

    /// A batch of deliberate reads: a set that was asked for, not one step's
    /// guess. None of them goes stale.
    pub fn deliberate(items: Vec<ExpertKey>) -> (b: WarmBatch)
        ensures
            b.wf(),
            b.left() == items@,
            b.stamped() == u64::MAX,
            forall|now: u64, slack: u64| !#[trigger] stale(now, b.stamped(), slack),
    {
        WarmBatch::new(items, u64::MAX)
    }

    /// Whether every read has been served.
    pub fn is_empty(&self) -> (b: bool)
        requires
            self.wf(),
        ensures
            b == (self.left().len() == 0),
    {
        self.next >= self.items.len()
    }

    /// The next read, to look up whether it is warm.
    pub fn peek(&self) -> (key: Option<ExpertKey>)
        requires
            self.wf(),
        ensures
            self.left().len() == 0 ==> key is None,
            self.left().len() > 0 ==> key == Some(self.left()[0]),
    {
        if self.next < self.items.len() {
            Some(self.items[self.next])
        } else {
            None
        }
    }

    /// Serves the next read. It is judged read by read, since a batch can go
    /// stale midway, and the window comes before the cache.
    pub fn step(&mut self, now: u64, slack: u64, warm: bool) -> (s: WarmStep)
        requires
            old(self).wf(),
        ensures
            final(self).wf(),
            final(self).stamped() == old(self).stamped(),
            old(self).left().len() == 0 ==> s == WarmStep::Done && final(self).left()
                == old(self).left(),
            old(self).left().len() > 0 ==> {
                &&& final(self).left() == old(self).left().skip(1)
                &&& s == if stale(now, old(self).stamped(), slack) {
                    WarmStep::DropStale
                } else if warm {
                    WarmStep::Skip
                } else {
                    WarmStep::Read(old(self).left()[0])
                }
            },
    {
        if self.next >= self.items.len() {
            return WarmStep::Done;
        }
        let key: ExpertKey = self.items[self.next];
        self.next = self.next + 1;
        assert(self.left() =~= old(self).left().skip(1));
        if warm_item_is_stale(now, self.stamp, slack) {
            WarmStep::DropStale
        } else if warm {
            WarmStep::Skip
        } else {
            WarmStep::Read(key)
        }
    }
}

/// What a finished read leads to.
#[derive(Clone, Copy, Debug, PartialEq, Eq, Structural)]
pub struct ReadOutcome {
    /// Count the read and keep its bytes.
    pub keep: bool,
    /// Count a mismatch.
    pub mismatch: bool,
}

/// Settles a read: a failed one is dropped, since the forward reads the expert
/// itself; one that was read twice and differed is counted, and still kept.
/// `again` is the second reading where one was asked for: `None` if it failed,
/// else whether it agreed.
pub fn settle_read(read: bool, verify: bool, again: Option<bool>) -> (o: ReadOutcome)
    ensures
        o.keep == read,
        o.mismatch == (read && verify && again == Some(false)),
{
    let differed = match again {
        Some(same) => !same,
        None => false,
    };
    ReadOutcome { keep: read, mismatch: read && verify && differed }
}

/// The lane that serves work item `i` of a pool of `lanes`.
pub fn lane(i: usize, lanes: usize) -> (l: usize)
    requires
        lanes > 0,
    ensures
        l == i % lanes,
        l < lanes,
{
    i % lanes
}

/// The kind of text a request works on.
#[derive(Clone, Copy, Debug, PartialEq, Eq, Structural)]
pub enum TokenClass {
    /// Source code.
    Code,
    /// Structured data.
    Json,
    /// Formulas.
    Math,
    /// Prose.
    Prose,
    /// No one kind.
    Mixed,
}

/// How many predicted experts per layer are read, and how many after them are
/// hinted to the page cache.
#[derive(Clone, Copy, Debug, PartialEq, Eq, Structural)]
pub struct PrefetchPolicy {
    /// Experts read.
    pub warm_paths: usize,
    /// Experts hinted.
    pub hint_paths: usize,
}

impl PrefetchPolicy {
    /// The policy the two settings spell: everything predicted is read, nothing
    /// hinted, unless they say otherwise.
    pub fn from_env(warm: Option<&str>, hint: Option<&str>) -> (p: PrefetchPolicy)
        ensures
            p.warm_paths == knobs::number_or(knobs::setting(warm), usize::MAX as int),
            p.hint_paths == knobs::number_or(knobs::setting(hint), 0),
    {
        PrefetchPolicy {
            warm_paths: knobs::env_usize(warm, usize::MAX),
            hint_paths: knobs::env_usize(hint, 0),
        }
    }

    /// This policy with a class's own settings applied.
    pub fn for_class(&self, warm: Option<&str>, hint: Option<&str>) -> (p: PrefetchPolicy)
        ensures
            p.warm_paths == knobs::number_or(knobs::setting(warm), self.warm_paths as int),
            p.hint_paths == knobs::number_or(knobs::setting(hint), self.hint_paths as int),
    {
        PrefetchPolicy {
            warm_paths: knobs::env_usize(warm, self.warm_paths),
            hint_paths: knobs::env_usize(hint, self.hint_paths),
        }
    }

    /// This policy with the tuner's distance, where there is one, as the reads.
    pub fn tuned(&self, distance: Option<usize>) -> (p: PrefetchPolicy)
        ensures
            p.hint_paths == self.hint_paths,
            p.warm_paths == match distance {
                Some(d) => d,
                None => self.warm_paths,
            },
    {
        PrefetchPolicy {
            warm_paths: match distance {
                Some(d) => d,
                None => self.warm_paths,
            },
            hint_paths: self.hint_paths,
        }
    }
}

/// The settings that override a class's breadth: of the reads, then of the hints.
pub fn class_settings(class: TokenClass) -> (keys: (&'static str, &'static str))
    ensures
        keys.0@ == match class {
            TokenClass::Code => "COLI_PREFETCH_WARM_PATHS_CODE"@,
            TokenClass::Json => "COLI_PREFETCH_WARM_PATHS_JSON"@,
            TokenClass::Math => "COLI_PREFETCH_WARM_PATHS_MATH"@,
            TokenClass::Prose => "COLI_PREFETCH_WARM_PATHS_PROSE"@,
            TokenClass::Mixed => "COLI_PREFETCH_WARM_PATHS_MIXED"@,
        },
        keys.1@ == match class {
            TokenClass::Code => "COLI_PREFETCH_HINT_PATHS_CODE"@,
            TokenClass::Json => "COLI_PREFETCH_HINT_PATHS_JSON"@,
            TokenClass::Math => "COLI_PREFETCH_HINT_PATHS_MATH"@,
            TokenClass::Prose => "COLI_PREFETCH_HINT_PATHS_PROSE"@,
            TokenClass::Mixed => "COLI_PREFETCH_HINT_PATHS_MIXED"@,
        },
{
    match class {
        TokenClass::Code => ("COLI_PREFETCH_WARM_PATHS_CODE", "COLI_PREFETCH_HINT_PATHS_CODE"),
        TokenClass::Json => ("COLI_PREFETCH_WARM_PATHS_JSON", "COLI_PREFETCH_HINT_PATHS_JSON"),
        TokenClass::Math => ("COLI_PREFETCH_WARM_PATHS_MATH", "COLI_PREFETCH_HINT_PATHS_MATH"),
        TokenClass::Prose => ("COLI_PREFETCH_WARM_PATHS_PROSE", "COLI_PREFETCH_HINT_PATHS_PROSE"),
        TokenClass::Mixed => ("COLI_PREFETCH_WARM_PATHS_MIXED", "COLI_PREFETCH_HINT_PATHS_MIXED"),
    }
}

/// Whether predicted experts are protected from eviction. Unless the setting
/// decides, protection is on while the cache cannot hold one token's working
/// set: past that size recency does better on its own. With no working set to
/// go by it is on.
pub fn prefetch_protect_default(value: Option<&str>, budget_bytes: usize, per_token_bytes: u64) -> (b: bool)
    ensures
        b == if knobs::says_off(knobs::setting(value)) {
            false
        } else if knobs::says_on(knobs::setting(value)) {
            true
        } else {
            per_token_bytes == 0 || budget_bytes < per_token_bytes
        },
{
    if !knobs::not_opted_out(value) {
        false
    } else if knobs::opted_in(value) {
        true
    } else {
        per_token_bytes == 0 || (budget_bytes as u64) < per_token_bytes
    }
}

/// When speculative reads stop being worth their bandwidth.
#[derive(Clone, Copy, Debug, PartialEq, Eq, Structural)]
pub struct YieldGuard {
    /// Reads to judge by.
    pub min_reads: u64,
    /// Percent of them that have to be used.
    pub min_yield: u64,
}

/// The product of two counts, or the largest there is.
pub open spec fn times(a: u64, b: u64) -> int {
    if a * b > u64::MAX {
        u64::MAX as int
    } else {
        a * b
    }
}

/// Speculation still pays under `g`.
pub open spec fn pays(g: YieldGuard, issued: u64, used: u64) -> bool {
    ||| g.min_yield == 0
    ||| issued < g.min_reads
    ||| times(used, 100) >= times(issued, g.min_yield)
}

impl YieldGuard {
    /// The guard two settings spell: two percent of at least 512 reads unless
    /// they say otherwise.
    pub fn from_settings(min_reads: Option<&str>, min_yield: Option<&str>) -> (g: YieldGuard)
        ensures
            g.min_reads == match knobs::trimmed_number(knobs::setting(min_reads), u64::MAX as int) {
                Some(n) => n,
                None => 512,
            },
            g.min_yield == match knobs::trimmed_number(knobs::setting(min_yield), u64::MAX as int) {
                Some(n) => n,
                None => 2,
            },
    {
        YieldGuard {
            min_reads: match knobs::number_u64(min_reads) {
                Some(n) => n,
                None => 512,
            },
            min_yield: match knobs::number_u64(min_yield) {
                Some(n) => n,
                None => 2,
            },
        }
    }
}

fn saturating_product(a: u64, b: u64) -> (n: u64)
    ensures
        n == times(a, b),
{
    match a.checked_mul(b) {
        Some(n) => n,
        None => u64::MAX,
    }
}

/// Whether speculative reads are still earning their bandwidth: always before
/// there are enough to judge by, and while the guard is off.
pub fn prefetch_pays(g: &YieldGuard, issued: u64, used: u64) -> (b: bool)
    ensures
        b == pays(*g, issued, used),
{
    if g.min_yield == 0 || issued < g.min_reads {
        return true;
    }
    let hit: u64 = saturating_product(used, 100);
    let owed: u64 = saturating_product(issued, g.min_yield);
    hit >= owed
}

/// A tripped guard stays tripped: nothing is issued any more, so nothing new is
/// used.
pub proof fn lemma_guard_is_one_way(g: YieldGuard, issued: u64, used: u64, still_used: u64)
    requires
        !pays(g, issued, used),
        still_used <= used,
    ensures
        !pays(g, issued, still_used),
{
    assert(still_used * 100 <= used * 100) by (nonlinear_arith)
        requires
            still_used <= used,
    ;
}

/// The priority of a pinned expert: nothing predicted reaches it.
pub const PIN_PRIORITY: u32 = 0xffff_ffff;

/// A number brought down to sixteen bits' worth.
pub open spec fn sixteen(n: u32) -> int {
    if n > 0xffff {
        0xffff
    } else {
        n as int
    }
}

/// The priority a predicted expert gets: its score first, its heat to break
/// ties, above every unpredicted expert and below every pin.
pub open spec fn prio(score: u32, heat: u32) -> int {
    let p = sixteen(score) * 0x1_0000 + sixteen(heat) + 1;
    if p > PIN_PRIORITY - 1 {
        PIN_PRIORITY - 1
    } else {
        p
    }
}

/// Packs a predicted expert's eviction priority.
pub fn pack_prio(score: u32, heat: u32) -> (p: u32)
    ensures
        p == prio(score, heat),
        1 <= p < PIN_PRIORITY,
{
    let s: u32 = if score > 0xffff {
        0xffff
    } else {
        score
    };
    let h: u32 = if heat > 0xffff {
        0xffff
    } else {
        heat
    };
    assert((s << 16) | h == s * 0x1_0000 + h) by (bit_vector)
        requires
            s <= 0xffff,
            h <= 0xffff,
    ;
    let packed: u32 = ((s << 16) | h).saturating_add(1);
    if packed > PIN_PRIORITY - 1 {
        PIN_PRIORITY - 1
    } else {
        packed
    }
}

/// Score outranks heat: of two predicted experts with scores that fit in sixteen
/// bits, the higher score never gets the lower priority, whatever the heats.
pub proof fn lemma_score_outranks_heat(s1: u32, h1: u32, s2: u32, h2: u32)
    requires
        s1 < s2 <= 0xffff,
    ensures
        prio(s1, h1) <= prio(s2, h2),
{
}

/// What one layer's predictions lead to.
pub struct Emission {
    /// Experts to read.
    pub warms: Vec<u32>,
    /// Experts to hint to the page cache.
    pub hints: Vec<u32>,
}

/// The first `n` candidates that would cost a read, in the predictor's order:
/// not warm, and not computed on a device.
pub open spec fn fresh(cands: Seq<(u32, u32)>, held: Seq<bool>, n: nat) -> Seq<u32>
    decreases n,
{
    if n == 0 {
        seq![]
    } else {
        let head = fresh(cands, held, (n - 1) as nat);
        if held[n - 1] {
            head
        } else {
            head.push(cands[n - 1].0)
        }
    }
}

/// Entries `a..b` of `s`, as far as it has them.
pub open spec fn within<A>(s: Seq<A>, a: int, b: int) -> Seq<A> {
    let lo = if a < s.len() {
        a
    } else {
        s.len() as int
    };
    let hi = if b < s.len() {
        b
    } else {
        s.len() as int
    };
    s.subrange(lo, if hi < lo {
        lo
    } else {
        hi
    })
}

/// The candidates one layer reads and those it hints: breadth is counted over
/// what would cost a read, so a prediction that is warm already takes no slot.
pub open spec fn emission(
    cands: Seq<(u32, u32)>,
    held: Seq<bool>,
    policy: PrefetchPolicy,
    direct: bool,
) -> (Seq<u32>, Seq<u32>) {
    let f = fresh(cands, held, cands.len());
    (
        within(f, 0, policy.warm_paths as int),
        if direct {
            seq![]
        } else {
            within(f, policy.warm_paths as int, policy.warm_paths + policy.hint_paths)
        },
    )
}

/// How many of the first `i` candidates would cost a read.
pub open spec fn cold_before(held: Seq<bool>, i: int) -> nat {
    held.take(i).filter(|h: bool| !h).len()
}

proof fn lemma_cold_step(held: Seq<bool>, n: int)
    requires
        0 <= n < held.len(),
    ensures
        cold_before(held, n + 1) == cold_before(held, n) + if held[n] {
            0int
        } else {
            1
        },
        cold_before(held, 0) == 0,
{
    reveal(Seq::filter);
    assert(held.take(n + 1).drop_last() =~= held.take(n));
    assert(held.take(n + 1).last() == held[n]);
    assert(held.take(0).len() == 0);
}

proof fn lemma_fresh_by_rank(cands: Seq<(u32, u32)>, held: Seq<bool>, n: nat, i: int)
    requires
        held.len() == cands.len(),
        n <= held.len(),
        0 <= i < n,
    ensures
        fresh(cands, held, n).len() == cold_before(held, n as int),
        !held[i] ==> cold_before(held, i) < cold_before(held, n as int) && fresh(
            cands,
            held,
            n,
        )[cold_before(held, i) as int] == cands[i].0,
    decreases n,
{
    let m = (n - 1) as nat;
    lemma_cold_step(held, m as int);
    assert(fresh(cands, held, 0).len() == 0);
    if m > 0 {
        lemma_fresh_by_rank(
            cands,
            held,
            m,
            if i < m {
                i
            } else {
                0
            },
        );
    }
}

/// What a layer that emits reads, candidate by candidate. Of the candidates that
/// would cost a read, the first `warm_paths` in the predictor's order are read,
/// whatever else the policy says, and the next `hint_paths` are hinted unless
/// reads bypass the page cache. A candidate's place is the number of such
/// candidates before it, so what is held takes up no place. Nothing else is read
/// or hinted.
pub proof fn lemma_emission_by_rank(
    cands: Seq<(u32, u32)>,
    held: Seq<bool>,
    policy: PrefetchPolicy,
    direct: bool,
)
    requires
        held.len() == cands.len(),
    ensures
        ({
            let (warms, hints) = emission(cands, held, policy, direct);
            let total = cold_before(held, held.len() as int) as int;
            let (wide, more) = (policy.warm_paths as int, policy.hint_paths as int);
            &&& warms.len() == if total < wide {
                total
            } else {
                wide
            }
            &&& hints.len() == if direct || total <= wide {
                0
            } else if total - wide < more {
                total - wide
            } else {
                more
            }
            &&& forall|i: int|
                #![trigger held[i]]
                0 <= i < held.len() && !held[i] ==> {
                    let rank = cold_before(held, i) as int;
                    &&& rank < total
                    &&& rank < wide ==> warms[rank] == cands[i].0
                    &&& !direct && wide <= rank < wide + more ==> hints[rank - wide] == cands[i].0
                }
        }),
{
    let n = cands.len();
    let f = fresh(cands, held, n);
    if n > 0 {
        lemma_fresh_by_rank(cands, held, n, 0);
    } else {
        assert(held.take(0) =~= held);
        reveal(Seq::filter);
    }
    assert forall|i: int| #![trigger held[i]] 0 <= i < held.len() && !held[i] implies {
        let rank = cold_before(held, i) as int;
        let (wide, more) = (policy.warm_paths as int, policy.hint_paths as int);
        let (warms, hints) = emission(cands, held, policy, direct);
        &&& rank < cold_before(held, held.len() as int)
        &&& rank < wide ==> warms[rank] == cands[i].0
        &&& !direct && wide <= rank < wide + more ==> hints[rank - wide] == cands[i].0
    } by {
        lemma_fresh_by_rank(cands, held, n, i);
    }
}

/// Under a policy as wide as the prediction everything predicted that would cost
/// a read is read, and nothing is left to hint.
pub proof fn lemma_wide_policy_reads_everything(
    cands: Seq<(u32, u32)>,
    held: Seq<bool>,
    policy: PrefetchPolicy,
    direct: bool,
    i: int,
)
    requires
        held.len() == cands.len(),
        policy.warm_paths >= cands.len(),
        0 <= i < cands.len(),
        !held[i],
    ensures
        emission(cands, held, policy, direct).0.contains(cands[i].0),
        emission(cands, held, policy, direct).1.len() == 0,
{
    lemma_emission_by_rank(cands, held, policy, direct);
    lemma_cold_bounded(held, held.len() as int);
    let rank = cold_before(held, i) as int;
    assert(!held[i]);
    assert(emission(cands, held, policy, direct).0[rank] == cands[i].0);
}

proof fn lemma_cold_bounded(held: Seq<bool>, n: int)
    requires
        0 <= n <= held.len(),
    ensures
        cold_before(held, n) <= n,
    decreases n,
{
    if n > 0 {
        lemma_cold_step(held, n - 1);
        lemma_cold_bounded(held, n - 1);
    } else {
        reveal(Seq::filter);
        assert(held.take(0).len() == 0);
    }
}

/// What a layer's predictions lead to. A dense layer predicts nothing, and
/// nothing is started once speculation has stopped paying. Hints are pointless
/// under direct I/O, which bypasses the page cache. `held[i]` says that candidate
/// `i` would cost no read.
pub fn emit_layer(
    layer: usize,
    first_dense: usize,
    still_pays: bool,
    cands: &Vec<(u32, u32)>,
    held: &Vec<bool>,
    policy: &PrefetchPolicy,
    direct: bool,
) -> (em: Emission)
    requires
        held@.len() == cands@.len(),
    ensures
        layer < first_dense || !still_pays ==> em.warms@.len() == 0 && em.hints@.len() == 0,
        layer >= first_dense && still_pays ==> (em.warms@, em.hints@) == emission(
            cands@,
            held@,
            *policy,
            direct,
        ),
        layer >= first_dense && still_pays ==> em.warms@.len() == if cold_before(
            held@,
            held@.len() as int,
        ) < policy.warm_paths {
            cold_before(held@, held@.len() as int) as int
        } else {
            policy.warm_paths as int
        },
        layer >= first_dense && still_pays ==> forall|i: int|
            #![trigger held@[i]]
            0 <= i < held@.len() && !held@[i] && cold_before(held@, i) < policy.warm_paths
                ==> em.warms@[cold_before(held@, i) as int] == cands@[i].0,
{
    let mut warms: Vec<u32> = Vec::new();
    let mut hints: Vec<u32> = Vec::new();
    if layer < first_dense || !still_pays {
        return Emission { warms, hints };
    }
    proof {
        lemma_emission_by_rank(cands@, held@, *policy, direct);
    }
    let cutoff: usize = policy.warm_paths.saturating_add(policy.hint_paths);
    let mut rank: usize = 0;
    let mut i: usize = 0;
    assert(warms@ =~= within(fresh(cands@, held@, 0), 0, policy.warm_paths as int));
    while i < cands.len()
        invariant
            held@.len() == cands@.len(),
            i <= cands@.len(),
            rank <= i,
            cutoff == if policy.warm_paths + policy.hint_paths > usize::MAX {
                usize::MAX as int
            } else {
                policy.warm_paths + policy.hint_paths
            },
            rank == fresh(cands@, held@, i as nat).len(),
            warms@ == within(fresh(cands@, held@, i as nat), 0, policy.warm_paths as int),
            direct ==> hints@.len() == 0,
            !direct ==> hints@ == within(
                fresh(cands@, held@, i as nat),
                policy.warm_paths as int,
                policy.warm_paths + policy.hint_paths,
            ),
        decreases cands@.len() - i,
    {
        let ghost f = fresh(cands@, held@, i as nat);
        let ghost g = fresh(cands@, held@, (i + 1) as nat);
        assert(cands.len() == cands@.len());
        if !held[i] {
            assert(g == f.push(cands@[i as int].0));
            if rank < policy.warm_paths {
                warms.push(cands[i].0);
            } else if rank < cutoff && !direct {
                hints.push(cands[i].0);
            }
            rank = rank + 1;
        } else {
            assert(g == f);
        }
        assert(warms@ =~= within(g, 0, policy.warm_paths as int));
        assert(!direct ==> hints@ =~= within(
            g,
            policy.warm_paths as int,
            policy.warm_paths + policy.hint_paths,
        ));
        i = i + 1;
    }
    Emission { warms, hints }
}

/// The layers a sweep over the whole stack emits for: every sparse one, in
/// order, and none unless there is a lane to read on, a history to predict from
/// and a cache to read into.
pub fn swept_layers(
    lane: bool,
    history: bool,
    cache: bool,
    first_dense: usize,
    n_layers: usize,
) -> (out: Vec<usize>)
    ensures
        out@ == Seq::new(
            (if lane && history && cache && first_dense < n_layers {
                n_layers - first_dense
            } else {
                0
            }) as nat,
            |i: int| (first_dense + i) as usize,
        ),
{
    let mut out: Vec<usize> = Vec::new();
    if !lane || !history || !cache {
        return out;
    }
    let mut l: usize = first_dense;
    while l < n_layers
        invariant
            first_dense <= l,
            l > n_layers ==> l == first_dense,
            out@ == Seq::new((l - first_dense) as nat, |i: int| (first_dense + i) as usize),
        decreases n_layers - l,
    {
        out.push(l);
        l = l + 1;
        assert(out@ =~= Seq::new((l - first_dense) as nat, |i: int| (first_dense + i) as usize));
    }
    out
}

/// What a sweep over the whole stack does, in this order.
pub struct SeqSweep {
    /// The layers to emit for.
    pub layers: Vec<usize>,
    /// Protect afterwards what the same history predicts.
    pub protect: bool,
}

/// The sweep for one sequence, from its own history: its predictions are emitted
/// for every sparse layer, and where protection is on they are then protected
/// from eviction. Without a lane to read on and a cache to read into nothing
/// happens.
pub fn enqueue_seq_prefetch(
    lane: bool,
    cache: bool,
    protect: bool,
    first_dense: usize,
    n_layers: usize,
) -> (sweep: SeqSweep)
    ensures
        sweep.layers@ == Seq::new(
            (if lane && cache && first_dense < n_layers {
                n_layers - first_dense
            } else {
                0
            }) as nat,
            |i: int| (first_dense + i) as usize,
        ),
        sweep.protect == (lane && cache && protect),
{
    SeqSweep {
        layers: swept_layers(lane, true, cache, first_dense, n_layers),
        protect: lane && cache && protect,
    }
}

/// How many experts the router look-ahead has streamed.
pub struct LookaheadCount {
    /// Experts streamed.
    pub issued: u64,
}

/// Experts the router look-ahead has streamed so far.
pub fn lookahead_issued(count: &LookaheadCount) -> (n: u64)
    ensures
        n == count.issued,
{
    count.issued
}

impl LookaheadCount {
    /// Nothing streamed yet.
    pub fn new() -> (c: LookaheadCount)
        ensures
            c.issued == 0,
    {
        LookaheadCount { issued: 0 }
    }

    /// Counts a batch that was resolved and sent.
    pub fn note(&mut self, batch: usize)
        ensures
            final(self).issued == (if old(self).issued + batch as u64 > u64::MAX {
                old(self).issued + batch as u64 - 0x1_0000_0000_0000_0000
            } else {
                old(self).issued + batch as u64
            }),
    {
        self.issued = self.issued.wrapping_add(batch as u64);
    }
}

/// Whether layer `next` can be asked ahead at all: there is such a layer, it
/// routes, there is a whole row to show it, and a read may be spent on it.
pub fn may_ask(width: usize, next: usize, sparse: &Vec<bool>, first_dense: usize, values: usize, hidden: usize) -> (b:
    bool)
    ensures
        b == (width > 0 && next < sparse@.len() && next >= first_dense && values >= hidden
            && sparse@[next as int]),
{
    width > 0 && next < sparse.len() && next >= first_dense && values >= hidden && sparse[next]
}

/// How many of a router's ranks the look-ahead scans: a routing decision's own
/// width, or the reads it may start where those are more.
pub fn scan_width(width: usize, topk: usize) -> (n: usize)
    ensures
        n == if width > topk {
            width
        } else {
            topk
        },
{
    if width > topk {
        width
    } else {
        topk
    }
}

/// How many rows a hidden state of `values` numbers holds, and at least one.
pub fn rows_in(values: usize, hidden: usize) -> (n: usize)
    requires
        hidden > 0,
    ensures
        n == if values < hidden {
            1
        } else {
            values / hidden
        },
{
    let n: usize = values / hidden;
    proof {
        assert(values < hidden ==> values / hidden == 0) by (nonlinear_arith)
            requires
                hidden > 0,
        ;
        assert(values >= hidden ==> values / hidden >= 1) by (nonlinear_arith)
            requires
                hidden > 0,
        ;
    }
    if n > 1 {
        n
    } else {
        1
    }
}

/// `acc` with the first `n` experts of `row` that are real and not in it yet.
pub open spec fn joined_row(acc: Seq<i32>, row: Seq<i32>, n: nat) -> Seq<i32>
    decreases n,
{
    if n == 0 {
        acc
    } else {
        let head = joined_row(acc, row, (n - 1) as nat);
        if row[n - 1] < 0 || head.contains(row[n - 1]) {
            head
        } else {
            head.push(row[n - 1])
        }
    }
}

/// The first `n` rows' experts, each once, in the order they first appear.
pub open spec fn joined_rows(rows: Seq<Vec<i32>>, n: nat) -> Seq<i32>
    decreases n,
{
    if n == 0 {
        seq![]
    } else {
        joined_row(joined_rows(rows, (n - 1) as nat), rows[n - 1]@, rows[n - 1]@.len())
    }
}

fn among(v: &Vec<i32>, e: i32) -> (b: bool)
    ensures
        b == v@.contains(e),
{
    let mut i: usize = 0;
    while i < v.len()
        invariant
            i <= v@.len(),
            forall|j: int| 0 <= j < i ==> v@[j] != e,
        decreases v@.len() - i,
    {
        if v[i] == e {
            assert(v@[i as int] == e);
            return true;
        }
        i = i + 1;
    }
    false
}

/// Unites what each row's router ranked: every expert once, in row order.
pub fn router_ranks_for_batch(rows: &Vec<Vec<i32>>) -> (out: Vec<i32>)
    ensures
        out@ == joined_rows(rows@, rows@.len()),
{
    let mut out: Vec<i32> = Vec::new();
    let mut s: usize = 0;
    while s < rows.len()
        invariant
            s <= rows@.len(),
            out@ == joined_rows(rows@, s as nat),
        decreases rows@.len() - s,
    {
        let ghost acc = out@;
        let row = &rows[s];
        let mut i: usize = 0;
        while i < row.len()
            invariant
                i <= row@.len(),
                out@ == joined_row(acc, row@, i as nat),
            decreases row@.len() - i,
        {
            let e: i32 = row[i];
            if e >= 0 && !among(&out, e) {
                out.push(e);
            }
            i = i + 1;
        }
        s = s + 1;
    }
    out
}

proof fn lemma_joined_row(acc: Seq<i32>, row: Seq<i32>, n: nat)
    requires
        acc.no_duplicates(),
        forall|i: int| 0 <= i < acc.len() ==> #[trigger] acc[i] >= 0,
        n <= row.len(),
    ensures
        joined_row(acc, row, n).no_duplicates(),
        forall|i: int| 0 <= i < joined_row(acc, row, n).len() ==> #[trigger] joined_row(acc, row, n)[i] >= 0,
        forall|e: i32| acc.contains(e) ==> #[trigger] joined_row(acc, row, n).contains(e),
        forall|i: int|
            0 <= i < n && #[trigger] row[i] >= 0 ==> joined_row(acc, row, n).contains(row[i]),
    decreases n,
{
    if n > 0 {
        lemma_joined_row(acc, row, (n - 1) as nat);
        let head = joined_row(acc, row, (n - 1) as nat);
        let out = joined_row(acc, row, n);
        let e = row[n - 1];
        if e >= 0 && !head.contains(e) {
            assert(out == head.push(e));
            assert(out[out.len() - 1] == e);
            assert forall|x: i32| head.contains(x) implies #[trigger] out.contains(x) by {
                let k = choose|k: int| 0 <= k < head.len() && head[k] == x;
                assert(out[k] == x);
            }
        }
        assert forall|i: int| 0 <= i < n && #[trigger] row[i] >= 0 implies out.contains(row[i]) by {
            if i < n - 1 {
                assert(head.contains(row[i]));
            }
        }
    }
}

/// A batch's look-ahead names every real expert any of its rows ranked, and each
/// of them once.
pub proof fn lemma_union_covers_rows(rows: Seq<Vec<i32>>, n: nat)
    requires
        n <= rows.len(),
    ensures
        joined_rows(rows, n).no_duplicates(),
        forall|i: int| 0 <= i < joined_rows(rows, n).len() ==> #[trigger] joined_rows(rows, n)[i] >= 0,
        forall|s: int, i: int|
            0 <= s < n && 0 <= i < rows[s]@.len() && #[trigger] rows[s]@[i] >= 0 ==> joined_rows(
                rows,
                n,
            ).contains(rows[s]@[i]),
    decreases n,
{
    if n > 0 {
        lemma_union_covers_rows(rows, (n - 1) as nat);
        let acc = joined_rows(rows, (n - 1) as nat);
        lemma_joined_row(acc, rows[n - 1]@, rows[n - 1]@.len());
    }
}

/// The ranks among the first `n` that would cost a read, in order.
pub open spec fn costly(ranks: Seq<i32>, held: Seq<bool>, n: nat) -> Seq<i32>
    decreases n,
{
    if n == 0 {
        seq![]
    } else {
        let head = costly(ranks, held, (n - 1) as nat);
        if ranks[n - 1] < 0 || held[n - 1] {
            head
        } else {
            head.push(ranks[n - 1])
        }
    }
}

proof fn lemma_costly_extends(ranks: Seq<i32>, held: Seq<bool>, m: nat, n: nat)
    requires
        m <= n <= ranks.len(),
        held.len() == ranks.len(),
    ensures
        costly(ranks, held, m).len() <= costly(ranks, held, n).len(),
        forall|i: int|
            0 <= i < costly(ranks, held, m).len() ==> #[trigger] costly(ranks, held, m)[i] == costly(
                ranks,
                held,
                n,
            )[i],
    decreases n,
{
    if m < n {
        lemma_costly_extends(ranks, held, m, (n - 1) as nat);
    }
}

/// The experts a router asked ahead streams: the first `width` of its ranks that
/// would cost a read. Warm and device-held ones are dropped after ranking, so
/// they take none of the window. `held[i]` says that rank `i` would cost none.
pub fn lookahead_reads(ranks: &Vec<i32>, held: &Vec<bool>, width: usize) -> (out: Vec<i32>)
    requires
        held@.len() == ranks@.len(),
    ensures
        out@ == within(costly(ranks@, held@, ranks@.len()), 0, width as int),
{
    let mut out: Vec<i32> = Vec::new();
    let mut i: usize = 0;
    while i < ranks.len() && out.len() < width
        invariant
            held@.len() == ranks@.len(),
            i <= ranks@.len(),
            out@.len() <= width,
            out@ == costly(ranks@, held@, i as nat),
        decreases ranks@.len() - i,
    {
        if ranks[i] >= 0 && !held[i] {
            out.push(ranks[i]);
        }
        i = i + 1;
    }
    proof {
        lemma_costly_extends(ranks@, held@, i as nat, ranks@.len());
        assert(out@ =~= within(costly(ranks@, held@, ranks@.len()), 0, width as int));
    }
    out
}

/// An expert predicted for a layer.
#[derive(Clone, Copy, Debug)]
pub struct Predicted {
    /// The expert.
    pub expert: u32,
    /// The predictor's score.
    pub score: u32,
    /// How hot the active topic finds it, where that topic is warm.
    pub topic: Option<u32>,
}

/// Entry `layer * n_experts + expert` of a heat table, zero past its end.
pub open spec fn heat_at(heat: Option<Seq<u32>>, n_experts: int, layer: int, expert: int) -> u32 {
    match heat {
        Some(h) => if layer * n_experts + expert < h.len() {
            h[layer * n_experts + expert]
        } else {
            0
        },
        None => 0,
    }
}

/// The heat that breaks ties for a predicted expert: the topic's own where that
/// topic is warm, everyone's otherwise.
pub open spec fn tie(p: Predicted, heat: Option<Seq<u32>>, n_experts: int, layer: int) -> u32 {
    match p.topic {
        Some(h) => h,
        None => heat_at(heat, n_experts, layer, p.expert as int),
    }
}

/// The protections of the first `n` predictions of a layer.
pub open spec fn layer_entries(
    predicted: Seq<Predicted>,
    heat: Option<Seq<u32>>,
    n_experts: int,
    layer: int,
    n: nat,
) -> Seq<(ExpertKey, u32)>
    decreases n,
{
    if n == 0 {
        seq![]
    } else {
        let p = predicted[n - 1];
        layer_entries(predicted, heat, n_experts, layer, (n - 1) as nat).push(
            ((layer as u32, p.expert), prio(p.score, tie(p, heat, n_experts, layer)) as u32),
        )
    }
}

/// The protections of layers `first..last`.
pub open spec fn entries(
    predicted: Seq<Vec<Predicted>>,
    heat: Option<Seq<u32>>,
    n_experts: int,
    first: int,
    last: int,
) -> Seq<(ExpertKey, u32)>
    decreases last - first,
{
    if last <= first {
        seq![]
    } else {
        entries(predicted, heat, n_experts, first, last - 1) + layer_entries(
            predicted[last - 1]@,
            heat,
            n_experts,
            last - 1,
            predicted[last - 1]@.len(),
        )
    }
}

/// An optional table's entries.
pub open spec fn table(heat: Option<&Vec<u32>>) -> Option<Seq<u32>> {
    match heat {
        Some(h) => Some(h@),
        None => None,
    }
}

/// Every predicted expert's heat has an index.
pub open spec fn indexable(predicted: Seq<Vec<Predicted>>, n_experts: int) -> bool {
    forall|l: int, i: int|
        0 <= l < predicted.len() && 0 <= i < predicted[l]@.len() ==> l * n_experts + (
        #[trigger] predicted[l]@[i]).expert <= usize::MAX
}

/// The protections that follow from what is predicted for every layer from the
/// first sparse one on: only predicted experts are listed, so every other is
/// evicted first.
pub fn protect_from(
    predicted: &Vec<Vec<Predicted>>,
    first_dense: usize,
    heat: Option<&Vec<u32>>,
    n_experts: usize,
) -> (out: Vec<(ExpertKey, u32)>)
    requires
        predicted@.len() <= u32::MAX,
        indexable(predicted@, n_experts as int),
    ensures
        out@ == entries(
            predicted@,
            table(heat),
            n_experts as int,
            first_dense as int,
            predicted@.len() as int,
        ),
{
    let mut out: Vec<(ExpertKey, u32)> = Vec::new();
    let mut l: usize = first_dense;
    while l < predicted.len()
        invariant
            first_dense <= l,
            l <= predicted@.len() || out@.len() == 0,
            l > predicted@.len() ==> first_dense == l,
            predicted@.len() <= u32::MAX,
            indexable(predicted@, n_experts as int),
            out@ == entries(
                predicted@,
                table(heat),
                n_experts as int,
                first_dense as int,
                l as int,
            ),
        decreases predicted@.len() - l,
    {
        let row = &predicted[l];
        let ghost before = out@;
        let mut i: usize = 0;
        while i < row.len()
            invariant
                i <= row@.len(),
                l < predicted@.len() <= u32::MAX,
                row@ == predicted@[l as int]@,
                indexable(predicted@, n_experts as int),
                out@ == before + layer_entries(
                    row@,
                    table(heat),
                    n_experts as int,
                    l as int,
                    i as nat,
                ),
            decreases row@.len() - i,
        {
            let p: Predicted = row[i];
            let heat_tie: u32 = match p.topic {
                Some(h) => h,
                None => match heat {
                    Some(h) => {
                        assert(predicted@[l as int]@[i as int].expert == p.expert);
                        proof {
                            assert(l * n_experts >= 0) by (nonlinear_arith)
                                requires
                                    l >= 0,
                                    n_experts >= 0,
                            ;
                        }
                        let at: usize = l * n_experts + p.expert as usize;
                        if at < h.len() {
                            h[at]
                        } else {
                            0
                        }
                    },
                    None => 0,
                },
            };
            out.push(((l as u32, p.expert), pack_prio(p.score, heat_tie)));
            i = i + 1;
            assert(out@ =~= before + layer_entries(
                row@,
                table(heat),
                n_experts as int,
                l as int,
                i as nat,
            ));
        }
        l = l + 1;
    }
    out
}

/// Whether the co-activation snapshot is rebuilt after a frame: every 64.
pub fn affinity_due(frames: u64) -> (b: bool)
    ensures
        b == (frames % 64 == 0),
{
    frames % 64 == 0
}

/// Prefetching pays where nothing is demanded of it, before enough was read to
/// tell, and where the part of the reads that was used is no smaller than the
/// percentage demanded.
pub proof fn lemma_when_prefetch_pays(g: YieldGuard, issued: u64, used: u64)
    ensures
        g.min_yield == 0 ==> pays(g, issued, used),
        issued < g.min_reads ==> pays(g, issued, used),
        used * 100 >= issued * g.min_yield ==> pays(g, issued, used),
        g.min_yield > 0 && issued >= g.min_reads && used * 100 < issued * g.min_yield && used * 100
            < u64::MAX ==> !pays(g, issued, used),
{
}

/// An offer is stale once more rounds than the slack have passed since it was
/// stamped, and not before. With dropping switched off nothing goes stale, and a
/// slack that is not set is one round.
pub proof fn lemma_when_offers_go_stale(now: u64, stamp: u64, slack: u64, n: nat)
    requires
        n <= u64::MAX,
    ensures
        stale(now, stamp, slack) <==> now > stamp + slack,
        slack_of(Some("0"@), None) == u64::MAX,
        slack_of(Some("false"@), Some(crate::text::decimal(n))) == u64::MAX,
        slack_of(None, None) == 1,
        slack_of(None, Some(crate::text::decimal(n))) == n,
        slack_of(Some("1"@), Some(crate::text::decimal(n))) == n,
{
    knobs::lemma_switch_spellings("1"@);
    knobs::lemma_numbers_of_settings(seq![], n, seq![], 1, u64::MAX as int);
    assert(seq![] + crate::text::decimal(n) + seq![] =~= crate::text::decimal(n));
}

/// Priorities stay below that of a pin. Of two experts with one score the hotter
/// comes first and equal ones are level, and scores and heats past sixteen bits
/// count as the largest that fit.
pub proof fn lemma_heat_breaks_ties(s: u32, h1: u32, h2: u32)
    ensures
        1 <= prio(s, h1) < PIN_PRIORITY,
        h1 <= h2 ==> prio(s, h1) <= prio(s, h2),
        s < 0xffff && h1 < h2 <= 0xffff ==> prio(s, h1) < prio(s, h2),
        s < 0xffff && h1 <= h2 <= 0xffff ==> prio(s, h2) - prio(s, h1) == h2 - h1,
        s >= 0xffff ==> prio(s, h1) == prio(0xffff, h1),
        h1 >= 0xffff ==> prio(s, h1) == prio(s, 0xffff),
        prio(0, 0) == 1,
        s < 0xffff ==> prio((s + 1) as u32, 0) == prio(s, 0xffff) + 1,
{
}

/// A batch's look-ahead names nothing that no row ranked, and starts with what
/// the rows before the last one named, in the same order.
pub proof fn lemma_union_invents_nothing(rows: Seq<Vec<i32>>, n: nat, e: i32)
    requires
        n <= rows.len(),
    ensures
        joined_rows(rows, n).contains(e) <==> e >= 0 && exists|s: int, i: int|
            0 <= s < n && 0 <= i < rows[s]@.len() && #[trigger] rows[s]@[i] == e,
        n > 0 ==> joined_rows(rows, (n - 1) as nat).is_prefix_of(joined_rows(rows, n)),
    decreases n,
{
    lemma_union_covers_rows(rows, n);
    let all = joined_rows(rows, n);
    if n > 0 {
        let acc = joined_rows(rows, (n - 1) as nat);
        lemma_union_invents_nothing(rows, (n - 1) as nat, e);
        lemma_row_adds_its_own(acc, rows[n - 1]@, rows[n - 1]@.len(), e);
        if all.contains(e) {
            let k = choose|k: int| 0 <= k < all.len() && all[k] == e;
            assert(all[k] >= 0);
            if acc.contains(e) {
                let (s, i) = choose|s: int, i: int|
                    0 <= s < n - 1 && 0 <= i < rows[s]@.len() && #[trigger] rows[s]@[i] == e;
                assert(rows[s]@[i] == e);
            } else {
                let i = choose|i: int| 0 <= i < rows[n - 1]@.len() && #[trigger] rows[n - 1]@[i] == e;
                assert(rows[n - 1]@[i] == e);
            }
        }
    } else {
        assert(all =~= seq![]);
    }
}

proof fn lemma_row_adds_its_own(acc: Seq<i32>, row: Seq<i32>, n: nat, e: i32)
    requires
        n <= row.len(),
    ensures
        acc.is_prefix_of(joined_row(acc, row, n)),
        joined_row(acc, row, n).contains(e) ==> acc.contains(e) || exists|i: int|
            0 <= i < n && #[trigger] row[i] == e,
    decreases n,
{
    if n > 0 {
        lemma_row_adds_its_own(acc, row, (n - 1) as nat, e);
        let head = joined_row(acc, row, (n - 1) as nat);
        let out = joined_row(acc, row, n);
        if out != head {
            assert(out == head.push(row[n - 1]));
            if out.contains(e) {
                let k = choose|k: int| 0 <= k < out.len() && out[k] == e;
                if k < head.len() {
                    assert(head[k] == e);
                    assert(head.contains(e));
                } else {
                    assert(row[n - 1] == e);
                }
            }
        }
    }
}

/// The experts a row ranks later follow those it ranks earlier: of two that the
/// rows before did not name, the one ranked first is named first.
pub proof fn lemma_union_keeps_a_rows_order(acc: Seq<i32>, row: Seq<i32>, i: int, j: int)
    requires
        acc.no_duplicates(),
        forall|k: int| 0 <= k < acc.len() ==> #[trigger] acc[k] >= 0,
        row.no_duplicates(),
        0 <= i < j < row.len(),
        row[i] >= 0,
        row[j] >= 0,
        !acc.contains(row[j]),
    ensures
        joined_row(acc, row, row.len()).index_of(row[i]) < joined_row(
            acc,
            row,
            row.len(),
        ).index_of(row[j]),
{
    let n = row.len();
    let out = joined_row(acc, row, n);
    let head = joined_row(acc, row, j as nat);
    lemma_joined_row(acc, row, n);
    lemma_joined_row(acc, row, j as nat);
    lemma_row_adds_its_own(acc, row, j as nat, row[j]);
    lemma_joined_row_extends(acc, row, j as nat, n);
    assert(head.contains(row[i]));
    assert(!head.contains(row[j]));
    let a = choose|a: int| 0 <= a < head.len() && head[a] == row[i];
    assert(out[a] == row[i]);
    assert(out.contains(row[j]));
    assert(out.contains(row[i]));
    let x = out.index_of(row[i]);
    let y = out.index_of(row[j]);
    assert(0 <= x < out.len() && out[x] == row[i]);
    assert(0 <= y < out.len() && out[y] == row[j]);
    assert(x == a);
    if y < head.len() {
        assert(head[y] == row[j]);
    }
}

proof fn lemma_joined_row_extends(acc: Seq<i32>, row: Seq<i32>, m: nat, n: nat)
    requires
        m <= n <= row.len(),
    ensures
        joined_row(acc, row, m).is_prefix_of(joined_row(acc, row, n)),
    decreases n,
{
    if m < n {
        lemma_joined_row_extends(acc, row, m, (n - 1) as nat);
    }
}

/// Ranks that would cost a read are kept, and only they: a rank counts where it
/// names an expert that is not held, and stands after exactly those before it
/// that count too.
pub proof fn lemma_costly_by_rank(ranks: Seq<i32>, held: Seq<bool>, n: nat, i: int)
    requires
        n <= ranks.len(),
        n <= held.len(),
        0 <= i < n,
    ensures
        ({
            let counts = Seq::new(n, |k: int| ranks[k] >= 0 && !held[k]);
            let out = costly(ranks, held, n);
            let before = counts.take(i).filter(|c: bool| c).len() as int;
            &&& out.len() == counts.filter(|c: bool| c).len()
            &&& counts[i] ==> before < out.len() && out[before] == ranks[i]
        }),
    decreases n,
{
    reveal(Seq::filter);
    let counts = Seq::new(n, |k: int| ranks[k] >= 0 && !held[k]);
    let m = (n - 1) as nat;
    let short = Seq::new(m, |k: int| ranks[k] >= 0 && !held[k]);
    assert(counts.drop_last() =~= short);
    if m > 0 {
        lemma_costly_by_rank(ranks, held, m, if i < m {
            i
        } else {
            0
        });
    } else {
        assert(short.filter(|c: bool| c).len() == 0);
        assert(costly(ranks, held, 0).len() == 0);
    }
    assert(counts.take(i) =~= short.take(i));
    if i == m {
        assert(short.take(i) =~= short);
    }
}

/// Every prediction of every layer gets one entry, under its layer and expert, at
/// the priority of its score, ties broken by the topic's heat where there is one
/// and by the heat table's otherwise. Layers follow each other, and a layer's
/// predictions keep their order.
pub proof fn lemma_every_prediction_has_its_entry(
    predicted: Seq<Vec<Predicted>>,
    heat: Seq<u32>,
    n_experts: int,
    first: int,
    last: int,
    l: int,
    i: int,
)
    requires
        0 <= first <= l < last <= predicted.len(),
        last <= u32::MAX,
        0 <= i < predicted[l]@.len(),
        0 <= n_experts,
    ensures
        ({
            let p = predicted[l]@[i];
            let all = entries(predicted, Some(heat), n_experts, first, last);
            let bare = entries(predicted, None, n_experts, first, last);
            let start = entries(predicted, Some(heat), n_experts, first, l).len();
            let at = l * n_experts + p.expert;
            &&& start + predicted[l]@.len() == entries(
                predicted,
                Some(heat),
                n_experts,
                first,
                l + 1,
            ).len() <= all.len()
            &&& all.len() == bare.len()
            &&& all[start + i].0 == (l as u32, p.expert)
            &&& bare[start + i].0 == (l as u32, p.expert)
            &&& p.topic matches Some(h) ==> all[start + i].1 == prio(p.score, h) && bare[start
                + i].1 == prio(p.score, h)
            &&& p.topic is None && at < heat.len() ==> all[start + i].1 == prio(p.score, heat[at])
            &&& p.topic is None && at >= heat.len() ==> all[start + i].1 == prio(p.score, 0)
            &&& p.topic is None ==> bare[start + i].1 == prio(p.score, 0)
        }),
        entries(predicted, Some(heat), n_experts, first, first).len() == 0,
    decreases last - l,
{
    lemma_entries_len(predicted, Some(heat), None, n_experts, first, l);
    lemma_entries_grow(predicted, Some(heat), n_experts, first, l + 1, last);
    lemma_entries_grow(predicted, None, n_experts, first, l + 1, last);
    lemma_entries_len(predicted, Some(heat), None, n_experts, first, last);
    lemma_entries_len(predicted, Some(heat), None, n_experts, first, l + 1);
    let n = predicted[l]@.len();
    lemma_layer_entries_by_position(predicted[l]@, Some(heat), n_experts, l, n);
    lemma_layer_entries_by_position(predicted[l]@, None, n_experts, l, n);
    let start = entries(predicted, Some(heat), n_experts, first, l).len();
    assert(entries(predicted, Some(heat), n_experts, first, l + 1)[start + i] == layer_entries(
        predicted[l]@,
        Some(heat),
        n_experts,
        l,
        n,
    )[i]);
    assert(entries(predicted, None, n_experts, first, l + 1)[start + i] == layer_entries(
        predicted[l]@,
        None,
        n_experts,
        l,
        n,
    )[i]);
}

proof fn lemma_layer_entries_by_position(
    predicted: Seq<Predicted>,
    heat: Option<Seq<u32>>,
    n_experts: int,
    layer: int,
    n: nat,
)
    ensures
        layer_entries(predicted, heat, n_experts, layer, n).len() == n,
        forall|i: int|
            0 <= i < n ==> #[trigger] layer_entries(predicted, heat, n_experts, layer, n)[i] == (
                (layer as u32, predicted[i].expert),
                prio(predicted[i].score, tie(predicted[i], heat, n_experts, layer)) as u32,
            ),
    decreases n,
{
    if n > 0 {
        lemma_layer_entries_by_position(predicted, heat, n_experts, layer, (n - 1) as nat);
    }
}

proof fn lemma_entries_len(
    predicted: Seq<Vec<Predicted>>,
    a: Option<Seq<u32>>,
    b: Option<Seq<u32>>,
    n_experts: int,
    first: int,
    last: int,
)
    ensures
        entries(predicted, a, n_experts, first, last).len() == entries(
            predicted,
            b,
            n_experts,
            first,
            last,
        ).len(),
    decreases last - first,
{
    if last > first {
        lemma_entries_len(predicted, a, b, n_experts, first, last - 1);
        let l = last - 1;
        lemma_layer_entries_by_position(predicted[l]@, a, n_experts, l, predicted[l]@.len());
        lemma_layer_entries_by_position(predicted[l]@, b, n_experts, l, predicted[l]@.len());
    }
}

proof fn lemma_entries_grow(
    predicted: Seq<Vec<Predicted>>,
    heat: Option<Seq<u32>>,
    n_experts: int,
    first: int,
    m: int,
    last: int,
)
    requires
        first <= m <= last,
    ensures
        entries(predicted, heat, n_experts, first, m).is_prefix_of(
            entries(predicted, heat, n_experts, first, last),
        ),
    decreases last - m,
{
    if m < last {
        lemma_entries_grow(predicted, heat, n_experts, first, m, last - 1);
    }
}

} // verus!
