//! A model between forwards: its shape, its resident cache, and what it carries
//! along to pace and report itself.

use vstd::prelude::*;

use crate::cfg::Arch;
use crate::cfg::Cfg;
use crate::decode;
use crate::decode::Mode;
use crate::governor;
use crate::governor::GovernorState;
use crate::governor::IowqCap;
use crate::governor::LaneSample;
use crate::governor::Pacer;
use crate::knobs;
use crate::knobs::KvDtype;
use crate::predeval;
use crate::predeval::ArmReport;
use crate::predeval::PredictEval;
use crate::predeval::Separation;
use crate::prefetch::ExpertKey;
use crate::prefetch::PrefetchPolicy;
use crate::prefetch::SweepClock;
use crate::prefetch::TokenClass;
use crate::reports;
use crate::reports::Flips;
use crate::reports::LedgerInput;
use crate::seqkv;
use crate::seqkv::SeqKv;
use crate::stack::Refinement;
use crate::text;

verus! {

/// What the expert cache has counted so far.
#[derive(Clone, Copy, Debug, PartialEq, Eq, Structural)]
pub struct CacheCounters {
    /// Hits.
    pub hits: u64,
    /// Misses, however they were resolved.
    pub misses: u64,
    /// Reads that went to disk.
    pub disk_reads: u64,
    /// Reads started ahead of time.
    pub prefetch_reads: u64,
    /// Of those, hit later.
    pub prefetch_used: u64,
    /// Of those, evicted unused.
    pub prefetch_wasted: u64,
    /// Speculative reads dropped unread.
    pub stale_dropped: u64,
    /// Experts hinted to the page cache.
    pub fadvise_hints: u64,
    /// Speculative reads that differed when read again.
    pub verify_mismatch: u64,
    /// Slots held.
    pub slots: usize,
    /// Bytes held.
    pub used_bytes: usize,
    /// Bytes it may hold.
    pub budget: usize,
    /// Bytes held by prefetched experts nothing has hit.
    pub speculative_bytes: usize,
    /// Slots held by them.
    pub speculative_slots: u64,
}

/// What a model is built from.
pub struct ModelParts {
    /// Its dimensions.
    pub cfg: Cfg,
    /// The element type of its cache.
    pub dtype: KvDtype,
    /// Its worker count.
    pub workers: usize,
    /// Whether it has a draft head.
    pub mtp: bool,
    /// The sweep clock.
    pub sweep: SweepClock,
    /// How much is prefetched.
    pub policy: PrefetchPolicy,
    /// Bytes one token's routing touches; zero while experts are resident.
    pub per_token_bytes: u64,
    /// Whether predicted experts are protected.
    pub protect: bool,
    /// Whether routing history is kept.
    pub history: bool,
    /// The predictor scoreboard.
    pub eval: Option<PredictEval>,
}

/// A model between forwards.
pub struct Model {
    /// Its dimensions.
    pub cfg: Cfg,
    /// The element type of its cache.
    pub dtype: KvDtype,
    /// The cache of its own sequence.
    pub kv: SeqKv,
    /// How it paces itself.
    pub pacer: Pacer,
    /// The sensor governors.
    pub governor: GovernorState,
    /// The sweep clock.
    pub sweep: SweepClock,
    /// Rows forwarded.
    pub rows: u64,
    /// Whether it has a draft head.
    pub mtp: bool,
    /// The kind of text it works on.
    pub class: TokenClass,
    /// How much is prefetched.
    pub policy: PrefetchPolicy,
    /// The tuner's prefetch distance, where there is a tuner.
    pub tuner: Option<usize>,
    /// Bytes one token's routing touches.
    pub per_token_bytes: u64,
    /// Whether predicted experts are protected.
    pub protect: bool,
    /// The predictor scoreboard.
    pub eval: Option<PredictEval>,
    /// Each layer's recent routed sets, newest last, where history is kept.
    pub history: Option<Vec<Vec<Vec<i32>>>>,
    /// The eviction priorities of protected experts.
    pub priorities: Vec<(ExpertKey, u32)>,
    /// How often the current token was refined.
    pub refinement: Refinement,
    /// What its expert cache has counted, where it has one.
    pub cache: Option<CacheCounters>,
    /// Landing buffers in use, per ring.
    pub slabs: Vec<usize>,
}

/// Which predictor a setting forces.
#[derive(Clone, Copy, Debug, PartialEq, Eq, Structural)]
pub enum PredictorOverride {
    /// The momentum vote.
    Momentum,
    /// The standing predictor, with recency trusted on a phase shift.
    PhaseAware,
}

/// A history of `n_layers` layers with nothing in it.
pub open spec fn blank(history: Seq<Vec<Vec<i32>>>, n_layers: int) -> bool {
    &&& history.len() == n_layers
    &&& forall|l: int| 0 <= l < history.len() ==> (#[trigger] history[l])@.len() == 0
}

fn blank_history(n_layers: usize) -> (h: Vec<Vec<Vec<i32>>>)
    ensures
        blank(h@, n_layers as int),
{
    let mut h: Vec<Vec<Vec<i32>>> = Vec::new();
    let mut l: usize = 0;
    while l < n_layers
        invariant
            l <= n_layers,
            blank(h@, l as int),
        decreases n_layers - l,
    {
        h.push(Vec::new());
        l = l + 1;
    }
    h
}

impl Model {
    /// The scoreboard is sound, and the cache and the history belong to a model
    /// of this shape.
    pub open spec fn wf(&self) -> bool {
        &&& self.kv.wf()
        &&& self.kv.caches().len() == self.cfg.n_layers
        &&& self.history is Some ==> self.history->0@.len() == self.cfg.n_layers
        &&& self.pacer.wf()
        &&& self.eval is Some ==> self.eval->0.wf()
    }

    /// A model that has forwarded nothing.
    pub fn new(parts: ModelParts) -> (m: Model)
        requires
            parts.workers < i64::MAX,
            parts.eval is Some ==> parts.eval->0.wf(),
        ensures
            m.wf(),
            m.cfg == parts.cfg,
            m.dtype == parts.dtype,
            m.kv.empty_for(parts.cfg, parts.dtype),
            m.pacer.built() == parts.workers,
            m.pacer.in_force() == parts.workers,
            m.pacer.count() == 0,
            m.pacer.distance() == 0,
            !m.pacer.fresh(),
            m.pacer.in_cap() is None,
            m.pacer.latest() == governor::idle(),
            m.pacer.sums() == governor::idle(),
            m.governor.tick == 0,
            m.governor.last_probe == 0,
            m.governor.base_workers == parts.workers,
            m.sweep == parts.sweep,
            m.rows == 0,
            m.mtp == parts.mtp,
            m.class == TokenClass::Prose,
            m.policy == parts.policy,
            m.tuner is None,
            m.per_token_bytes == parts.per_token_bytes,
            m.protect == parts.protect,
            m.eval == parts.eval,
            m.history is Some <==> parts.history,
            m.history is Some ==> blank(m.history->0@, parts.cfg.n_layers as int),
            m.priorities@.len() == 0,
            m.refinement.depth == 0,
            m.cache is None,
            m.slabs@.len() == 0,
    {
        let kv = SeqKv::with_dtype(&parts.cfg, parts.dtype);
        let history: Option<Vec<Vec<Vec<i32>>>> = if parts.history {
            Some(blank_history(parts.cfg.n_layers))
        } else {
            None
        };
        Model {
            cfg: parts.cfg,
            dtype: parts.dtype,
            kv,
            pacer: Pacer::new(parts.workers),
            governor: GovernorState::new(parts.workers),
            sweep: parts.sweep,
            rows: 0,
            mtp: parts.mtp,
            class: TokenClass::Prose,
            policy: parts.policy,
            tuner: None,
            per_token_bytes: parts.per_token_bytes,
            protect: parts.protect,
            eval: parts.eval,
            history,
            priorities: Vec::new(),
            refinement: Refinement::new(),
            cache: None,
            slabs: Vec::new(),
        }
    }

    /// Starts a fresh sequence: the cache is emptied, recurrent states with it,
    /// and so are the routing history, the eviction priorities and the
    /// refinement of the current token. Warm experts stay warm.
    pub fn reset(&mut self)
        requires
            old(self).wf(),
        ensures
            final(self).wf(),
            final(self).kv.empty_for(old(self).cfg, old(self).dtype),
            final(self).history is Some <==> old(self).history is Some,
            final(self).history is Some ==> blank(final(self).history->0@, old(self).cfg.n_layers as int),
            final(self).priorities@.len() == 0,
            final(self).refinement.depth == 0,
            *final(self) == (Model {
                kv: final(self).kv,
                history: final(self).history,
                priorities: final(self).priorities,
                refinement: final(self).refinement,
                ..*old(self)
            }),
    {
        self.kv = SeqKv::with_dtype(&self.cfg, self.dtype);
        if self.history.is_some() {
            self.history = Some(blank_history(self.cfg.n_layers));
        }
        self.priorities = Vec::new();
        self.refinement = Refinement::new();
    }

    /// Rewinds the cache to `new_len` positions, dropping the rows of rejected
    /// drafts. Recurrent states stay as they are.
    pub fn truncate_kv(&mut self, new_len: usize)
        requires
            old(self).wf(),
        ensures
            final(self).wf(),
            *final(self) == (Model { kv: final(self).kv, ..*old(self) }),
            final(self).kv.states() == old(self).kv.states(),
            final(self).kv.caches().len() == old(self).kv.caches().len(),
            forall|i: int|
                0 <= i < old(self).kv.caches().len() ==> seqkv::rewound(
                    old(self).kv.caches()[i],
                    #[trigger] final(self).kv.caches()[i],
                    new_len as int,
                ),
    {
        self.kv.truncate(new_len);
    }

    /// Whether the model has a draft head to speculate with.
    pub fn has_mtp(&self) -> (b: bool)
        ensures
            b == self.mtp,
    {
        self.mtp
    }

    /// Whether the model can verify a token tree.
    pub fn supports_token_trees(&self) -> (b: bool)
        ensures
            b == (self.cfg.arch == Arch::GlmMla),
    {
        self.cfg.arch == Arch::GlmMla
    }

    /// Whether rejecting a draft is nothing but a rewind of the cache. A point
    /// state cannot be rewound: it has to be snapshotted and restored.
    pub fn spec_reject_is_kv_only(&self) -> (b: bool)
        ensures
            b == (self.cfg.arch != Arch::HybridGdn),
    {
        self.cfg.arch != Arch::HybridGdn
    }

    /// How a request of `n_new` tokens after `prompt_len` is decoded, drafting up
    /// to `g_draft` ahead where that cannot show.
    pub fn decode_mode(&self, prompt_len: usize, n_new: usize, g_draft: usize) -> (m: Mode)
        ensures
            m == Mode::Nothing <==> prompt_len == 0 || n_new == 0,
            m == Mode::Speculative <==> prompt_len > 0 && n_new > 0 && self.mtp && g_draft > 0
                && self.cfg.arch != Arch::HybridGdn,
    {
        decode::mode(prompt_len, n_new, self.has_mtp(), g_draft, self.spec_reject_is_kv_only())
    }

    /// Whether prompts take ChatML markup.
    pub fn uses_chatml_prompt(&self) -> (b: bool)
        ensures
            b == (self.cfg.arch != Arch::GlmMla),
    {
        self.cfg.arch != Arch::GlmMla
    }

    /// Whether the model's sequences can be prefix-cached and checkpointed.
    pub fn prefix_cachable(&self) -> (b: bool)
        ensures
            b == (self.cfg.arch != Arch::HybridGdn),
    {
        self.cfg.arch != Arch::HybridGdn
    }

    /// Rows forwarded so far.
    pub fn rows_forwarded(&self) -> (n: u64)
        ensures
            n == self.rows,
    {
        self.rows
    }

    /// Counts rows about to be forwarded, refused ones included.
    pub fn note_rows(&mut self, n: usize)
        requires
            old(self).wf(),
        ensures
            final(self).wf(),
            final(self).rows == governor::wrapped(old(self).rows, n as u64),
            *final(self) == (Model { rows: final(self).rows, ..*old(self) }),
    {
        self.rows = self.rows.wrapping_add(n as u64);
    }

    /// Sets the kind of text the model works on.
    pub fn set_workload_class(&mut self, class: TokenClass)
        requires
            old(self).wf(),
        ensures
            final(self).wf(),
            *final(self) == (Model { class, ..*old(self) }),
    {
        self.class = class;
    }

    /// Sets how much is prefetched per layer.
    pub fn set_prefetch_policy(&mut self, warm_paths: usize, hint_paths: usize)
        requires
            old(self).wf(),
        ensures
            final(self).wf(),
            *final(self) == (Model {
                policy: PrefetchPolicy { warm_paths, hint_paths },
                ..*old(self)
            }),
    {
        self.policy = PrefetchPolicy { warm_paths, hint_paths };
    }

    /// The prefetch policy in force: the class's settings over the base, and the
    /// tuner's distance over both.
    pub fn class_policy(&self, warm: Option<&str>, hint: Option<&str>) -> (p: PrefetchPolicy)
        ensures
            p.hint_paths == knobs::number_or(knobs::setting(hint), self.policy.hint_paths as int),
            p.warm_paths == match self.tuner {
                Some(d) => d as int,
                None => knobs::number_or(knobs::setting(warm), self.policy.warm_paths as int),
            },
    {
        self.policy.for_class(warm, hint).tuned(self.tuner)
    }

    /// The tuner's prefetch distance, where there is a tuner.
    pub fn prefetch_distance(&self) -> (d: Option<usize>)
        ensures
            d == self.tuner,
    {
        self.tuner
    }

    /// The worker count for the next forward.
    pub fn effective_workers(&self) -> (n: usize)
        requires
            self.wf(),
        ensures
            n == governor::larger(self.pacer.in_force(), 1),
    {
        self.pacer.effective_workers()
    }

    /// Bytes one token's routing touches and whether predicted experts are
    /// protected; `None` while experts are resident. A hit rate means nothing
    /// without it.
    pub fn expert_working_set(&self) -> (w: Option<(u64, bool)>)
        ensures
            w is Some <==> self.per_token_bytes > 0,
            w is Some ==> w->0 == (self.per_token_bytes, self.protect),
    {
        if self.per_token_bytes > 0 {
            Some((self.per_token_bytes, self.protect))
        } else {
            None
        }
    }

    /// Every arm's score and the layers scored; `None` unless something was.
    pub fn predict_eval_report(&self) -> (r: Option<(Vec<ArmReport>, u64)>)
        requires
            self.wf(),
            self.eval is Some ==> forall|a: int|
                0 <= a < self.eval->0.board().len() ==> predeval::countable(
                    #[trigger] self.eval->0.board()[a],
                ),
        ensures
            r is Some <==> self.eval is Some && self.eval->0.count() > 0 && self.eval->0.board().len()
                > 0,
            r is Some ==> {
                &&& (r->0).1 == self.eval->0.count()
                &&& (r->0).0@.len() == self.eval->0.board().len()
                &&& forall|a: int|
                    0 <= a < (r->0).0@.len() ==> predeval::reports(
                        self.eval->0.board()[a],
                        #[trigger] (r->0).0@[a],
                    )
            },
    {
        match &self.eval {
            Some(ev) => {
                let report = ev.report();
                if report.len() > 0 {
                    Some((report, ev.scored_layers()))
                } else {
                    None
                }
            },
            None => None,
        }
    }

    /// The scoreboard's verdict on itself.
    pub fn predict_eval_separation(&self) -> (s: Option<Separation>)
        requires
            self.wf(),
        ensures
            s is Some ==> self.eval is Some && self.eval->0.count() > 0,
            self.eval is Some && self.eval->0.count() > 0 && (exists|i: int| #[trigger]
                predeval::control_at(self.eval->0.board(), i)) && (exists|i: int| #[trigger]
                predeval::best_at(self.eval->0.board(), i)) ==> s is Some,
            s is Some ==> exists|c: int, b: int|
                #![trigger predeval::control_at(self.eval->0.board(), c), predeval::best_at(self.eval->0.board(), b)]
                predeval::control_at(self.eval->0.board(), c) && predeval::best_at(
                    self.eval->0.board(),
                    b,
                ) && (s->0).control == self.eval->0.board()[c].tally().covered && (s->0).best_real
                    == self.eval->0.board()[b].tally().covered && (s->0).actual
                    == self.eval->0.board()[b].tally().actual && (s->0).best_name@
                    == self.eval->0.board()[b].called(),
    {
        match &self.eval {
            Some(ev) => ev.separation(),
            None => None,
        }
    }

    /// How often two runs predicted different tokens.
    pub fn prediction_flip_rate(a: &[i32], b: &[i32]) -> (f: Option<Flips>)
        ensures
            f is Some <==> a@.len() == b@.len() && a@.len() > 0,
            f is Some ==> (f->0).of == a@.len() && (f->0).flips == reports::differing(
                a@,
                b@,
                a@.len(),
            ),
    {
        reports::prediction_flips(a, b)
    }

    /// Which predictor a setting forces. Anything it does not know is left alone:
    /// degrading in silence while reporting the requested name would be worse.
    pub fn apply_predictor_override(value: Option<&str>) -> (o: Option<PredictorOverride>)
        ensures
            o == if knobs::setting(value) == Some("momentum"@) {
                Some(PredictorOverride::Momentum)
            } else if knobs::setting(value) == Some("phase-aware"@) {
                Some(PredictorOverride::PhaseAware)
            } else {
                None
            },
    {
        match value {
            Some(v) => if text::same_text(v, "momentum") {
                Some(PredictorOverride::Momentum)
            } else if text::same_text(v, "phase-aware") {
                Some(PredictorOverride::PhaseAware)
            } else {
                None
            },
            None => None,
        }
    }
}

/// The first `n` counts added up.
pub open spec fn sum_of(v: Seq<usize>, n: nat) -> int
    decreases n,
{
    if n == 0 {
        0
    } else {
        sum_of(v, (n - 1) as nat) + v[n - 1]
    }
}

/// A sum of counts never shrinks as more of them are added.
pub proof fn lemma_sum_of_grows(v: Seq<usize>, m: nat, n: nat)
    requires
        m <= n <= v.len(),
    ensures
        0 <= sum_of(v, m) <= sum_of(v, n),
    decreases n,
{
    if n > 0 {
        lemma_sum_of_grows(
            v,
            if m < n {
                m
            } else {
                (n - 1) as nat
            },
            (n - 1) as nat,
        );
    }
}

impl Model {
    /// Takes over what routing logged: each layer's recent sets, newest last.
    /// Dropped where no history is kept or it has another number of layers.
    pub fn note_history(&mut self, history: Vec<Vec<Vec<i32>>>)
        requires
            old(self).wf(),
        ensures
            final(self).wf(),
            *final(self) == if old(self).history is Some && history@.len() == old(self).cfg.n_layers {
                Model { history: Some(history), ..*old(self) }
            } else {
                *old(self)
            },
    {
        if self.history.is_some() && history.len() == self.cfg.n_layers {
            self.history = Some(history);
        }
    }

    /// Takes over the priorities of the experts now protected.
    pub fn note_protection(&mut self, priorities: Vec<(ExpertKey, u32)>)
        requires
            old(self).wf(),
        ensures
            final(self).wf(),
            *final(self) == (Model { priorities, ..*old(self) }),
    {
        self.priorities = priorities;
    }

    /// Takes over what the expert cache and the rings count now.
    pub fn note_counters(&mut self, cache: Option<CacheCounters>, slabs: Vec<usize>)
        requires
            old(self).wf(),
        ensures
            final(self).wf(),
            *final(self) == (Model { cache, slabs, ..*old(self) }),
    {
        self.cache = cache;
        self.slabs = slabs;
    }

    /// Hits, misses and reads that went to disk.
    pub fn ecache_stats(&self) -> (s: Option<(u64, u64, u64)>)
        ensures
            s is Some <==> self.cache is Some,
            s is Some ==> s->0 == (self.cache->0.hits, self.cache->0.misses, self.cache->0.disk_reads),
    {
        match self.cache {
            Some(c) => Some((c.hits, c.misses, c.disk_reads)),
            None => None,
        }
    }

    /// Experts read ahead of time.
    pub fn ecache_prefetch_reads(&self) -> (n: Option<u64>)
        ensures
            n is Some <==> self.cache is Some,
            n is Some ==> n->0 == self.cache->0.prefetch_reads,
    {
        match self.cache {
            Some(c) => Some(c.prefetch_reads),
            None => None,
        }
    }

    /// Experts hinted to the page cache.
    pub fn ecache_fadvise_hints(&self) -> (n: Option<u64>)
        ensures
            n is Some <==> self.cache is Some,
            n is Some ==> n->0 == self.cache->0.fadvise_hints,
    {
        match self.cache {
            Some(c) => Some(c.fadvise_hints),
            None => None,
        }
    }

    /// Speculative reads that differed when read again.
    pub fn ecache_verify_mismatch(&self) -> (n: Option<u64>)
        ensures
            n is Some <==> self.cache is Some,
            n is Some ==> n->0 == self.cache->0.verify_mismatch,
    {
        match self.cache {
            Some(c) => Some(c.verify_mismatch),
            None => None,
        }
    }

    /// Speculative reads dropped unread: disk reads that were not spent.
    pub fn ecache_prefetch_stale_dropped(&self) -> (n: Option<u64>)
        ensures
            n is Some <==> self.cache is Some,
            n is Some ==> n->0 == self.cache->0.stale_dropped,
    {
        match self.cache {
            Some(c) => Some(c.stale_dropped),
            None => None,
        }
    }

    /// Prefetched experts that were hit and that were evicted unused.
    pub fn ecache_prefetch_effectiveness(&self) -> (s: Option<(u64, u64)>)
        ensures
            s is Some <==> self.cache is Some,
            s is Some ==> s->0 == (self.cache->0.prefetch_used, self.cache->0.prefetch_wasted),
    {
        match self.cache {
            Some(c) => Some((c.prefetch_used, c.prefetch_wasted)),
            None => None,
        }
    }

    /// Prefetched experts that were hit, of those whose fate is settled.
    pub fn prefetch_accuracy(&self) -> (s: Option<(u64, u64)>)
        requires
            self.cache is Some ==> self.cache->0.prefetch_used + self.cache->0.prefetch_wasted
                <= u64::MAX,
        ensures
            s is Some <==> self.cache is Some,
            s is Some ==> (s->0).0 == self.cache->0.prefetch_used && (s->0).1
                == self.cache->0.prefetch_used + self.cache->0.prefetch_wasted,
    {
        match self.cache {
            Some(c) => Some((c.prefetch_used, c.prefetch_used + c.prefetch_wasted)),
            None => None,
        }
    }

    /// Bytes and slots held by prefetched experts nothing has hit, and the budget.
    pub fn ecache_speculative_resident(&self) -> (s: Option<(usize, u64, usize)>)
        ensures
            s is Some <==> self.cache is Some,
            s is Some ==> s->0 == (
                self.cache->0.speculative_bytes,
                self.cache->0.speculative_slots,
                self.cache->0.budget,
            ),
    {
        match self.cache {
            Some(c) => Some((c.speculative_bytes, c.speculative_slots, c.budget)),
            None => None,
        }
    }

    /// Slots and bytes held, and the budget: a full cache and an empty one can
    /// both miss, for opposite reasons.
    pub fn ecache_occupancy(&self) -> (s: Option<(usize, usize, usize)>)
        ensures
            s is Some <==> self.cache is Some,
            s is Some ==> s->0 == (self.cache->0.slots, self.cache->0.used_bytes, self.cache->0.budget),
    {
        match self.cache {
            Some(c) => Some((c.slots, c.used_bytes, c.budget)),
            None => None,
        }
    }

    /// Landing buffers in use over all rings; `None` without rings.
    pub fn io_slab_in_use(&self) -> (n: Option<usize>)
        requires
            sum_of(self.slabs@, self.slabs@.len()) <= usize::MAX,
        ensures
            n is Some <==> self.slabs@.len() > 0,
            n is Some ==> n->0 == sum_of(self.slabs@, self.slabs@.len()),
    {
        if self.slabs.len() == 0 {
            return None;
        }
        let mut sum: usize = 0;
        let mut i: usize = 0;
        while i < self.slabs.len()
            invariant
                i <= self.slabs@.len(),
                sum_of(self.slabs@, self.slabs@.len()) <= usize::MAX,
                sum == sum_of(self.slabs@, i as nat),
            decreases self.slabs@.len() - i,
        {
            proof {
                lemma_sum_of_grows(self.slabs@, (i + 1) as nat, self.slabs@.len());
            }
            sum = sum + self.slabs[i];
            i = i + 1;
        }
        Some(sum)
    }

    /// The byte ledger's input, with this model's cache counts.
    pub fn byte_ledger(&self, union: Option<(u64, u64)>, sizes: (Option<u64>, Option<u64>)) -> (l: Option<
        LedgerInput,
    >)
        ensures
            l is Some <==> union is Some,
            l is Some ==> reports::ledger_of(
                union->0,
                sizes,
                match self.cache {
                    Some(c) => Some((c.hits, c.misses, c.prefetch_wasted)),
                    None => None,
                },
                l->0,
            ),
    {
        let cache = match self.cache {
            Some(c) => Some((c.hits, c.misses, c.prefetch_wasted)),
            None => None,
        };
        reports::byte_ledger(union, sizes, cache)
    }

    /// Per-lane times of the last forward.
    pub fn last_lane_timings(&self) -> (s: LaneSample)
        ensures
            s == self.pacer.latest(),
    {
        self.pacer.last_lane_timings()
    }

    /// Per-lane times of every forward, and how many there were.
    pub fn lane_totals(&self) -> (t: (LaneSample, u64))
        ensures
            t.0 == self.pacer.sums(),
            t.1 == self.pacer.count(),
    {
        self.pacer.lane_totals()
    }

    /// The I/O worker cap in force.
    pub fn last_iowq(&self) -> (cap: Option<IowqCap>)
        ensures
            cap == self.pacer.in_cap(),
    {
        self.pacer.last_iowq()
    }
}

/// Every number enters a sum once.
pub proof fn lemma_sum_counts_each_once(v: Seq<usize>, x: usize)
    ensures
        sum_of(v, 0) == 0,
        sum_of(v.push(x), v.len() + 1) == sum_of(v, v.len()) + x,
{
    lemma_sum_of_a_longer_list(v, x, v.len());
}

proof fn lemma_sum_of_a_longer_list(v: Seq<usize>, x: usize, n: nat)
    requires
        n <= v.len(),
    ensures
        sum_of(v.push(x), n) == sum_of(v, n),
    decreases n,
{
    if n > 0 {
        lemma_sum_of_a_longer_list(v, x, (n - 1) as nat);
    }
}

} // verus!
