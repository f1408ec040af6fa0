//! Pinning the draft head's hot experts: how often drafting routes to each, when
//! the pinned set is derived anew, and which experts it holds.

use vstd::prelude::*;

use crate::prefetch::ExpertKey;
use crate::prefetch::WarmBatch;
use crate::rank;

verus! {

/// Draft rounds between two derivations of the pinned set.
pub const PIN_REFRESH_ROUNDS: u64 = 64;

/// How often drafting routed to each expert of the head's own layer, and the
/// round clock its pinned set is refreshed on.
pub struct MtpPins {
    layer: usize,
    counts: Vec<u32>,
    rounds: u64,
    applied: Option<usize>,
}

impl MtpPins {
    /// The layer the table describes.
    pub closed spec fn of_layer(&self) -> usize {
        self.layer
    }

    /// Routings counted, by expert.
    pub closed spec fn routed(&self) -> Seq<u32> {
        self.counts@
    }

    /// Draft rounds seen, as a wrapping count.
    pub closed spec fn clock(&self) -> u64 {
        self.rounds
    }

    /// Size of the last pinned set, `None` before the first.
    pub closed spec fn last_applied(&self) -> Option<usize> {
        self.applied
    }

    /// A zeroed table for `layer`'s `n_experts` experts.
    pub fn new(layer: usize, n_experts: usize) -> (p: MtpPins)
        ensures
            p.of_layer() == layer,
            p.routed() == Seq::new(n_experts as nat, |i: int| 0u32),
            p.clock() == 0,
            p.last_applied() is None,
    {
        let mut counts: Vec<u32> = Vec::new();
        let mut i: usize = 0;
        while i < n_experts
            invariant
                i <= n_experts,
                counts@ == Seq::new(i as nat, |j: int| 0u32),
            decreases n_experts - i,
        {
            counts.push(0);
            i = i + 1;
            assert(counts@ =~= Seq::new(i as nat, |j: int| 0u32));
        }
        MtpPins { layer, counts, rounds: 0, applied: None }
    }

    /// The layer this table describes.
    pub fn layer(&self) -> (l: usize)
        ensures
            l == self.of_layer(),
    {
        self.layer
    }

    /// Counts one routing of `expert` in `layer`. Other layers, and experts out
    /// of range, are ignored. Counts never fall: a full one stays full.
    pub fn bump(&mut self, layer: usize, expert: usize)
        ensures
            final(self).of_layer() == old(self).of_layer(),
            final(self).clock() == old(self).clock(),
            final(self).last_applied() == old(self).last_applied(),
            final(self).routed() == if layer == old(self).of_layer() && expert < old(self).routed().len()
                && old(self).routed()[expert as int] < u32::MAX {
                old(self).routed().update(
                    expert as int,
                    (old(self).routed()[expert as int] + 1) as u32,
                )
            } else {
                old(self).routed()
            },
    {
        if layer != self.layer || expert >= self.counts.len() {
            return ;
        }
        let c: u32 = self.counts[expert];
        if c < u32::MAX {
            self.counts[expert] = c + 1;
        }
    }

    /// The counts, by expert.
    pub fn snapshot(&self) -> (counts: Vec<u32>)
        ensures
            counts@ == self.routed(),
    {
        let mut counts: Vec<u32> = Vec::new();
        counts.extend_from_slice(self.counts.as_slice());
        assert(counts@ =~= self.counts@);
        counts
    }

    /// Advances the round clock and tells whether the pinned set is due: every
    /// [`PIN_REFRESH_ROUNDS`]th round.
    pub fn note_round(&mut self) -> (due: bool)
        ensures
            final(self).of_layer() == old(self).of_layer(),
            final(self).routed() == old(self).routed(),
            final(self).last_applied() == old(self).last_applied(),
            final(self).clock() == if old(self).clock() == u64::MAX {
                0
            } else {
                (old(self).clock() + 1) as u64
            },
            due == ((old(self).clock() + 1) % PIN_REFRESH_ROUNDS as int == 0),
    {
        if self.rounds == u64::MAX {
            self.rounds = 0;
            true
        } else {
            self.rounds = self.rounds + 1;
            self.rounds % PIN_REFRESH_ROUNDS == 0
        }
    }

    /// Records that a set of `n` experts was pinned and tells whether that is a
    /// change from the last one. The first is always a change.
    pub fn note_applied(&mut self, n: usize) -> (changed: bool)
        ensures
            final(self).of_layer() == old(self).of_layer(),
            final(self).routed() == old(self).routed(),
            final(self).clock() == old(self).clock(),
            final(self).last_applied() == Some(n),
            changed == (old(self).last_applied() != Some(n)),
    {
        let changed: bool = match self.applied {
            Some(m) => m != n,
            None => true,
        };
        self.applied = Some(n);
        changed
    }

    /// Size of the last pinned set, zero before the first.
    pub fn applied(&self) -> (n: usize)
        ensures
            n == match self.last_applied() {
                Some(n) => n,
                None => 0,
            },
    {
        match self.applied {
            Some(n) => n,
            None => 0,
        }
    }
}

/// `f` tells what `bytes_of` returns.
pub open spec fn describes<F: Fn(usize) -> usize>(
    bytes_of: F,
    f: spec_fn(usize) -> usize,
) -> bool {
    forall|e: usize, b: usize| #[trigger] call_ensures(bytes_of, (e,), b) ==> b == f(e)
}

/// The entries of `ranked` from `i` on that fit a budget of which `used` is
/// spent: as many as fit in a row. An entry never routed to, without a size, or
/// past the budget ends it; a colder and smaller one does not fill the gap.
pub open spec fn fitting(
    counts: Seq<u32>,
    ranked: Seq<usize>,
    f: spec_fn(usize) -> usize,
    budget: int,
    i: int,
    used: int,
) -> Seq<usize>
    decreases ranked.len() - i,
{
    if i < 0 || i >= ranked.len() {
        Seq::empty()
    } else {
        let e = ranked[i];
        let spent = if used + f(e) > usize::MAX {
            usize::MAX as int
        } else {
            used + f(e)
        };
        if counts[e as int] == 0 || f(e) == 0 || spent > budget {
            Seq::empty()
        } else {
            seq![e] + fitting(counts, ranked, f, budget, i + 1, spent)
        }
    }
}

/// Chooses which of one layer's experts to hold resident, hottest first, until
/// `budget` bytes are spent, where `bytes_of` gives an expert's footprint.
///
/// An expert never routed to is never chosen: a cold table says nothing about
/// which experts matter. Equal counts keep ascending expert ids.
pub fn plan_pins<F: Fn(usize) -> usize>(counts: &[u32], budget: usize, bytes_of: F) -> (pins: Vec<
    usize,
>)
    requires
        forall|e: usize| e < counts@.len() ==> #[trigger] call_requires(bytes_of, (e,)),
    ensures
        forall|ranked: Seq<usize>, f: spec_fn(usize) -> usize|
            #[trigger] rank::is_ranking(counts@, ranked) && #[trigger] describes(bytes_of, f)
                ==> pins@ == if budget == 0 {
                Seq::empty()
            } else {
                fitting(counts@, ranked, f, budget as int, 0, 0)
            },
        forall|i: int|
            0 <= i < pins@.len() ==> #[trigger] pins@[i] < counts@.len() && counts@[pins@[i] as int]
                > 0,
        rank::ordered(counts@, pins@),
{
    if budget == 0 {
        return Vec::new();
    }
    let cand = rank::by_heat(counts);
    let ghost ranked = cand@;
    let mut out: Vec<usize> = Vec::new();
    let mut used: usize = 0;
    let mut i: usize = 0;
    let mut full: bool = false;
    proof {
        assert forall|f: spec_fn(usize) -> usize| #[trigger] describes(
            bytes_of,
            f,
        ) implies fitting(counts@, ranked, f, budget as int, 0, 0) == out@ + fitting(
            counts@,
            ranked,
            f,
            budget as int,
            0,
            0,
        ) by {
            assert(out@ + fitting(counts@, ranked, f, budget as int, 0, 0) =~= fitting(
                counts@,
                ranked,
                f,
                budget as int,
                0,
                0,
            ));
        }
    }
    while i < cand.len() && !full
        invariant
            forall|e: usize| e < counts@.len() ==> #[trigger] call_requires(bytes_of, (e,)),
            cand@ == ranked,
            rank::is_ranking(counts@, ranked),
            i <= ranked.len(),
            !full ==> out@ == ranked.take(i as int),
            full ==> out@.len() <= ranked.len() && out@ == ranked.take(out@.len() as int),
            forall|j: int| 0 <= j < out@.len() ==> counts@[(#[trigger] out@[j]) as int] > 0,
            forall|f: spec_fn(usize) -> usize| #[trigger]
                describes(bytes_of, f) ==> fitting(counts@, ranked, f, budget as int, 0, 0) == out@
                    + if full {
                    Seq::empty()
                } else {
                    fitting(counts@, ranked, f, budget as int, i as int, used as int)
                },
        decreases
                ranked.len() - i + if full {
                    0int
                } else {
                    1
                },
    {
        let e: usize = cand[i];
        assert(ranked[i as int] < counts@.len());
        if counts[e] == 0 {
            full = true;
        } else {
            let b: usize = bytes_of(e);
            let spent: usize = used.saturating_add(b);
            if b == 0 || spent > budget {
                full = true;
                proof {
                    assert forall|f: spec_fn(usize) -> usize| #[trigger] describes(
                        bytes_of,
                        f,
                    ) implies fitting(counts@, ranked, f, budget as int, 0, 0) == out@
                        + Seq::empty() by {
                        assert(call_ensures(bytes_of, (e,), b));
                        assert(f(e) == b);
                    }
                }
            } else {
                let ghost before = out@;
                out.push(e);
                proof {
                    assert(out@ =~= ranked.take(i + 1));
                    assert forall|f: spec_fn(usize) -> usize| #[trigger] describes(
                        bytes_of,
                        f,
                    ) implies fitting(counts@, ranked, f, budget as int, 0, 0) == out@ + fitting(
                        counts@,
                        ranked,
                        f,
                        budget as int,
                        i + 1,
                        spent as int,
                    ) by {
                        assert(call_ensures(bytes_of, (e,), b));
                        assert(f(e) == b);
                        let rest = fitting(
                            counts@,
                            ranked,
                            f,
                            budget as int,
                            i + 1,
                            spent as int,
                        );
                        assert(before + (seq![e] + rest) =~= out@ + rest);
                    }
                }
                used = spent;
                i = i + 1;
            }
        }
    }
    proof {
        assert forall|r: Seq<usize>, f: spec_fn(usize) -> usize|
            #[trigger] rank::is_ranking(counts@, r) && #[trigger] describes(
                bytes_of,
                f,
            ) implies out@ == fitting(counts@, r, f, budget as int, 0, 0) by {
            rank::lemma_ranking_unique(counts@, ranked, r);
            assert(fitting(counts@, ranked, f, budget as int, 0, 0) =~= out@);
        }
        assert forall|j: int| 0 <= j < out@.len() implies #[trigger] out@[j] < counts@.len() by {
            assert(out@[j] == ranked[j]);
        }
        assert forall|j: int, k: int| 0 <= j < k < out@.len() implies rank::ahead(
            counts@,
            out@[j],
            out@[k],
        ) by {
            assert(out@[j] == ranked[j]);
            assert(out@[k] == ranked[k]);
        }
    }
    out
}

/// A pin budget and whether it was cut.
pub struct GrantedBudget {
    /// Bytes granted.
    pub bytes: usize,
    /// Less was granted than asked for.
    pub clamped: bool,
}

/// Cuts a pin budget to half the tier it lives in. Past that a pin stops being
/// a reservation: the tier starves everything else and then evicts among the
/// pins.
pub fn granted_pin_budget(asked: usize, tier_budget: usize) -> (g: GrantedBudget)
    ensures
        g.bytes == if asked as int <= tier_budget as int / 2 {
            asked as int
        } else {
            tier_budget as int / 2
        },
        g.clamped == (g.bytes < asked),
{
    let half: usize = tier_budget / 2;
    let bytes: usize = if asked < half {
        asked
    } else {
        half
    };
    GrantedBudget { bytes, clamped: bytes < asked }
}

/// What a refresh of the pinned set does.
pub struct PinPlan {
    /// The experts to hold, ascending, which is the order they lie on disk.
    pub ids: Vec<usize>,
    /// The budget they were chosen within.
    pub budget: GrantedBudget,
    /// The set changed in size since the last refresh.
    pub changed: bool,
}

/// `ids` are the elements of `pins`, ascending.
pub open spec fn ascending_form(pins: Seq<usize>, ids: Seq<usize>) -> bool {
    &&& forall|i: int, j: int| 0 <= i < j < ids.len() ==> ids[i] < ids[j]
    &&& forall|e: usize| #[trigger] ids.contains(e) <==> pins.contains(e)
}

fn in_list(v: &Vec<usize>, e: usize) -> (b: bool)
    ensures
        b == v@.contains(e),
{
    let mut i: usize = 0;
    while i < v.len()
        invariant
            i <= v@.len(),
            forall|j: int| 0 <= j < i ==> v@[j] != e,
        decreases v@.len() - i,
    {
        if v[i] == e {
            return true;
        }
        i = i + 1;
    }
    false
}

fn ascending(pins: &Vec<usize>, n: usize) -> (ids: Vec<usize>)
    requires
        forall|i: int| 0 <= i < pins@.len() ==> #[trigger] pins@[i] < n,
    ensures
        ascending_form(pins@, ids@),
{
    let mut ids: Vec<usize> = Vec::new();
    let mut e: usize = 0;
    while e < n
        invariant
            e <= n,
            forall|i: int, j: int| 0 <= i < j < ids@.len() ==> ids@[i] < ids@[j],
            forall|i: int| 0 <= i < ids@.len() ==> #[trigger] ids@[i] < e,
            forall|x: usize| #[trigger] ids@.contains(x) <==> x < e && pins@.contains(x),
        decreases n - e,
    {
        let ghost before = ids@;
        if in_list(pins, e) {
            ids.push(e);
            proof {
                assert(ids@[before.len() as int] == e);
                assert forall|x: usize| #[trigger] ids@.contains(x) <==> x < e + 1
                    && pins@.contains(x) by {
                    if before.contains(x) {
                        let q = choose|q: int| 0 <= q < before.len() && before[q] == x;
                        assert(ids@[q] == x);
                    }
                    if ids@.contains(x) && x != e {
                        let q = choose|q: int| 0 <= q < ids@.len() && ids@[q] == x;
                        assert(before[q] == x);
                        assert(before.contains(x));
                    }
                }
            }
        }
        e = e + 1;
    }
    proof {
        assert forall|x: usize| #[trigger] ids@.contains(x) <==> pins@.contains(x) by {
            if pins@.contains(x) {
                let q = choose|q: int| 0 <= q < pins@.len() && pins@[q] == x;
                assert(pins@[q] < n);
            }
        }
    }
    ids
}

/// Some expert was routed to.
pub open spec fn any_routed(counts: Seq<u32>) -> bool {
    exists|i: int| 0 <= i < counts.len() && #[trigger] counts[i] > 0
}

impl MtpPins {
    /// Whether there is a pinned set to derive: a budget was set, and drafting
    /// has routed to something. Until then no expert's size is asked for.
    pub fn plans(&self, budget: usize) -> (b: bool)
        ensures
            b == (budget > 0 && any_routed(self.routed())),
    {
        if budget == 0 {
            return false;
        }
        let mut i: usize = 0;
        while i < self.counts.len() && self.counts[i] == 0
            invariant
                i <= self.counts@.len(),
                forall|j: int| 0 <= j < i ==> self.counts@[j] == 0,
            decreases self.counts@.len() - i,
        {
            i = i + 1;
        }
        assert(i < self.counts@.len() ==> self.routed()[i as int] > 0);
        i < self.counts.len()
    }

    /// Derives the pinned set of the warm cache, in which every expert takes
    /// `per_expert` bytes. `None`, with nothing recorded, where no budget was
    /// set or drafting has not routed to anything yet.
    pub fn refresh(&mut self, budget: usize, per_expert: usize, cache_budget: usize) -> (plan: Option<
        PinPlan,
    >)
        ensures
            final(self).of_layer() == old(self).of_layer(),
            final(self).routed() == old(self).routed(),
            final(self).clock() == old(self).clock(),
            plan is Some <==> budget > 0 && any_routed(old(self).routed()),
            plan is None ==> final(self).last_applied() == old(self).last_applied(),
            plan is Some ==> {
                let p = plan->0;
                &&& p.budget.bytes == if budget as int <= cache_budget as int / 2 {
                    budget as int
                } else {
                    cache_budget as int / 2
                }
                &&& p.budget.clamped == (p.budget.bytes < budget)
                &&& forall|ranked: Seq<usize>|
                    #[trigger] rank::is_ranking(old(self).routed(), ranked) ==> ascending_form(
                        if p.budget.bytes == 0 {
                            Seq::empty()
                        } else {
                            fitting(
                                old(self).routed(),
                                ranked,
                                |e: usize| per_expert,
                                p.budget.bytes as int,
                                0,
                                0,
                            )
                        },
                        p.ids@,
                    )
                &&& final(self).last_applied() == Some(p.ids@.len() as usize)
                &&& p.changed == (old(self).last_applied() != Some(p.ids@.len() as usize))
            },
    {
        if !self.plans(budget) {
            return None;
        }
        let granted = granted_pin_budget(budget, cache_budget);
        let size = |e: usize| -> (b: usize)
            ensures
                b == per_expert,
            { per_expert };
        let ghost f = |e: usize| per_expert;
        assert(describes(size, f));
        let pins = plan_pins(self.counts.as_slice(), granted.bytes, size);
        let ids = ascending(&pins, self.counts.len());
        let changed = self.note_applied(ids.len());
        Some(PinPlan { ids, budget: granted, changed })
    }
}

/// What to do with a pinned set: experts already resident get the pin, the rest
/// are warmed and get it a refresh later.
pub struct PinSplit {
    /// Resident already.
    pub pin: Vec<usize>,
    /// To be read in.
    pub warm: Vec<usize>,
}

impl PinSplit {
    /// The reads that bring in what is to be pinned, as experts of `layer`. They
    /// are deliberate: none goes stale.
    pub fn warm_batch(&self, layer: usize) -> (b: WarmBatch)
        ensures
            b.wf(),
            b.left() == Seq::new(
                self.warm@.len(),
                |i: int| (layer as u32, self.warm@[i] as u32),
            ),
            b.stamped() == u64::MAX,
    {
        let mut items: Vec<ExpertKey> = Vec::new();
        let mut i: usize = 0;
        while i < self.warm.len()
            invariant
                i <= self.warm@.len(),
                items@ == Seq::new(i as nat, |k: int| (layer as u32, self.warm@[k] as u32)),
            decreases self.warm@.len() - i,
        {
            items.push((layer as u32, self.warm[i] as u32));
            i = i + 1;
            assert(items@ =~= Seq::new(i as nat, |k: int| (layer as u32, self.warm@[k] as u32)));
        }
        WarmBatch::deliberate(items)
    }
}

/// The first `n` of `ids` that are resident, or that are not.
pub open spec fn with_residency(ids: Seq<usize>, resident: Seq<bool>, want: bool, n: nat) -> Seq<usize>
    decreases n,
{
    if n == 0 {
        Seq::empty()
    } else {
        let rest = with_residency(ids, resident, want, (n - 1) as nat);
        if resident[n - 1] == want {
            rest.push(ids[n - 1])
        } else {
            rest
        }
    }
}

/// Splits a pinned set by residency, keeping its order.
pub fn split_resident(ids: &Vec<usize>, resident: &Vec<bool>) -> (s: PinSplit)
    requires
        ids@.len() == resident@.len(),
    ensures
        s.pin@ == with_residency(ids@, resident@, true, ids@.len()),
        s.warm@ == with_residency(ids@, resident@, false, ids@.len()),
        s.pin@.len() + s.warm@.len() == ids@.len(),
{
    let mut pin: Vec<usize> = Vec::new();
    let mut warm: Vec<usize> = Vec::new();
    let mut i: usize = 0;
    while i < ids.len()
        invariant
            i <= ids@.len(),
            ids@.len() == resident@.len(),
            pin@ == with_residency(ids@, resident@, true, i as nat),
            warm@ == with_residency(ids@, resident@, false, i as nat),
            pin@.len() + warm@.len() == i,
        decreases ids@.len() - i,
    {
        if resident[i] {
            pin.push(ids[i]);
        } else {
            warm.push(ids[i]);
        }
        i = i + 1;
    }
    PinSplit { pin, warm }
}

/// The pinned experts together never take more than the budget.
pub proof fn lemma_pins_within_budget(
    counts: Seq<u32>,
    ranked: Seq<usize>,
    f: spec_fn(usize) -> usize,
    budget: int,
    i: int,
    used: int,
)
    requires
        0 <= i,
        0 <= used <= budget < usize::MAX,
    ensures
        used + total_size(fitting(counts, ranked, f, budget, i, used), f) <= budget,
    decreases ranked.len() - i,
{
    if i < ranked.len() {
        let e = ranked[i];
        let spent = if used + f(e) > usize::MAX {
            usize::MAX as int
        } else {
            used + f(e)
        };
        if !(counts[e as int] == 0 || f(e) == 0 || spent > budget) {
            lemma_pins_within_budget(counts, ranked, f, budget, i + 1, spent);
            let rest = fitting(counts, ranked, f, budget, i + 1, spent);
            let all = seq![e] + rest;
            assert(all.subrange(1, all.len() as int) =~= rest);
        }
    }
}

/// A larger budget only appends to a plan: what the smaller one pins comes first,
/// in the same order, so raising a budget never evicts.
pub proof fn lemma_larger_budget_appends(
    counts: Seq<u32>,
    ranked: Seq<usize>,
    f: spec_fn(usize) -> usize,
    small: int,
    large: int,
    i: int,
    used: int,
)
    requires
        small <= large,
    ensures
        fitting(counts, ranked, f, small, i, used).len() <= fitting(
            counts,
            ranked,
            f,
            large,
            i,
            used,
        ).len(),
        fitting(counts, ranked, f, small, i, used) == fitting(
            counts,
            ranked,
            f,
            large,
            i,
            used,
        ).take(fitting(counts, ranked, f, small, i, used).len() as int),
    decreases ranked.len() - i,
{
    let few = fitting(counts, ranked, f, small, i, used);
    let many = fitting(counts, ranked, f, large, i, used);
    if 0 <= i < ranked.len() {
        let e = ranked[i];
        let spent = if used + f(e) > usize::MAX {
            usize::MAX as int
        } else {
            used + f(e)
        };
        if !(counts[e as int] == 0 || f(e) == 0 || spent > small) {
            lemma_larger_budget_appends(counts, ranked, f, small, large, i + 1, spent);
            let few_rest = fitting(counts, ranked, f, small, i + 1, spent);
            let many_rest = fitting(counts, ranked, f, large, i + 1, spent);
            assert(few == seq![e] + few_rest);
            assert(many == seq![e] + many_rest);
            assert(few =~= many.take(few.len() as int)) by {
                assert forall|k: int| 0 <= k < few.len() implies few[k] == many[k] by {
                    if k > 0 {
                        assert(few_rest[k - 1] == many_rest.take(few_rest.len() as int)[k - 1]);
                    }
                }
            }
        } else {
            assert(few =~= many.take(0));
        }
    } else {
        assert(few =~= many.take(0));
    }
}

/// The sizes of `pins` added up.
pub open spec fn total_size(pins: Seq<usize>, f: spec_fn(usize) -> usize) -> int
    decreases pins.len(),
{
    if pins.len() == 0 {
        0
    } else {
        f(pins[0]) + total_size(pins.subrange(1, pins.len() as int), f)
    }
}

/// A table that drafting has not routed through pins nothing, whatever the
/// budget.
pub proof fn lemma_cold_table_pins_nothing(
    counts: Seq<u32>,
    ranked: Seq<usize>,
    f: spec_fn(usize) -> usize,
    budget: int,
)
    requires
        !any_routed(counts),
        rank::is_ranking(counts, ranked),
    ensures
        fitting(counts, ranked, f, budget, 0, 0) == Seq::<usize>::empty(),
{
    if ranked.len() > 0 {
        assert(ranked[0] < counts.len());
        assert(!(counts[ranked[0] as int] > 0));
    }
}

/// What is pinned are the leading entries of the ranking, each of them routed to
/// and sized, and the run stops only where it has to: at the ranking's end, or
/// before an entry that was never routed to, has no size, or would go past the
/// budget together with those before it.
pub proof fn lemma_pins_are_the_longest_fitting_run(
    counts: Seq<u32>,
    ranked: Seq<usize>,
    f: spec_fn(usize) -> usize,
    budget: int,
    i: int,
    used: int,
)
    requires
        0 <= i <= ranked.len(),
        0 <= used <= budget < usize::MAX,
    ensures
        ({
            let pins = fitting(counts, ranked, f, budget, i, used);
            let end = i + pins.len();
            &&& end <= ranked.len()
            &&& pins == ranked.subrange(i, end)
            &&& forall|k: int|
                i <= k < end ==> counts[#[trigger] ranked[k] as int] > 0 && f(ranked[k]) > 0
            &&& end < ranked.len() ==> counts[ranked[end] as int] == 0 || f(ranked[end]) == 0 || used
                + total_size(pins, f) + f(ranked[end]) > budget
        }),
    decreases ranked.len() - i,
{
    let pins = fitting(counts, ranked, f, budget, i, used);
    if i < ranked.len() {
        let e = ranked[i];
        if counts[e as int] == 0 || f(e) == 0 || used + f(e) > budget {
            assert(pins =~= Seq::<usize>::empty());
            assert(total_size(pins, f) == 0);
        } else {
            let rest = fitting(counts, ranked, f, budget, i + 1, used + f(e));
            lemma_pins_are_the_longest_fitting_run(counts, ranked, f, budget, i + 1, used + f(e));
            assert(pins == seq![e] + rest);
            assert(pins.subrange(1, pins.len() as int) =~= rest);
            assert(total_size(pins, f) == f(e) + total_size(rest, f));
            assert(pins =~= ranked.subrange(i, i + pins.len()));
        }
    } else {
        assert(pins =~= Seq::<usize>::empty());
        assert(total_size(pins, f) == 0);
    }
}

/// The sizes of pinned entries count once each, whatever their order of listing:
/// an entry added at the end adds its own size.
pub proof fn lemma_total_size_adds(pins: Seq<usize>, e: usize, f: spec_fn(usize) -> usize)
    ensures
        total_size(Seq::empty(), f) == 0,
        total_size(pins.push(e), f) == total_size(pins, f) + f(e),
    decreases pins.len(),
{
    if pins.len() == 0 {
        assert(pins.push(e).subrange(1, 1) =~= Seq::<usize>::empty());
        assert(total_size(Seq::<usize>::empty(), f) == 0);
    } else {
        let rest = pins.subrange(1, pins.len() as int);
        lemma_total_size_adds(rest, e, f);
        assert(pins.push(e).subrange(1, pins.len() as int + 1) =~= rest.push(e));
    }
}

/// Splitting by residency loses no entry, invents none and keeps the order: each
/// entry stands on the side it belongs to, after exactly those of its side that
/// were listed before it, and the two sides together are as long as the list.
pub proof fn lemma_split_keeps_every_entry(ids: Seq<usize>, resident: Seq<bool>, n: nat, i: int)
    requires
        n <= ids.len(),
        n <= resident.len(),
        0 <= i < n,
    ensures
        ({
            let own = resident[i];
            let before = resident.take(i).filter(|b: bool| b == own).len() as int;
            let side = with_residency(ids, resident, own, n);
            &&& before < side.len()
            &&& side[before] == ids[i]
        }),
        with_residency(ids, resident, true, n).len() + with_residency(ids, resident, false, n).len()
            == n,
    decreases n,
{
    lemma_split_len(ids, resident, true, n);
    lemma_split_len(ids, resident, false, n);
    lemma_both_sides(resident, n);
    let want = resident[i];
    let m = (n - 1) as nat;
    if i == m {
        lemma_split_len(ids, resident, want, m);
    } else {
        lemma_split_keeps_every_entry(ids, resident, m, i);
    }
}

proof fn lemma_split_len(ids: Seq<usize>, resident: Seq<bool>, want: bool, n: nat)
    requires
        n <= resident.len(),
    ensures
        with_residency(ids, resident, want, n).len() == resident.take(n as int).filter(
            |b: bool| b == want,
        ).len(),
    decreases n,
{
    reveal(Seq::filter);
    if n > 0 {
        lemma_split_len(ids, resident, want, (n - 1) as nat);
        assert(resident.take(n as int).drop_last() =~= resident.take(n - 1));
    }
}

proof fn lemma_both_sides(resident: Seq<bool>, n: nat)
    requires
        n <= resident.len(),
    ensures
        resident.take(n as int).filter(|b: bool| b == true).len() + resident.take(n as int).filter(
            |b: bool| b == false,
        ).len() == n,
    decreases n,
{
    reveal(Seq::filter);
    if n > 0 {
        lemma_both_sides(resident, (n - 1) as nat);
        assert(resident.take(n as int).drop_last() =~= resident.take(n - 1));
    }
}

/// Pins are listed once each, ascending, and the list is settled by which entries
/// are pinned.
pub proof fn lemma_ascending_form_is_unique(pins: Seq<usize>, a: Seq<usize>, b: Seq<usize>)
    requires
        ascending_form(pins, a),
        ascending_form(pins, b),
    ensures
        a == b,
        a.no_duplicates(),
        forall|i: int, j: int| 0 <= i < j < a.len() ==> a[i] < a[j],
        forall|e: usize| #[trigger] a.contains(e) <==> pins.contains(e),
{
    assert forall|e: usize| #[trigger] a.contains(e) <==> b.contains(e) by {
        assert(a.contains(e) <==> pins.contains(e));
        assert(b.contains(e) <==> pins.contains(e));
    }
    lemma_ascending_lists_agree(a, b, a.len());
    lemma_ascending_lists_agree(b, a, b.len());
    assert(a =~= b);
}

proof fn lemma_ascending_lists_agree(a: Seq<usize>, b: Seq<usize>, n: nat)
    requires
        forall|i: int, j: int| 0 <= i < j < a.len() ==> a[i] < a[j],
        forall|i: int, j: int| 0 <= i < j < b.len() ==> b[i] < b[j],
        forall|e: usize| #[trigger] a.contains(e) <==> b.contains(e),
        n <= a.len(),
    ensures
        n <= b.len(),
        forall|i: int| 0 <= i < n ==> #[trigger] a[i] == b[i],
    decreases n,
{
    if n > 0 {
        let m = n - 1;
        lemma_ascending_lists_agree(a, b, m as nat);
        assert(a.contains(a[m]));
        assert(b.contains(a[m]));
        let j = choose|j: int| 0 <= j < b.len() && b[j] == a[m];
        if j < m {
            assert(a[j] == b[j]);
            assert(a[j] < a[m]);
        }
        if j > m {
            assert(b.contains(b[m]));
            assert(a.contains(b[m]));
            let k = choose|k: int| 0 <= k < a.len() && a[k] == b[m];
            assert(b[m] < b[j]);
            if k >= m {
                if k > m {
                    assert(a[m] < a[k]);
                }
            } else {
                assert(a[k] == b[k]);
                assert(b[k] < b[m]);
            }
        }
    }
}

/// Something was routed unless every expert's count is zero.
pub proof fn lemma_when_something_was_routed(counts: Seq<u32>)
    ensures
        !any_routed(counts) <==> forall|i: int| 0 <= i < counts.len() ==> #[trigger] counts[i] == 0,
{
}

} // verus!
