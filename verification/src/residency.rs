//! Which experts belong close to the compute: spill verdicts folded into the
//! heat, replicas of the hottest device-held ones, and which experts fire
//! together.

use std::collections::HashMap;
use vstd::prelude::*;

use crate::knobs;
use crate::mtp::MtpPins;
use crate::prefetch::ExpertKey;
use crate::prefetch::WarmBatch;
use crate::rank;

verus! {

/// How often the first `k` spills name entry `at`.
pub open spec fn asked(spills: Seq<(usize, usize)>, n_experts: int, at: int, k: nat) -> nat
    decreases k,
{
    if k == 0 {
        0
    } else {
        let here: nat = if spills[k - 1].0 * n_experts + spills[k - 1].1 == at {
            1
        } else {
            0
        };
        asked(spills, n_experts, at, (k - 1) as nat) + here
    }
}

/// `n` bumped `by` times, without going past the largest count.
pub open spec fn bumped(n: u32, by: nat) -> int {
    if n + by > u32::MAX {
        u32::MAX as int
    } else {
        n + by
    }
}

/// Folds spill verdicts into a heat table: every verdict bumps its expert once,
/// so an expert that was asked for often outranks an equally hot one that never
/// was. Verdicts past the table are ignored, however far past.
pub fn merge_spills(counts: &mut Vec<u32>, spills: &[(usize, usize)], n_experts: usize)
    ensures
        final(counts)@.len() == old(counts)@.len(),
        forall|i: int|
            0 <= i < old(counts)@.len() ==> #[trigger] final(counts)@[i] == bumped(
                old(counts)@[i],
                asked(spills@, n_experts as int, i, spills@.len()),
            ),
{
    let ghost before = counts@;
    let mut k: usize = 0;
    while k < spills.len()
        invariant
            k <= spills@.len(),
            counts@.len() == before.len(),
            forall|i: int|
                0 <= i < before.len() ==> #[trigger] counts@[i] == bumped(
                    before[i],
                    asked(spills@, n_experts as int, i, k as nat),
                ),
        decreases spills@.len() - k,
    {
        let layer: usize = spills[k].0;
        let e: usize = spills[k].1;
        let at: Option<usize> = match layer.checked_mul(n_experts) {
            Some(row) => row.checked_add(e),
            None => None,
        };
        match at {
            Some(at) => if at < counts.len() {
                let c: u32 = counts[at];
                counts.set(at, c.saturating_add(1));
            },
            None => {
                assert(counts@.len() == counts.len());
            },
        }
        k = k + 1;
    }
}

/// The share of a device set aside for the draft head's experts.
pub struct PinRequest {
    /// How often drafting routed to each expert.
    pub counts: Vec<u32>,
    /// The layer they belong to.
    pub layer: usize,
    /// Device bytes they may take.
    pub budget: usize,
}

/// What a new generation of the device's residents is ranked by.
pub struct Reheat {
    /// The heat of every expert, spill verdicts included.
    pub counts: Vec<u32>,
    /// The draft head's share, where there is a head that counts.
    pub pins: Option<PinRequest>,
    /// Replicas to read into the host cache afterwards.
    pub replicas: usize,
}

/// Gathers what a new generation is ranked by. Without a heat table there is no
/// generation. The spill verdicts logged since the last one are folded in first,
/// so what was asked for and refused moves up; the pin table is read at the same
/// instant, so the two describe the same routing.
pub fn reheat(
    heat: Option<Vec<u32>>,
    spills: Option<&[(usize, usize)]>,
    n_experts: usize,
    pins: Option<&MtpPins>,
    pin_mib: Option<&str>,
    replicate: Option<&str>,
) -> (r: Option<Reheat>)
    ensures
        r is Some <==> heat is Some,
        r is Some ==> {
            &&& (r->0).counts@.len() == (heat->0)@.len()
            &&& forall|i: int|
                0 <= i < (heat->0)@.len() ==> #[trigger] (r->0).counts@[i] == match spills {
                    Some(log) => bumped(
                        (heat->0)@[i],
                        asked(log@, n_experts as int, i, log@.len()),
                    ),
                    None => (heat->0)@[i] as int,
                }
            &&& (r->0).pins is Some <==> pins is Some
            &&& pins is Some ==> {
                &&& ((r->0).pins->0).counts@ == pins->0.routed()
                &&& ((r->0).pins->0).layer == pins->0.of_layer()
                &&& ((r->0).pins->0).budget == knobs::mib_bytes(knobs::setting(pin_mib))
            }
            &&& (r->0).replicas == match knobs::trimmed_number(
                knobs::setting(replicate),
                usize::MAX as int,
            ) {
                Some(k) => k,
                None => 0,
            }
        },
{
    match heat {
        Some(table) => {
            let mut counts: Vec<u32> = table;
            match spills {
                Some(log) => merge_spills(&mut counts, log, n_experts),
                None => {},
            }
            let pins: Option<PinRequest> = match pins {
                Some(p) => Some(
                    PinRequest {
                        counts: p.snapshot(),
                        layer: p.layer(),
                        budget: knobs::mib_budget(pin_mib),
                    },
                ),
                None => None,
            };
            let replicas: usize = match knobs::number(replicate) {
                Some(k) => k,
                None => 0,
            };
            Some(Reheat { counts, pins, replicas })
        },
        None => None,
    }
}

/// The entries of layers `first..last` that sit on a device, in order.
pub open spec fn held_entries(on_device: Seq<bool>, first: int, last: int) -> Seq<usize>
    decreases last - first,
{
    if last <= first {
        seq![]
    } else {
        let head = held_entries(on_device, first, last - 1);
        if on_device[last - 1] {
            head.push((last - 1) as usize)
        } else {
            head
        }
    }
}

/// Entry `at` of a heat table, zero past its end.
pub open spec fn heat_or_zero(heat: Seq<u32>, at: int) -> u32 {
    if 0 <= at < heat.len() {
        heat[at]
    } else {
        0
    }
}

/// The heats of `entries`, in order.
pub open spec fn heats_of(heat: Seq<u32>, entries: Seq<usize>) -> Seq<u32> {
    Seq::new(entries.len(), |i: int| heat_or_zero(heat, entries[i] as int))
}

/// The first `n` ranked entries that are not warm yet.
pub open spec fn unwarmed(entries: Seq<usize>, order: Seq<usize>, warm: Seq<bool>, n: nat) -> Seq<usize>
    decreases n,
{
    if n == 0 {
        seq![]
    } else {
        let head = unwarmed(entries, order, warm, (n - 1) as nat);
        let e = entries[order[n - 1] as int];
        if warm[e as int] {
            head
        } else {
            head.push(e)
        }
    }
}

/// `out` are the replicas to read: of the `k` hottest device-held entries, equal
/// heat in entry order, those that are not warm.
pub open spec fn replicas(
    on_device: Seq<bool>,
    warm: Seq<bool>,
    heat: Seq<u32>,
    first: int,
    k: int,
    out: Seq<usize>,
) -> bool {
    let entries = held_entries(on_device, first, on_device.len() as int);
    exists|order: Seq<usize>|
        #[trigger] rank::is_ranking(heats_of(heat, entries), order) && out == unwarmed(
            entries,
            order,
            warm,
            (if k < order.len() {
                k
            } else {
                order.len() as int
            }) as nat,
        )
}

/// Chooses the replicas to read into the host cache: the `k` hottest experts
/// held on a device, so that losing the device to another use never costs a disk
/// read for one of them. Entries are `layer * n_experts + expert`; `first` is the
/// first sparse layer's.
pub fn enqueue_expert_replicas(
    on_device: &Vec<bool>,
    warm: &Vec<bool>,
    heat: &Vec<u32>,
    first: usize,
    k: usize,
) -> (out: Vec<usize>)
    requires
        warm@.len() == on_device@.len(),
    ensures
        replicas(on_device@, warm@, heat@, first as int, k as int, out@),
        k == 0 ==> out@.len() == 0,
{
    let mut entries: Vec<usize> = Vec::new();
    let mut heats: Vec<u32> = Vec::new();
    let mut at: usize = first;
    while at < on_device.len()
        invariant
            first <= at,
            at > on_device@.len() ==> at == first,
            entries@ == held_entries(on_device@, first as int, at as int),
            heats@ == heats_of(heat@, entries@),
            forall|i: int| 0 <= i < entries@.len() ==> #[trigger] entries@[i] < on_device@.len(),
        decreases on_device@.len() - at,
    {
        if on_device[at] {
            entries.push(at);
            heats.push(
                if at < heat.len() {
                    heat[at]
                } else {
                    0
                },
            );
            assert(heats@ =~= heats_of(heat@, entries@));
        }
        at = at + 1;
    }
    proof {
        if at > on_device@.len() {
            assert(held_entries(on_device@, first as int, at as int) == held_entries(
                on_device@,
                first as int,
                on_device@.len() as int,
            ));
        }
    }
    let order = rank::by_heat(heats.as_slice());
    let n: usize = if k < order.len() {
        k
    } else {
        order.len()
    };
    let mut out: Vec<usize> = Vec::new();
    let mut i: usize = 0;
    while i < n
        invariant
            i <= n <= order@.len(),
            order@.len() == entries@.len(),
            warm@.len() == on_device@.len(),
            forall|j: int| 0 <= j < order@.len() ==> #[trigger] order@[j] < entries@.len(),
            forall|j: int| 0 <= j < entries@.len() ==> #[trigger] entries@[j] < on_device@.len(),
            out@ == unwarmed(entries@, order@, warm@, i as nat),
            k == 0 ==> n == 0,
            i == 0 ==> out@.len() == 0,
        decreases n - i,
    {
        let e: usize = entries[order[i]];
        if !warm[e] {
            out.push(e);
        }
        i = i + 1;
    }
    proof {
        assert(rank::is_ranking(heats_of(heat@, entries@), order@));
    }
    out
}

/// The reads that bring replicas into the host cache. Entries are
/// `layer * n_experts + expert`. The reads are deliberate: none goes stale.
pub fn replica_batch(entries: &Vec<usize>, n_experts: usize) -> (b: WarmBatch)
    requires
        n_experts > 0,
    ensures
        b.wf(),
        b.left() == Seq::new(
            entries@.len(),
            |i: int| ((entries@[i] / n_experts) as u32, (entries@[i] % n_experts) as u32),
        ),
        b.stamped() == u64::MAX,
{
    let mut items: Vec<ExpertKey> = Vec::new();
    let mut i: usize = 0;
    while i < entries.len()
        invariant
            n_experts > 0,
            i <= entries@.len(),
            items@ == Seq::new(
                i as nat,
                |k: int| ((entries@[k] / n_experts) as u32, (entries@[k] % n_experts) as u32),
            ),
        decreases entries@.len() - i,
    {
        items.push(((entries[i] / n_experts) as u32, (entries[i] % n_experts) as u32));
        i = i + 1;
        assert(items@ =~= Seq::new(
            i as nat,
            |k: int| ((entries@[k] / n_experts) as u32, (entries@[k] % n_experts) as u32),
        ));
    }
    WarmBatch::deliberate(items)
}

/// `a` and `b` are one of the first `k` pairs, in either order.
pub open spec fn paired(pairs: Seq<(u32, u32)>, k: nat, a: u32, b: u32) -> bool {
    exists|i: int|
        0 <= i < k && ((#[trigger] pairs[i]) == (a, b) || pairs[i] == (b, a))
}

/// `path` runs along the first `k` pairs from `a` to `b`.
pub open spec fn runs(pairs: Seq<(u32, u32)>, k: nat, path: Seq<u32>, a: u32, b: u32) -> bool {
    &&& path.len() > 0
    &&& path[0] == a
    &&& path.last() == b
    &&& forall|i: int, j: int|
        #![trigger path[i], path[j]]
        0 <= i < path.len() && j == i + 1 && j < path.len() ==> paired(pairs, k, path[i], path[j])
}

/// The first `k` pairs connect `a` and `b`.
pub open spec fn connected(pairs: Seq<(u32, u32)>, k: nat, a: u32, b: u32) -> bool {
    exists|path: Seq<u32>| #[trigger] runs(pairs, k, path, a, b)
}

/// `e` occurs in one of the first `k` pairs.
pub open spec fn occurs(pairs: Seq<(u32, u32)>, k: nat, e: u32) -> bool {
    exists|i: int| 0 <= i < k && ((#[trigger] pairs[i]).0 == e || pairs[i].1 == e)
}

proof fn lemma_connected_self(pairs: Seq<(u32, u32)>, k: nat, a: u32)
    ensures
        connected(pairs, k, a, a),
{
    assert(runs(pairs, k, seq![a], a, a));
}

proof fn lemma_connected_pair(pairs: Seq<(u32, u32)>, k: nat, a: u32, b: u32)
    requires
        paired(pairs, k, a, b),
    ensures
        connected(pairs, k, a, b),
{
    assert(runs(pairs, k, seq![a, b], a, b));
}

proof fn lemma_connected_reversed(pairs: Seq<(u32, u32)>, k: nat, a: u32, b: u32)
    requires
        connected(pairs, k, a, b),
    ensures
        connected(pairs, k, b, a),
{
    let path = choose|path: Seq<u32>| #[trigger] runs(pairs, k, path, a, b);
    let back = Seq::new(path.len(), |i: int| path[path.len() - 1 - i]);
    assert forall|i: int, j: int|
        #![trigger back[i], back[j]]
        0 <= i < back.len() && j == i + 1 && j < back.len() implies paired(
        pairs,
        k,
        back[i],
        back[j],
    ) by {
        let x = path[path.len() - 1 - j];
        let y = path[path.len() - 1 - i];
        assert(paired(pairs, k, x, y));
        let m = choose|m: int|
            0 <= m < k && ((#[trigger] pairs[m]) == (x, y) || pairs[m] == (y, x));
        assert(pairs[m] == (y, x) || pairs[m] == (x, y));
    }
    assert(runs(pairs, k, back, b, a));
}

proof fn lemma_connected_through(pairs: Seq<(u32, u32)>, k: nat, a: u32, b: u32, c: u32)
    requires
        connected(pairs, k, a, b),
        connected(pairs, k, b, c),
    ensures
        connected(pairs, k, a, c),
{
    let p = choose|path: Seq<u32>| #[trigger] runs(pairs, k, path, a, b);
    let q = choose|path: Seq<u32>| #[trigger] runs(pairs, k, path, b, c);
    let r = p + q.subrange(1, q.len() as int);
    assert forall|i: int, j: int|
        #![trigger r[i], r[j]]
        0 <= i < r.len() && j == i + 1 && j < r.len() implies paired(pairs, k, r[i], r[j]) by {
        if j < p.len() {
            assert(paired(pairs, k, p[i], p[j]));
        } else {
            let n = i - p.len() + 1;
            assert(r[i] == q[n]);
            assert(r[j] == q[n + 1]);
            assert(paired(pairs, k, q[n], q[n + 1]));
        }
    }
    assert(r[0] == a);
    assert(r.last() == c);
    assert(runs(pairs, k, r, a, c));
}

proof fn lemma_connected_grows(pairs: Seq<(u32, u32)>, k: nat, m: nat, a: u32, b: u32)
    requires
        connected(pairs, k, a, b),
        k <= m,
    ensures
        connected(pairs, m, a, b),
{
    let path = choose|path: Seq<u32>| #[trigger] runs(pairs, k, path, a, b);
    assert forall|i: int, j: int|
        #![trigger path[i], path[j]]
        0 <= i < path.len() && j == i + 1 && j < path.len() implies paired(
        pairs,
        m,
        path[i],
        path[j],
    ) by {
        assert(paired(pairs, k, path[i], path[j]));
    }
    assert(runs(pairs, m, path, a, b));
}

/// `labels` tells the components of the first `k` pairs apart: it covers the
/// experts that occur, gives the two ends of every pair one label, and labels an
/// expert with a connected one that is no larger.
spec fn labelled(pairs: Seq<(u32, u32)>, k: nat, labels: Map<u32, u32>) -> bool {
    &&& forall|e: u32| #[trigger] labels.dom().contains(e) <==> occurs(pairs, k, e)
    &&& forall|i: int|
        0 <= i < k ==> labels[(#[trigger] pairs[i]).0] == labels[pairs[i].1]
    &&& forall|e: u32| #[trigger]
        labels.dom().contains(e) ==> connected(pairs, k, e, labels[e]) && labels[e] <= e
            && labels.dom().contains(labels[e]) && labels[labels[e]] == labels[e]
}

proof fn lemma_path_keeps_label(
    pairs: Seq<(u32, u32)>,
    k: nat,
    labels: Map<u32, u32>,
    path: Seq<u32>,
    a: u32,
    b: u32,
    n: int,
)
    requires
        labelled(pairs, k, labels),
        runs(pairs, k, path, a, b),
        0 <= n < path.len(),
    ensures
        labels[path[n]] == labels[a],
    decreases n,
{
    if n > 0 {
        lemma_path_keeps_label(pairs, k, labels, path, a, b, n - 1);
        assert(paired(pairs, k, path[n - 1], path[n]));
    }
}

proof fn lemma_connected_same_label(
    pairs: Seq<(u32, u32)>,
    k: nat,
    labels: Map<u32, u32>,
    a: u32,
    b: u32,
)
    requires
        labelled(pairs, k, labels),
        connected(pairs, k, a, b),
    ensures
        labels[a] == labels[b],
{
    let path = choose|path: Seq<u32>| #[trigger] runs(pairs, k, path, a, b);
    lemma_path_keeps_label(pairs, k, labels, path, a, b, path.len() - 1);
}

proof fn lemma_connected_occurs(pairs: Seq<(u32, u32)>, k: nat, a: u32, b: u32)
    requires
        connected(pairs, k, a, b),
        occurs(pairs, k, a),
    ensures
        occurs(pairs, k, b),
{
    let path = choose|path: Seq<u32>| #[trigger] runs(pairs, k, path, a, b);
    if path.len() > 1 {
        let n = path.len() - 1;
        assert(paired(pairs, k, path[n - 1], path[n]));
    }
}

/// `e` fires together with some other expert.
pub open spec fn grouped(pairs: Seq<(u32, u32)>, e: u32) -> bool {
    exists|f: u32| f != e && #[trigger] connected(pairs, pairs.len(), e, f)
}

/// `g` is the least expert `e` fires together with, itself counted.
pub open spec fn least_connected(pairs: Seq<(u32, u32)>, e: u32, g: u32) -> bool {
    &&& connected(pairs, pairs.len(), e, g)
    &&& forall|f: u32| #[trigger] connected(pairs, pairs.len(), e, f) ==> g <= f
}

/// Relabels every expert labelled `from` as `to`.
fn relabel(experts: &Vec<u32>, labels: &mut HashMap<u32, u32>, from: u32, to: u32)
    requires
        forall|i: int| 0 <= i < experts@.len() ==> old(labels)@.dom().contains(#[trigger] experts@[i]),
        forall|e: u32| #[trigger] old(labels)@.dom().contains(e) ==> experts@.contains(e),
    ensures
        final(labels)@.dom() == old(labels)@.dom(),
        forall|e: u32| #[trigger]
            old(labels)@.dom().contains(e) ==> final(labels)@[e] == if old(labels)@[e] == from {
                to
            } else {
                old(labels)@[e]
            },
{
    broadcast use vstd::std_specs::hash::group_hash_axioms;

    let ghost before = labels@;
    let mut i: usize = 0;
    while i < experts.len()
        invariant
            i <= experts@.len(),
            forall|j: int|
                0 <= j < experts@.len() ==> before.dom().contains(#[trigger] experts@[j]),
            labels@.dom() == before.dom(),
            forall|e: u32| #[trigger]
                before.dom().contains(e) ==> labels@[e] == before[e] || (before[e] == from
                    && labels@[e] == to),
            forall|j: int|
                0 <= j < i ==> labels@[#[trigger] experts@[j]] == if before[experts@[j]] == from {
                    to
                } else {
                    before[experts@[j]]
                },
        decreases experts@.len() - i,
    {
        let e: u32 = experts[i];
        let ghost prev = labels@;
        assert(before.dom().contains(experts@[i as int]));
        let l: u32 = match labels.get(&e) {
            Some(l) => *l,
            None => e,
        };
        assert(l == labels@[e]);
        if l == from {
            labels.insert(e, to);
            assert(labels@.dom() =~= before.dom());
        }
        i = i + 1;
        assert forall|j: int| 0 <= j < i implies labels@[#[trigger] experts@[j]] == if before[experts@[j]] == from {
            to
        } else {
            before[experts@[j]]
        } by {
            if experts@[j] != e {
                assert(j < i - 1);
            } else {
                assert(before.dom().contains(e));
            }
        }
    }
    assert forall|e: u32| #[trigger] before.dom().contains(e) implies labels@[e] == if before[e] == from {
        to
    } else {
        before[e]
    } by {
        let j = choose|j: int| 0 <= j < experts@.len() && experts@[j] == e;
        assert(experts@[j] == e);
    }
}

/// `labels` with `e` as its own component, where it has none yet.
spec fn entered(labels: Map<u32, u32>, e: u32) -> Map<u32, u32> {
    if labels.dom().contains(e) {
        labels
    } else {
        labels.insert(e, e)
    }
}

/// `after` is `labels` with label `from` replaced by `to`.
spec fn merged(labels: Map<u32, u32>, from: u32, to: u32, after: Map<u32, u32>) -> bool {
    &&& after.dom() == labels.dom()
    &&& forall|e: u32| #[trigger]
        labels.dom().contains(e) ==> after[e] == if labels[e] == from {
            to
        } else {
            labels[e]
        }
}

proof fn lemma_label_step(
    pairs: Seq<(u32, u32)>,
    k: nat,
    labels: Map<u32, u32>,
    from: u32,
    to: u32,
    after: Map<u32, u32>,
)
    requires
        k < pairs.len(),
        labelled(pairs, k, labels),
        ({
            let l = entered(entered(labels, pairs[k as int].0), pairs[k as int].1);
            let la = l[pairs[k as int].0];
            let lb = l[pairs[k as int].1];
            &&& to <= from
            &&& (la == from && lb == to) || (la == to && lb == from)
            &&& merged(l, from, to, after)
        }),
    ensures
        labelled(pairs, k + 1, after),
{
    let m = k + 1;
    let a = pairs[k as int].0;
    let b = pairs[k as int].1;
    let l = entered(entered(labels, a), b);
    assert forall|e: u32| #[trigger] after.dom().contains(e) <==> occurs(pairs, m, e) by {
        if after.dom().contains(e) {
            if e == a || e == b {
                assert(pairs[k as int].0 == e || pairs[k as int].1 == e);
            } else {
                assert(labels.dom().contains(e));
                let i = choose|i: int|
                    0 <= i < k && ((#[trigger] pairs[i]).0 == e || pairs[i].1 == e);
                assert(0 <= i < m && (pairs[i].0 == e || pairs[i].1 == e));
            }
        }
        if occurs(pairs, m, e) {
            let i = choose|i: int| 0 <= i < m && ((#[trigger] pairs[i]).0 == e || pairs[i].1 == e);
            if i < k {
                assert(occurs(pairs, k, e));
                assert(labels.dom().contains(e));
            }
        }
    }
    assert forall|i: int| 0 <= i < m implies after[(#[trigger] pairs[i]).0] == after[pairs[i].1] by {
        if i < k {
            let x = pairs[i].0;
            let y = pairs[i].1;
            assert(occurs(pairs, k, x));
            assert(occurs(pairs, k, y));
            assert(labels.dom().contains(x) && labels.dom().contains(y));
            assert(l[x] == labels[x] && l[y] == labels[y]);
            assert(l.dom().contains(x) && l.dom().contains(y));
        } else {
            assert(l.dom().contains(a) && l.dom().contains(b));
        }
    }
    assert forall|e: u32| #[trigger] l.dom().contains(e) implies connected(pairs, m, e, l[e]) && l[e]
        <= e && l.dom().contains(l[e]) && l[l[e]] == l[e] by {
        if labels.dom().contains(e) {
            lemma_connected_grows(pairs, k, m, e, labels[e]);
            assert(labels.dom().contains(labels[e]));
        } else {
            lemma_connected_self(pairs, m, e);
        }
    }
    assert(paired(pairs, m, a, b)) by {
        assert(pairs[k as int] == (a, b));
    }
    lemma_connected_pair(pairs, m, a, b);
    assert(l.dom().contains(a) && l.dom().contains(b));
    lemma_connected_reversed(pairs, m, a, l[a]);
    lemma_connected_reversed(pairs, m, b, l[b]);
    lemma_connected_reversed(pairs, m, a, b);
    if l[a] == from {
        lemma_connected_through(pairs, m, from, a, b);
        lemma_connected_through(pairs, m, from, b, to);
    } else {
        lemma_connected_through(pairs, m, from, b, a);
        lemma_connected_through(pairs, m, from, a, to);
    }
    assert forall|e: u32| #[trigger] after.dom().contains(e) implies connected(pairs, m, e, after[e])
        && after[e] <= e && after.dom().contains(after[e]) && after[after[e]] == after[e] by {
        assert(l.dom().contains(e));
        if l[e] == from {
            lemma_connected_through(pairs, m, e, from, to);
        }
        assert(l.dom().contains(to));
        assert(l[to] == to);
        assert(l.dom().contains(after[e]));
    }
}

proof fn lemma_ends_occur(pairs: Seq<(u32, u32)>, k: nat, a: u32, b: u32)
    requires
        connected(pairs, k, a, b),
        a != b,
    ensures
        occurs(pairs, k, a),
        occurs(pairs, k, b),
{
    let path = choose|path: Seq<u32>| #[trigger] runs(pairs, k, path, a, b);
    assert(path.len() > 1);
    assert(paired(pairs, k, path[0], path[1]));
    let n = path.len() - 1;
    assert(paired(pairs, k, path[n - 1], path[n]));
}

proof fn lemma_same_label_connected(
    pairs: Seq<(u32, u32)>,
    k: nat,
    labels: Map<u32, u32>,
    a: u32,
    b: u32,
)
    requires
        labelled(pairs, k, labels),
        labels.dom().contains(a),
        labels.dom().contains(b),
        labels[a] == labels[b],
    ensures
        connected(pairs, k, a, b),
{
    lemma_connected_reversed(pairs, k, b, labels[b]);
    lemma_connected_through(pairs, k, a, labels[a], b);
}

proof fn lemma_label_is_least(pairs: Seq<(u32, u32)>, labels: Map<u32, u32>, e: u32)
    requires
        labelled(pairs, pairs.len(), labels),
        labels.dom().contains(e),
    ensures
        least_connected(pairs, e, labels[e]),
{
    assert forall|f: u32| #[trigger] connected(pairs, pairs.len(), e, f) implies labels[e] <= f by {
        lemma_connected_same_label(pairs, pairs.len(), labels, e, f);
        lemma_connected_occurs(pairs, pairs.len(), e, f);
        assert(labels.dom().contains(f));
    }
}

fn has_company(experts: &Vec<u32>, labels: &HashMap<u32, u32>, e: u32, label: u32) -> (b: bool)
    requires
        forall|i: int| 0 <= i < experts@.len() ==> labels@.dom().contains(#[trigger] experts@[i]),
    ensures
        b == exists|i: int|
            0 <= i < experts@.len() && (#[trigger] experts@[i]) != e && labels@[experts@[i]] == label,
{
    broadcast use vstd::std_specs::hash::group_hash_axioms;

    let mut i: usize = 0;
    while i < experts.len()
        invariant
            i <= experts@.len(),
            forall|j: int| 0 <= j < experts@.len() ==> labels@.dom().contains(#[trigger] experts@[j]),
            forall|j: int|
                0 <= j < i ==> (#[trigger] experts@[j]) == e || labels@[experts@[j]] != label,
        decreases experts@.len() - i,
    {
        let f: u32 = experts[i];
        assert(labels@.dom().contains(experts@[i as int]));
        let l: u32 = match labels.get(&f) {
            Some(l) => *l,
            None => f,
        };
        if f != e && l == label {
            assert(experts@[i as int] != e && labels@[experts@[i as int]] == label);
            return true;
        }
        i = i + 1;
    }
    false
}

/// Enters an expert as its own component, where it has none yet.
fn enter(experts: &mut Vec<u32>, labels: &mut HashMap<u32, u32>, e: u32) -> (label: u32)
    requires
        forall|i: int| 0 <= i < old(experts)@.len() ==> old(labels)@.dom().contains(#[trigger] old(experts)@[i]),
        forall|x: u32| #[trigger] old(labels)@.dom().contains(x) ==> old(experts)@.contains(x),
    ensures
        final(labels)@ == entered(old(labels)@, e),
        label == final(labels)@[e],
        forall|i: int| 0 <= i < final(experts)@.len() ==> final(labels)@.dom().contains(#[trigger] final(experts)@[i]),
        forall|x: u32| #[trigger] final(labels)@.dom().contains(x) ==> final(experts)@.contains(x),
{
    broadcast use vstd::std_specs::hash::group_hash_axioms;

    match labels.get(&e) {
        Some(l) => *l,
        None => {
            let ghost before = experts@;
            experts.push(e);
            labels.insert(e, e);
            assert(experts@.last() == e);
            assert forall|x: u32| #[trigger] labels@.dom().contains(x) implies experts@.contains(x) by {
                if x == e {
                    assert(experts@[experts@.len() - 1] == e);
                } else {
                    let i = choose|i: int| 0 <= i < before.len() && before[i] == x;
                    assert(experts@[i] == x);
                }
            }
            e
        },
    }
}

/// Groups a layer's experts by the pairs that fire together: every expert that
/// is connected to another gets the least expert of its component. Experts on
/// their own say nothing and are left out.
pub fn rebuild_affinity(pairs: &Vec<(u32, u32)>) -> (groups: HashMap<u32, u32>)
    ensures
        forall|e: u32| #[trigger] groups@.dom().contains(e) <==> grouped(pairs@, e),
        forall|e: u32| #[trigger]
            groups@.dom().contains(e) ==> least_connected(pairs@, e, groups@[e]),
{
    broadcast use vstd::std_specs::hash::group_hash_axioms;

    let mut experts: Vec<u32> = Vec::new();
    let mut labels: HashMap<u32, u32> = HashMap::new();
    let mut k: usize = 0;
    while k < pairs.len()
        invariant
            k <= pairs@.len(),
            labelled(pairs@, k as nat, labels@),
            forall|i: int| 0 <= i < experts@.len() ==> labels@.dom().contains(#[trigger] experts@[i]),
            forall|x: u32| #[trigger] labels@.dom().contains(x) ==> experts@.contains(x),
        decreases pairs@.len() - k,
    {
        let a: u32 = pairs[k].0;
        let b: u32 = pairs[k].1;
        let ghost before = labels@;
        enter(&mut experts, &mut labels, a);
        let lb: u32 = enter(&mut experts, &mut labels, b);
        let la: u32 = match labels.get(&a) {
            Some(l) => *l,
            None => a,
        };
        let ghost l = labels@;
        let from: u32 = if la > lb {
            la
        } else {
            lb
        };
        let to: u32 = if la > lb {
            lb
        } else {
            la
        };
        if from != to {
            relabel(&experts, &mut labels, from, to);
        }
        proof {
            assert(merged(l, from, to, labels@));
            lemma_label_step(pairs@, k as nat, before, from, to, labels@);
        }
        k = k + 1;
    }
    let mut groups: HashMap<u32, u32> = HashMap::new();
    let mut i: usize = 0;
    while i < experts.len()
        invariant
            i <= experts@.len(),
            labelled(pairs@, pairs@.len(), labels@),
            forall|j: int| 0 <= j < experts@.len() ==> labels@.dom().contains(#[trigger] experts@[j]),
            forall|x: u32| #[trigger] labels@.dom().contains(x) ==> experts@.contains(x),
            forall|e: u32| #[trigger]
                groups@.dom().contains(e) ==> grouped(pairs@, e) && groups@[e] == labels@[e]
                    && labels@.dom().contains(e),
            forall|j: int|
                0 <= j < i && grouped(pairs@, #[trigger] experts@[j]) ==> groups@.dom().contains(
                    experts@[j],
                ),
        decreases experts@.len() - i,
    {
        let e: u32 = experts[i];
        assert(labels@.dom().contains(experts@[i as int]));
        let label: u32 = match labels.get(&e) {
            Some(l) => *l,
            None => e,
        };
        let company = has_company(&experts, &labels, e, label);
        proof {
            if company {
                let j = choose|j: int|
                    0 <= j < experts@.len() && (#[trigger] experts@[j]) != e && labels@[experts@[j]]
                        == label;
                lemma_same_label_connected(pairs@, pairs@.len(), labels@, e, experts@[j]);
                assert(grouped(pairs@, e));
            }
            if grouped(pairs@, e) {
                let f = choose|f: u32| f != e && #[trigger] connected(pairs@, pairs@.len(), e, f);
                lemma_ends_occur(pairs@, pairs@.len(), e, f);
                lemma_connected_same_label(pairs@, pairs@.len(), labels@, e, f);
                assert(labels@.dom().contains(f));
                let j = choose|j: int| 0 <= j < experts@.len() && experts@[j] == f;
                assert(experts@[j] == f);
            }
        }
        if company {
            groups.insert(e, label);
        }
        i = i + 1;
    }
    proof {
        assert forall|e: u32| #[trigger] groups@.dom().contains(e) <==> grouped(pairs@, e) by {
            if grouped(pairs@, e) {
                let f = choose|f: u32| f != e && #[trigger] connected(pairs@, pairs@.len(), e, f);
                lemma_ends_occur(pairs@, pairs@.len(), e, f);
                assert(labels@.dom().contains(e));
                let j = choose|j: int| 0 <= j < experts@.len() && experts@[j] == e;
                assert(experts@[j] == e);
            }
        }
        assert forall|e: u32| #[trigger] groups@.dom().contains(e) implies least_connected(
            pairs@,
            e,
            groups@[e],
        ) by {
            lemma_label_is_least(pairs@, labels@, e);
        }
    }
    groups
}

/// Two experts get one group exactly when they are connected.
pub proof fn lemma_one_group_iff_connected(pairs: Seq<(u32, u32)>, a: u32, b: u32, ga: u32, gb: u32)
    requires
        least_connected(pairs, a, ga),
        least_connected(pairs, b, gb),
    ensures
        ga == gb <==> connected(pairs, pairs.len(), a, b),
{
    let n = pairs.len();
    if ga == gb {
        lemma_connected_reversed(pairs, n, b, gb);
        lemma_connected_through(pairs, n, a, ga, b);
    }
    if connected(pairs, n, a, b) {
        lemma_connected_through(pairs, n, a, b, gb);
        lemma_connected_reversed(pairs, n, a, b);
        lemma_connected_through(pairs, n, b, a, ga);
    }
}

/// The layers from the first sparse one on that have routed something.
pub open spec fn routed_layers(routed: Seq<bool>, first: int, last: int) -> Seq<usize>
    decreases last - first,
{
    if last <= first {
        seq![]
    } else {
        let head = routed_layers(routed, first, last - 1);
        if routed[last - 1] {
            head.push((last - 1) as usize)
        } else {
            head
        }
    }
}

/// The layers whose newest routed set is folded after a forward, into the
/// co-activation counts and into the topic of that same sequence.
pub fn folded_layers(routed: &Vec<bool>, first_dense: usize) -> (out: Vec<usize>)
    ensures
        out@ == routed_layers(routed@, first_dense as int, routed@.len() as int),
{
    let mut out: Vec<usize> = Vec::new();
    let mut l: usize = first_dense;
    while l < routed.len()
        invariant
            first_dense <= l,
            l > routed@.len() ==> l == first_dense,
            out@ == routed_layers(routed@, first_dense as int, l as int),
        decreases routed@.len() - l,
    {
        if routed[l] {
            out.push(l);
        }
        l = l + 1;
    }
    proof {
        if l > routed@.len() {
            assert(routed_layers(routed@, first_dense as int, routed@.len() as int) =~= seq![]);
        }
    }
    out
}

/// An entry's bumps are the spills that name it, each counted once.
pub proof fn lemma_asked_counts_spills(spills: Seq<(usize, usize)>, n_experts: int, at: int, k: nat)
    requires
        k <= spills.len(),
    ensures
        asked(spills, n_experts, at, k) == spills.take(k as int).filter(
            |s: (usize, usize)| s.0 * n_experts + s.1 == at,
        ).len(),
    decreases k,
{
    reveal(Seq::filter);
    if k > 0 {
        lemma_asked_counts_spills(spills, n_experts, at, (k - 1) as nat);
        assert(spills.take(k as int).drop_last() =~= spills.take(k - 1));
    }
}

/// A bumped count goes up by every bump and stays at the largest count.
pub proof fn lemma_bumps_saturate(n: u32, by: nat)
    ensures
        n <= bumped(n, by) <= u32::MAX,
        n + by <= u32::MAX ==> bumped(n, by) == n + by,
        n + by >= u32::MAX ==> bumped(n, by) == u32::MAX,
{
}

/// The entries held on devices are exactly those of the range that are, each
/// listed once, in ascending order.
pub proof fn lemma_held_entries_are_the_device_ones(on_device: Seq<bool>, first: int, last: int)
    requires
        0 <= first,
        last <= usize::MAX,
    ensures
        forall|e: usize| #[trigger]
            held_entries(on_device, first, last).contains(e) <==> first <= e < last
                && on_device[e as int],
        forall|i: int, j: int|
            0 <= i < j < held_entries(on_device, first, last).len() ==> held_entries(
                on_device,
                first,
                last,
            )[i] < held_entries(on_device, first, last)[j],
    decreases last - first,
{
    let held = held_entries(on_device, first, last);
    if last > first {
        lemma_held_entries_are_the_device_ones(on_device, first, last - 1);
        let head = held_entries(on_device, first, last - 1);
        assert forall|i: int| 0 <= i < head.len() implies (#[trigger] head[i]) < last - 1 by {
            assert(head.contains(head[i]));
        }
        assert forall|e: usize| #[trigger] held.contains(e) <==> first <= e < last
            && on_device[e as int] by {
            if on_device[last - 1] {
                assert(held == head.push((last - 1) as usize));
                if held.contains(e) {
                    let i = choose|i: int| 0 <= i < held.len() && held[i] == e;
                    if i < head.len() {
                        assert(head[i] == e);
                        assert(head.contains(e));
                    }
                }
                if head.contains(e) {
                    let i = choose|i: int| 0 <= i < head.len() && head[i] == e;
                    assert(held[i] == e);
                }
                if e == last - 1 {
                    assert(held[head.len() as int] == e);
                }
            } else {
                assert(held == head);
                assert(held.contains(e) == head.contains(e));
            }
        }
    }
}

/// The layers that have routed something are exactly those of the range that
/// have, each listed once, in ascending order.
pub proof fn lemma_routed_layers_are_the_routed_ones(routed: Seq<bool>, first: int, last: int)
    requires
        0 <= first,
        last <= usize::MAX,
    ensures
        forall|l: usize| #[trigger]
            routed_layers(routed, first, last).contains(l) <==> first <= l < last
                && routed[l as int],
        forall|i: int, j: int|
            0 <= i < j < routed_layers(routed, first, last).len() ==> routed_layers(
                routed,
                first,
                last,
            )[i] < routed_layers(routed, first, last)[j],
    decreases last - first,
{
    let all = routed_layers(routed, first, last);
    if last > first {
        lemma_routed_layers_are_the_routed_ones(routed, first, last - 1);
        let head = routed_layers(routed, first, last - 1);
        assert forall|i: int| 0 <= i < head.len() implies (#[trigger] head[i]) < last - 1 by {
            assert(head.contains(head[i]));
        }
        assert forall|l: usize| #[trigger] all.contains(l) <==> first <= l < last
            && routed[l as int] by {
            if routed[last - 1] {
                assert(all == head.push((last - 1) as usize));
                if all.contains(l) {
                    let i = choose|i: int| 0 <= i < all.len() && all[i] == l;
                    if i < head.len() {
                        assert(head[i] == l);
                        assert(head.contains(l));
                    }
                }
                if head.contains(l) {
                    let i = choose|i: int| 0 <= i < head.len() && head[i] == l;
                    assert(all[i] == l);
                }
                if l == last - 1 {
                    assert(all[head.len() as int] == l);
                }
            } else {
                assert(all == head);
                assert(all.contains(l) == head.contains(l));
            }
        }
    }
}

proof fn lemma_unwarmed_are_the_cold_ones(
    entries: Seq<usize>,
    order: Seq<usize>,
    warm: Seq<bool>,
    n: nat,
    e: usize,
)
    requires
        n <= order.len(),
    ensures
        unwarmed(entries, order, warm, n).len() <= n,
        unwarmed(entries, order, warm, n).contains(e) <==> !warm[e as int] && exists|i: int|
            0 <= i < n && entries[#[trigger] order[i] as int] == e,
    decreases n,
{
    let out = unwarmed(entries, order, warm, n);
    if n > 0 {
        let head = unwarmed(entries, order, warm, (n - 1) as nat);
        lemma_unwarmed_are_the_cold_ones(entries, order, warm, (n - 1) as nat, e);
        let last = entries[order[n - 1] as int];
        if !warm[last as int] {
            assert(out == head.push(last));
            if out.contains(e) {
                let i = choose|i: int| 0 <= i < out.len() && out[i] == e;
                if i < head.len() {
                    assert(head[i] == e);
                    assert(head.contains(e));
                }
            }
            if head.contains(e) {
                let i = choose|i: int| 0 <= i < head.len() && head[i] == e;
                assert(out[i] == e);
            }
            if last == e {
                assert(out[head.len() as int] == e);
            }
        } else {
            assert(out == head);
        }
    } else {
        assert(out =~= seq![]);
    }
}

/// What is read as a replica sits on a device, lies at or past the first entry
/// and is not warm, and at most `k` are read. A cold device-held entry that is
/// left out is no hotter than any that is read, and stands after it where their
/// heats are equal. Where `k` covers every entry, none is left out.
pub proof fn lemma_replicas_are_the_hottest_cold_ones(
    on_device: Seq<bool>,
    warm: Seq<bool>,
    heat: Seq<u32>,
    first: int,
    k: int,
    out: Seq<usize>,
)
    requires
        replicas(on_device, warm, heat, first, k, out),
        0 <= first,
        0 <= k,
        on_device.len() <= usize::MAX,
        on_device.len() <= heat.len(),
        on_device.len() == warm.len(),
    ensures
        out.len() <= k,
        forall|e: usize| #[trigger]
            out.contains(e) ==> first <= e < on_device.len() && on_device[e as int]
                && !warm[e as int],
        forall|e: usize, c: usize|
            #![trigger out.contains(e), out.contains(c)]
            out.contains(e) && !out.contains(c) && first <= c < on_device.len()
                && on_device[c as int] && !warm[c as int] ==> heat[e as int] > heat[c as int] || (
            heat[e as int] == heat[c as int] && e < c),
        k >= on_device.len() - first ==> forall|c: usize|
            first <= c < on_device.len() && on_device[c as int] && !warm[c as int]
                ==> #[trigger] out.contains(c),
{
    let entries = held_entries(on_device, first, on_device.len() as int);
    let heats = heats_of(heat, entries);
    let order = choose|order: Seq<usize>| #[trigger]
        rank::is_ranking(heats, order) && out == unwarmed(
            entries,
            order,
            warm,
            (if k < order.len() {
                k
            } else {
                order.len() as int
            }) as nat,
        );
    let n = (if k < order.len() {
        k
    } else {
        order.len() as int
    }) as nat;
    lemma_held_entries_are_the_device_ones(on_device, first, on_device.len() as int);
    lemma_held_is_no_longer(on_device, first, on_device.len() as int);
    rank::lemma_ranking_by_heat(heats, order);
    assert forall|e: usize| #[trigger] out.contains(e) implies first <= e < on_device.len()
        && on_device[e as int] && !warm[e as int] by {
        lemma_unwarmed_are_the_cold_ones(entries, order, warm, n, e);
        let i = choose|i: int| 0 <= i < n && entries[#[trigger] order[i] as int] == e;
        assert(entries.contains(e));
    }
    lemma_unwarmed_are_the_cold_ones(entries, order, warm, n, 0);
    assert forall|e: usize, c: usize|
        #![trigger out.contains(e), out.contains(c)]
        out.contains(e) && !out.contains(c) && first <= c < on_device.len() && on_device[c as int]
            && !warm[c as int] implies heat[e as int] > heat[c as int] || (heat[e as int]
        == heat[c as int] && e < c) by {
        lemma_unwarmed_are_the_cold_ones(entries, order, warm, n, e);
        lemma_unwarmed_are_the_cold_ones(entries, order, warm, n, c);
        let i = choose|i: int| 0 <= i < n && entries[#[trigger] order[i] as int] == e;
        assert(entries.contains(c));
        let at = choose|at: int| 0 <= at < entries.len() && entries[at] == c;
        assert(order.contains(at as usize));
        let j = choose|j: int| 0 <= j < order.len() && order[j] == at as usize;
        assert(entries[order[j] as int] == c);
        assert(j >= n);
        assert(entries.contains(e));
        assert(heats[order[i] as int] == heat[e as int]);
        assert(heats[order[j] as int] == heat[c as int]);
        if heats[order[i] as int] == heats[order[j] as int] {
            assert(order[i] < order[j]);
        }
    }
    if k >= on_device.len() - first {
        assert forall|c: usize|
            first <= c < on_device.len() && on_device[c as int]
                && !warm[c as int] implies #[trigger] out.contains(c) by {
            lemma_unwarmed_are_the_cold_ones(entries, order, warm, n, c);
            assert(entries.contains(c));
            let at = choose|at: int| 0 <= at < entries.len() && entries[at] == c;
            assert(order.contains(at as usize));
            let j = choose|j: int| 0 <= j < order.len() && order[j] == at as usize;
            assert(entries[order[j] as int] == c);
        }
    }
}

proof fn lemma_held_is_no_longer(on_device: Seq<bool>, first: int, last: int)
    ensures
        held_entries(on_device, first, last).len() <= if last > first {
            last - first
        } else {
            0
        },
    decreases last - first,
{
    if last > first {
        lemma_held_is_no_longer(on_device, first, last - 1);
    }
}

/// The two ends of a pair fire together, whichever stands first, and what fires
/// with one of them fires with the other.
pub proof fn lemma_pairs_fire_together(pairs: Seq<(u32, u32)>, i: int, e: u32)
    requires
        0 <= i < pairs.len(),
    ensures
        connected(pairs, pairs.len(), pairs[i].0, pairs[i].1),
        connected(pairs, pairs.len(), pairs[i].1, pairs[i].0),
        pairs[i].0 != pairs[i].1 ==> grouped(pairs, pairs[i].0) && grouped(pairs, pairs[i].1),
        connected(pairs, pairs.len(), e, pairs[i].0) <==> connected(
            pairs,
            pairs.len(),
            e,
            pairs[i].1,
        ),
{
    let n = pairs.len();
    let a = pairs[i].0;
    let b = pairs[i].1;
    assert(pairs[i] == (a, b));
    assert(paired(pairs, n, a, b));
    lemma_connected_pair(pairs, n, a, b);
    lemma_connected_reversed(pairs, n, a, b);
    if connected(pairs, n, e, a) {
        lemma_connected_through(pairs, n, e, a, b);
    }
    if connected(pairs, n, e, b) {
        lemma_connected_through(pairs, n, e, b, a);
    }
}

/// An expert of no pair with another fires with nothing but itself.
pub proof fn lemma_unpaired_is_alone(pairs: Seq<(u32, u32)>, e: u32, f: u32)
    requires
        forall|i: int|
            0 <= i < pairs.len() ==> ((#[trigger] pairs[i]).0 == e <==> pairs[i].1 == e),
    ensures
        connected(pairs, pairs.len(), e, f) ==> f == e,
        !grouped(pairs, e),
{
    assert forall|g: u32| #[trigger] connected(pairs, pairs.len(), e, g) implies g == e by {
        let path = choose|path: Seq<u32>| #[trigger] runs(pairs, pairs.len(), path, e, g);
        lemma_path_stays(pairs, path, e, path.len());
    }
}

proof fn lemma_path_stays(pairs: Seq<(u32, u32)>, path: Seq<u32>, e: u32, n: nat)
    requires
        forall|i: int|
            0 <= i < pairs.len() ==> ((#[trigger] pairs[i]).0 == e <==> pairs[i].1 == e),
        0 < n <= path.len(),
        path[0] == e,
        runs(pairs, pairs.len(), path, path[0], path.last()),
    ensures
        forall|i: int| 0 <= i < n ==> #[trigger] path[i] == e,
    decreases n,
{
    if n > 1 {
        lemma_path_stays(pairs, path, e, (n - 1) as nat);
        assert(path[n - 2] == e);
        assert(paired(pairs, pairs.len(), path[n - 2], path[n - 1]));
    }
}

} // verus!
