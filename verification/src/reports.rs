//! What is reported of a run: counts, never rates, and nothing where nothing was
//! measured.

use vstd::prelude::*;

verus! {

/// How often two runs predicted different tokens, of how many.
#[derive(Clone, Copy, Debug, PartialEq, Eq, Structural)]
pub struct Flips {
    /// Positions that differ.
    pub flips: usize,
    /// Positions in all.
    pub of: usize,
}

/// Positions among the first `n` at which `a` and `b` differ.
pub open spec fn differing(a: Seq<i32>, b: Seq<i32>, n: nat) -> nat
    decreases n,
{
    if n == 0 {
        0
    } else {
        let here: nat = if a[n - 1] != b[n - 1] {
            1
        } else {
            0
        };
        differing(a, b, (n - 1) as nat) + here
    }
}

/// Counts the positions at which two runs predicted different tokens. `None`
/// where the runs differ in length or are empty, so that no data never reads as
/// no change.
pub fn prediction_flips(a: &[i32], b: &[i32]) -> (f: Option<Flips>)
    ensures
        f is Some <==> a@.len() == b@.len() && a@.len() > 0,
        f is Some ==> (f->0).of == a@.len() && (f->0).flips == differing(a@, b@, a@.len())
            && (f->0).flips <= (f->0).of,
{
    if a.len() != b.len() || a.len() == 0 {
        return None;
    }
    let mut flips: usize = 0;
    let mut i: usize = 0;
    while i < a.len()
        invariant
            i <= a@.len() == b@.len(),
            flips <= i,
            flips == differing(a@, b@, i as nat),
        decreases a@.len() - i,
    {
        if a[i] != b[i] {
            flips = flips + 1;
        }
        i = i + 1;
    }
    Some(Flips { flips, of: a.len() })
}

/// Two runs agree everywhere exactly when they never flip.
pub proof fn lemma_no_flips_iff_equal(a: Seq<i32>, b: Seq<i32>, n: nat)
    requires
        n <= a.len(),
        n <= b.len(),
    ensures
        differing(a, b, n) == 0 <==> a.subrange(0, n as int) == b.subrange(0, n as int),
    decreases n,
{
    if n > 0 {
        lemma_no_flips_iff_equal(a, b, (n - 1) as nat);
        let x = a.subrange(0, n as int);
        let y = b.subrange(0, n as int);
        assert(x.drop_last() =~= a.subrange(0, n - 1));
        assert(y.drop_last() =~= b.subrange(0, n - 1));
        if differing(a, b, n) == 0 {
            assert(x =~= x.drop_last().push(x.last()));
            assert(y =~= y.drop_last().push(y.last()));
        }
        if x == y {
            assert(x[n - 1] == y[n - 1]);
        }
    } else {
        assert(a.subrange(0, 0) =~= b.subrange(0, 0));
    }
}

/// What the byte ledger is built from.
#[derive(Clone, Copy, Debug, PartialEq, Eq, Structural)]
pub struct LedgerInput {
    /// Experts selected, by every row.
    pub selections: u64,
    /// Different experts among them, per union.
    pub distinct: u64,
    /// Cache hits.
    pub cache_hits: u64,
    /// Cache misses.
    pub cache_misses: u64,
    /// Speculative reads nothing used.
    pub prefetch_wasted: u64,
    /// Bytes of one expert.
    pub bytes_per_expert: u64,
    /// Every expert weighs the same, as far as two of them tell.
    pub uniform_expert_size: bool,
}

/// `l` holds these counts. Where the first expert's size is unknown it is zero,
/// and where the second's is unknown they are taken to agree.
pub open spec fn ledger_of(
    union: (u64, u64),
    sizes: (Option<u64>, Option<u64>),
    cache: Option<(u64, u64, u64)>,
    l: LedgerInput,
) -> bool {
    let one = match sizes.0 {
        Some(b) => b,
        None => 0,
    };
    &&& l.selections == union.0
    &&& l.distinct == union.1
    &&& l.bytes_per_expert == one
    &&& l.uniform_expert_size == (sizes.1 is None || sizes.1 == Some(one))
    &&& cache is Some ==> l.cache_hits == (cache->0).0 && l.cache_misses == (cache->0).1
        && l.prefetch_wasted == (cache->0).2
    &&& cache is None ==> l.cache_hits == 0 && l.cache_misses == 0 && l.prefetch_wasted == 0
}

/// Assembles the byte ledger's input. `None` while unions are not counted: a
/// ledger without its headline saving invites the wrong reading. `sizes` are the
/// first two experts' bytes, `cache` its hits, misses and wasted reads.
pub fn byte_ledger(
    union: Option<(u64, u64)>,
    sizes: (Option<u64>, Option<u64>),
    cache: Option<(u64, u64, u64)>,
) -> (l: Option<LedgerInput>)
    ensures
        l is Some <==> union is Some,
        l is Some ==> ledger_of(union->0, sizes, cache, l->0),
{
    match union {
        Some((selections, distinct)) => {
            let bytes_per_expert: u64 = match sizes.0 {
                Some(b) => b,
                None => 0,
            };
            let uniform_expert_size = match sizes.1 {
                Some(b) => b == bytes_per_expert,
                None => true,
            };
            let (cache_hits, cache_misses, prefetch_wasted): (u64, u64, u64) = match cache {
                Some((h, m, w)) => (h, m, w),
                None => (0, 0, 0),
            };
            Some(
                LedgerInput {
                    selections,
                    distinct,
                    cache_hits,
                    cache_misses,
                    prefetch_wasted,
                    bytes_per_expert,
                    uniform_expert_size,
                },
            )
        },
        None => None,
    }
}

/// What one ring's read latencies came to.
#[derive(Clone, Copy, Debug)]
pub struct RingLatency {
    /// Reads sampled.
    pub samples: u64,
    /// Minor page faults.
    pub minor: u64,
    /// Major page faults.
    pub major: u64,
}

/// Every sampling ring taken together.
#[derive(Clone, Copy, Debug, PartialEq, Eq, Structural)]
pub struct LatencyTotals {
    /// Reads sampled.
    pub samples: u64,
    /// Minor page faults.
    pub minor: u64,
    /// Major page faults.
    pub major: u64,
}

/// Samples, minor and major faults of the first `n` rings.
pub open spec fn latency_sums(rings: Seq<Option<RingLatency>>, n: nat) -> (int, int, int)
    decreases n,
{
    if n == 0 {
        (0, 0, 0)
    } else {
        let s = latency_sums(rings, (n - 1) as nat);
        match rings[n - 1] {
            Some(r) => (s.0 + r.samples, s.1 + r.minor, s.2 + r.major),
            None => s,
        }
    }
}

/// Some ring samples its reads.
pub open spec fn any_samples(rings: Seq<Option<RingLatency>>) -> bool {
    exists|i: int| 0 <= i < rings.len() && (#[trigger] rings[i]) is Some
}

proof fn lemma_latency_sums_grow(rings: Seq<Option<RingLatency>>, m: nat, n: nat)
    requires
        m <= n <= rings.len(),
    ensures
        0 <= latency_sums(rings, m).0 <= latency_sums(rings, n).0,
        0 <= latency_sums(rings, m).1 <= latency_sums(rings, n).1,
        0 <= latency_sums(rings, m).2 <= latency_sums(rings, n).2,
    decreases n,
{
    if n > 0 {
        lemma_latency_sums_grow(
            rings,
            if m < n {
                m
            } else {
                (n - 1) as nat
            },
            (n - 1) as nat,
        );
    }
}

/// Takes every sampling ring together: a read is served by whichever ring
/// claimed it, so only the sum answers for a read. `None` when none samples.
pub fn merged_latency(rings: &Vec<Option<RingLatency>>) -> (t: Option<LatencyTotals>)
    requires
        latency_sums(rings@, rings@.len()).0 <= u64::MAX,
        latency_sums(rings@, rings@.len()).1 <= u64::MAX,
        latency_sums(rings@, rings@.len()).2 <= u64::MAX,
    ensures
        t is Some <==> any_samples(rings@),
        t is Some ==> {
            let s = latency_sums(rings@, rings@.len());
            (t->0).samples == s.0 && (t->0).minor == s.1 && (t->0).major == s.2
        },
{
    let mut any = false;
    let mut t = LatencyTotals { samples: 0, minor: 0, major: 0 };
    let mut i: usize = 0;
    while i < rings.len()
        invariant
            i <= rings@.len(),
            latency_sums(rings@, rings@.len()).0 <= u64::MAX,
            latency_sums(rings@, rings@.len()).1 <= u64::MAX,
            latency_sums(rings@, rings@.len()).2 <= u64::MAX,
            t.samples == latency_sums(rings@, i as nat).0,
            t.minor == latency_sums(rings@, i as nat).1,
            t.major == latency_sums(rings@, i as nat).2,
            any == exists|j: int| 0 <= j < i && (#[trigger] rings@[j]) is Some,
        decreases rings@.len() - i,
    {
        proof {
            lemma_latency_sums_grow(rings@, (i + 1) as nat, rings@.len());
        }
        match rings[i] {
            Some(r) => {
                assert(rings@[i as int] is Some);
                any = true;
                t = LatencyTotals {
                    samples: t.samples + r.samples,
                    minor: t.minor + r.minor,
                    major: t.major + r.major,
                };
            },
            None => {},
        }
        i = i + 1;
    }
    if any {
        Some(t)
    } else {
        None
    }
}

/// What the latency report concludes. With no samples it says so and concludes
/// nothing: no samples are no flat distribution. `tail` and `worst` say that the
/// 99th percentile and the slowest read are at least ten times the median.
pub fn latency_verdict(samples: u64, tail: bool, worst: bool) -> (s: &'static str)
    ensures
        s@ == if samples == 0 {
            "[latency] expert-read: NO SAMPLES — sampling was enabled but no completion was recorded. This is not a flat distribution; it means no read reached an instrumented path in this run.\n"@
        } else if tail {
            "[latency] p99 is >=10x the median: the typical read does not describe this workload. submit->complete includes queueing behind the ring depth cap, so this is not yet evidence about the device.\n"@
        } else if worst {
            "[latency] p99 is flat but the slowest read is >=10x the median: rare stalls p99 cannot resolve at this sample count.\n"@
        } else {
            "[latency] no fat tail in this window: p99 and max both within 10x of the median.\n"@
        },
{
    if samples == 0 {
        "[latency] expert-read: NO SAMPLES — sampling was enabled but no completion was recorded. This is not a flat distribution; it means no read reached an instrumented path in this run.\n"
    } else if tail {
        "[latency] p99 is >=10x the median: the typical read does not describe this workload. submit->complete includes queueing behind the ring depth cap, so this is not yet evidence about the device.\n"
    } else if worst {
        "[latency] p99 is flat but the slowest read is >=10x the median: rare stalls p99 cannot resolve at this sample count.\n"
    } else {
        "[latency] no fat tail in this window: p99 and max both within 10x of the median.\n"
    }
}

/// How many experts a layer routed over its recent frames, and of how many kinds.
#[derive(Clone, Copy, Debug, PartialEq, Eq, Structural)]
pub struct ExpertCount {
    /// The expert.
    pub expert: i32,
    /// How often it was routed.
    pub count: u32,
}

/// How often `e` occurs among the first `n` of `ids`.
pub open spec fn occurrences(ids: Seq<i32>, e: i32, n: nat) -> nat
    decreases n,
{
    if n == 0 {
        0
    } else {
        let here: nat = if ids[n - 1] == e {
            1
        } else {
            0
        };
        occurrences(ids, e, (n - 1) as nat) + here
    }
}

/// `counts` lists every real expert of the first `n` ids once, with how often it
/// occurs.
pub open spec fn tallies(ids: Seq<i32>, n: nat, counts: Seq<ExpertCount>) -> bool {
    &&& forall|i: int, j: int|
        0 <= i < j < counts.len() ==> counts[i].expert != counts[j].expert
    &&& forall|i: int|
        0 <= i < counts.len() ==> (#[trigger] counts[i]).expert >= 0 && counts[i].count
            == occurrences(ids, counts[i].expert, n) && counts[i].count > 0
    &&& forall|e: i32|
        e >= 0 && #[trigger] occurrences(ids, e, n) > 0 ==> exists|i: int|
            0 <= i < counts.len() && (#[trigger] counts[i]).expert == e
}

proof fn lemma_occurrences_bounded(ids: Seq<i32>, e: i32, n: nat)
    ensures
        occurrences(ids, e, n) <= n,
    decreases n,
{
    if n > 0 {
        lemma_occurrences_bounded(ids, e, (n - 1) as nat);
    }
}

/// Tallies the experts a layer routed over its recent frames: what its routing
/// entropy is computed from.
pub fn tally_routed(ids: &[i32]) -> (counts: Vec<ExpertCount>)
    requires
        ids@.len() <= u32::MAX,
    ensures
        tallies(ids@, ids@.len(), counts@),
{
    let mut counts: Vec<ExpertCount> = Vec::new();
    let mut k: usize = 0;
    while k < ids.len()
        invariant
            k <= ids@.len() <= u32::MAX,
            tallies(ids@, k as nat, counts@),
        decreases ids@.len() - k,
    {
        let e: i32 = ids[k];
        let ghost before = counts@;
        if e >= 0 {
            let mut at: usize = 0;
            while at < counts.len() && counts[at].expert != e
                invariant
                    at <= counts@.len(),
                    forall|j: int| 0 <= j < at ==> (#[trigger] counts@[j]).expert != e,
                decreases counts@.len() - at,
            {
                at = at + 1;
            }
            proof {
                lemma_occurrences_bounded(ids@, e, k as nat);
            }
            if at < counts.len() {
                assert(before[at as int].expert == e);
                let n: u32 = counts[at].count;
                counts.set(at, ExpertCount { expert: e, count: n + 1 });
            } else {
                assert(occurrences(ids@, e, k as nat) == 0) by {
                    if occurrences(ids@, e, k as nat) > 0 {
                        let i = choose|i: int|
                            0 <= i < before.len() && (#[trigger] before[i]).expert == e;
                        assert(before[i].expert == e);
                    }
                }
                counts.push(ExpertCount { expert: e, count: 1 });
            }
        }
        proof {
            let n = (k + 1) as nat;
            assert forall|x: i32| x != e implies #[trigger] occurrences(ids@, x, n) == occurrences(
                ids@,
                x,
                k as nat,
            ) by {}
            assert forall|x: i32| x >= 0 && #[trigger] occurrences(ids@, x, n) > 0 implies exists|
                i: int,
            |
                0 <= i < counts@.len() && (#[trigger] counts@[i]).expert == x by {
                if x == e {
                    if counts@.len() > before.len() {
                        assert(counts@[before.len() as int].expert == x);
                    } else {
                        let i = choose|i: int|
                            0 <= i < before.len() && (#[trigger] before[i]).expert == e;
                        assert(counts@[i].expert == x);
                    }
                } else {
                    assert(occurrences(ids@, x, k as nat) > 0);
                    let i = choose|i: int|
                        0 <= i < before.len() && (#[trigger] before[i]).expert == x;
                    assert(before[i].expert == x);
                    assert(counts@[i].expert == x);
                }
            }
        }
        k = k + 1;
    }
    counts
}

/// The flips between two lists are the positions at which they differ, each
/// counted once, whichever list stands first.
pub proof fn lemma_flips_are_the_differing_positions(a: Seq<i32>, b: Seq<i32>, n: nat)
    requires
        n <= a.len(),
        n <= b.len(),
    ensures
        differing(a, b, n) == Seq::new(n, |i: int| a[i] != b[i]).filter(|d: bool| d).len(),
        differing(a, b, n) == differing(b, a, n),
        differing(a, b, n) <= n,
    decreases n,
{
    reveal(Seq::filter);
    let flips = Seq::new(n, |i: int| a[i] != b[i]);
    if n > 0 {
        lemma_flips_are_the_differing_positions(a, b, (n - 1) as nat);
        assert(flips.drop_last() =~= Seq::new((n - 1) as nat, |i: int| a[i] != b[i]));
    } else {
        assert(flips.filter(|d: bool| d).len() == 0);
    }
}

/// An expert's occurrences are the entries that name it, each counted once.
pub proof fn lemma_occurrences_are_the_entries(ids: Seq<i32>, e: i32, n: nat)
    requires
        n <= ids.len(),
    ensures
        occurrences(ids, e, n) == ids.take(n as int).filter(|x: i32| x == e).len(),
    decreases n,
{
    reveal(Seq::filter);
    if n > 0 {
        lemma_occurrences_are_the_entries(ids, e, (n - 1) as nat);
        assert(ids.take(n as int).drop_last() =~= ids.take(n - 1));
    } else {
        assert(ids.take(0).filter(|x: i32| x == e).len() == 0);
    }
}

/// Every ring with samples adds its own to each of the three sums, and a ring
/// without any adds nothing.
pub proof fn lemma_latency_counts_each_ring_once(rings: Seq<Option<RingLatency>>, r: RingLatency)
    ensures
        latency_sums(rings, 0) == (0int, 0int, 0int),
        latency_sums(rings.push(None), rings.len() + 1) == latency_sums(rings, rings.len()),
        ({
            let s = latency_sums(rings, rings.len());
            let t = latency_sums(rings.push(Some(r)), rings.len() + 1);
            &&& t.0 == s.0 + r.samples
            &&& t.1 == s.1 + r.minor
            &&& t.2 == s.2 + r.major
        }),
{
    lemma_latency_of_a_longer_list(rings, None, rings.len());
    lemma_latency_of_a_longer_list(rings, Some(r), rings.len());
}

proof fn lemma_latency_of_a_longer_list(
    rings: Seq<Option<RingLatency>>,
    r: Option<RingLatency>,
    n: nat,
)
    requires
        n <= rings.len(),
    ensures
        latency_sums(rings.push(r), n) == latency_sums(rings, n),
    decreases n,
{
    if n > 0 {
        lemma_latency_of_a_longer_list(rings, r, (n - 1) as nat);
    }
}

/// A ledger holds the union's selections and distinct experts, the size of one
/// expert, and the cache's hits, misses and wasted prefetches. Experts are of one
/// size unless the other one known differs, and without a cache its three counts
/// are zero.
pub proof fn lemma_ledger_entries(
    selections: u64,
    distinct: u64,
    one: u64,
    other: u64,
    cache: (u64, u64, u64),
    l: LedgerInput,
)
    ensures
        ledger_of((selections, distinct), (Some(one), Some(other)), Some(cache), l) ==> {
            &&& l.selections == selections
            &&& l.distinct == distinct
            &&& l.bytes_per_expert == one
            &&& l.uniform_expert_size <==> one == other
            &&& (l.cache_hits, l.cache_misses, l.prefetch_wasted) == cache
        },
        ledger_of((selections, distinct), (Some(one), None), None, l) ==> {
            &&& l.bytes_per_expert == one
            &&& l.uniform_expert_size
            &&& (l.cache_hits, l.cache_misses, l.prefetch_wasted) == (0u64, 0u64, 0u64)
        },
        ledger_of((selections, distinct), (None, None), None, l) ==> l.bytes_per_expert == 0
            && l.uniform_expert_size,
{
}

/// A tally lists every real expert among the entries once, with the number of
/// entries that name it, and nothing else.
pub proof fn lemma_tally_lists_every_expert_once(
    ids: Seq<i32>,
    counts: Seq<ExpertCount>,
    i: int,
    k: int,
)
    requires
        tallies(ids, ids.len(), counts),
    ensures
        0 <= i < counts.len() ==> {
            &&& counts[i].expert >= 0
            &&& ids.contains(counts[i].expert)
            &&& counts[i].count == ids.filter(|x: i32| x == counts[i].expert).len()
        },
        0 <= i < counts.len() && 0 <= k < counts.len() && i != k ==> counts[i].expert
            != counts[k].expert,
        0 <= k < ids.len() && ids[k] >= 0 ==> exists|j: int|
            0 <= j < counts.len() && (#[trigger] counts[j]).expert == ids[k],
{
    assert(ids.take(ids.len() as int) =~= ids);
    if 0 <= i < counts.len() {
        let e = counts[i].expert;
        lemma_occurrences_are_the_entries(ids, e, ids.len());
        assert((|x: i32| x == counts[i].expert) =~= (|x: i32| x == e));
        lemma_occurs_where_named(ids, e, ids.len());
    }
    if 0 <= k < ids.len() && ids[k] >= 0 {
        lemma_occurs_where_named(ids, ids[k], ids.len());
        assert(occurrences(ids, ids[k], ids.len()) > 0);
    }
}

proof fn lemma_occurs_where_named(ids: Seq<i32>, e: i32, n: nat)
    requires
        n <= ids.len(),
    ensures
        occurrences(ids, e, n) > 0 <==> exists|i: int| 0 <= i < n && #[trigger] ids[i] == e,
    decreases n,
{
    if n > 0 {
        lemma_occurs_where_named(ids, e, (n - 1) as nat);
        if ids[n - 1] == e {
            assert(occurrences(ids, e, n) > 0);
        }
    }
}

/// There are samples where some ring has them, and there are none where no ring
/// does.
pub proof fn lemma_when_there_are_samples(rings: Seq<Option<RingLatency>>, r: RingLatency)
    ensures
        !any_samples(seq![]),
        any_samples(rings.push(Some(r))),
        any_samples(rings.push(None)) <==> any_samples(rings),
{
    assert(rings.push(Some(r))[rings.len() as int] is Some);
    if any_samples(rings) {
        let i = choose|i: int| 0 <= i < rings.len() && (#[trigger] rings[i]) is Some;
        assert(rings.push(None)[i] is Some);
    }
    if any_samples(rings.push(None)) {
        let i = choose|i: int|
            0 <= i < rings.push(None).len() && (#[trigger] rings.push(None)[i]) is Some;
        assert(rings[i] is Some);
    }
}

} // verus!
