//! Ordering by heat: hottest first, and among equals the one listed first.

use vstd::prelude::*;

verus! {

/// Entry `a` ranks ahead of entry `b`.
pub open spec fn ahead(heats: Seq<u32>, a: usize, b: usize) -> bool {
    heats[a as int] > heats[b as int] || (heats[a as int] == heats[b as int] && a < b)
}

/// Every entry of `r` ranks ahead of those after it.
pub open spec fn ordered(heats: Seq<u32>, r: Seq<usize>) -> bool {
    forall|i: int, j: int| 0 <= i < j < r.len() ==> ahead(heats, r[i], r[j])
}

/// `r` lists every entry, hottest first, equal ones in the order listed.
pub open spec fn is_ranking(heats: Seq<u32>, r: Seq<usize>) -> bool {
    &&& r.len() == heats.len()
    &&& ordered(heats, r)
    &&& forall|i: int| 0 <= i < r.len() ==> #[trigger] r[i] < heats.len()
    &&& forall|e: usize| e < heats.len() ==> r.contains(e)
}

/// There is only one ranking, so equal heats never reshuffle it.
pub proof fn lemma_ranking_unique(heats: Seq<u32>, r: Seq<usize>, s: Seq<usize>)
    requires
        is_ranking(heats, r),
        is_ranking(heats, s),
    ensures
        r == s,
{
    lemma_rankings_agree(heats, r, s, r.len());
    assert(r.take(r.len() as int) =~= r);
    assert(s.take(s.len() as int) =~= s);
}

proof fn lemma_rankings_agree(heats: Seq<u32>, r: Seq<usize>, s: Seq<usize>, n: nat)
    requires
        is_ranking(heats, r),
        is_ranking(heats, s),
        n <= r.len(),
    ensures
        r.take(n as int) == s.take(n as int),
    decreases n,
{
    if n > 0 {
        let m = n - 1;
        lemma_rankings_agree(heats, r, s, m as nat);
        if r[m] != s[m] {
            assert(r[m] < heats.len());
            assert(s[m] < heats.len());
            assert(s.contains(r[m]));
            assert(r.contains(s[m]));
            let j = choose|j: int| 0 <= j < s.len() && s[j] == r[m];
            let k = choose|k: int| 0 <= k < r.len() && r[k] == s[m];
            if j < m {
                assert(r.take(m)[j] == s.take(m)[j]);
                assert(ahead(heats, r[j], r[m]));
            }
            if k < m {
                assert(r.take(m)[k] == s.take(m)[k]);
                assert(ahead(heats, s[k], s[m]));
            }
            assert(ahead(heats, s[m], s[j]));
            assert(ahead(heats, r[m], r[k]));
            assert(false);
        }
        assert(r.take(n as int) =~= r.take(m).push(r[m]));
        assert(s.take(n as int) =~= s.take(m).push(s[m]));
    } else {
        assert(r.take(0) =~= s.take(0));
    }
}

fn ranks_ahead(heats: &[u32], a: usize, b: usize) -> (x: bool)
    requires
        a < heats@.len(),
        b < heats@.len(),
    ensures
        x == ahead(heats@, a, b),
{
    heats[a] > heats[b] || (heats[a] == heats[b] && a < b)
}

/// `r` is ordered and lists exactly the entries `lo..hi`.
spec fn lists(heats: Seq<u32>, r: Seq<usize>, lo: int, hi: int) -> bool {
    &&& r.len() == hi - lo
    &&& ordered(heats, r)
    &&& forall|i: int| 0 <= i < r.len() ==> lo <= #[trigger] r[i] < hi
    &&& forall|e: usize| lo <= e < hi ==> r.contains(e)
}

/// Merges two neighbouring ordered runs.
fn merge(heats: &[u32], a: &Vec<usize>, b: &Vec<usize>, lo: usize, mid: usize, hi: usize) -> (out: Vec<
    usize,
>)
    requires
        lo <= mid <= hi <= heats@.len(),
        lists(heats@, a@, lo as int, mid as int),
        lists(heats@, b@, mid as int, hi as int),
    ensures
        lists(heats@, out@, lo as int, hi as int),
{
    let mut out: Vec<usize> = Vec::new();
    let mut i: usize = 0;
    let mut j: usize = 0;
    while i < a.len() || j < b.len()
        invariant
            lo <= mid <= hi <= heats@.len(),
            lists(heats@, a@, lo as int, mid as int),
            lists(heats@, b@, mid as int, hi as int),
            i <= a@.len(),
            j <= b@.len(),
            out@.len() == i + j,
            ordered(heats@, out@),
            forall|k: int| 0 <= k < out@.len() ==> lo <= #[trigger] out@[k] < hi,
            forall|k: int| 0 <= k < i ==> out@.contains(#[trigger] a@[k]),
            forall|k: int| 0 <= k < j ==> out@.contains(#[trigger] b@[k]),
            forall|k: int, m: int|
                0 <= k < out@.len() && i <= m < a@.len() ==> ahead(
                    heats@,
                    #[trigger] out@[k],
                    #[trigger] a@[m],
                ),
            forall|k: int, m: int|
                0 <= k < out@.len() && j <= m < b@.len() ==> ahead(
                    heats@,
                    #[trigger] out@[k],
                    #[trigger] b@[m],
                ),
        decreases a@.len() - i + b@.len() - j,
    {
        let ghost before = out@;
        proof {
            if i < a@.len() {
                assert(lo <= a@[i as int] < mid);
            }
            if j < b@.len() {
                assert(mid <= b@[j as int] < hi);
            }
        }
        let from_a: bool = if i >= a.len() {
            false
        } else if j >= b.len() {
            true
        } else {
            ranks_ahead(heats, a[i], b[j])
        };
        if from_a {
            out.push(a[i]);
            proof {
                assert forall|m: int| j <= m < b@.len() implies ahead(
                    heats@,
                    a@[i as int],
                    #[trigger] b@[m],
                ) by {
                    if j < m {
                        assert(ahead(heats@, b@[j as int], b@[m]));
                    }
                }
                assert forall|m: int| i < m < a@.len() implies ahead(
                    heats@,
                    a@[i as int],
                    #[trigger] a@[m],
                ) by {}
                assert forall|k: int| 0 <= k < i + 1 implies out@.contains(#[trigger] a@[k]) by {
                    if k < i {
                        assert(before.contains(a@[k]));
                        let q = choose|q: int| 0 <= q < before.len() && before[q] == a@[k];
                        assert(out@[q] == a@[k]);
                    } else {
                        assert(out@[before.len() as int] == a@[k]);
                    }
                }
                assert forall|k: int| 0 <= k < j implies out@.contains(#[trigger] b@[k]) by {
                    assert(before.contains(b@[k]));
                    let q = choose|q: int| 0 <= q < before.len() && before[q] == b@[k];
                    assert(out@[q] == b@[k]);
                }
            }
            i = i + 1;
        } else {
            out.push(b[j]);
            proof {
                assert forall|m: int| i <= m < a@.len() implies ahead(
                    heats@,
                    b@[j as int],
                    #[trigger] a@[m],
                ) by {
                    assert(lo <= a@[m] < mid);
                    if i < m {
                        assert(ahead(heats@, a@[i as int], a@[m]));
                    }
                }
                assert forall|m: int| j < m < b@.len() implies ahead(
                    heats@,
                    b@[j as int],
                    #[trigger] b@[m],
                ) by {}
                assert forall|k: int| 0 <= k < j + 1 implies out@.contains(#[trigger] b@[k]) by {
                    if k < j {
                        assert(before.contains(b@[k]));
                        let q = choose|q: int| 0 <= q < before.len() && before[q] == b@[k];
                        assert(out@[q] == b@[k]);
                    } else {
                        assert(out@[before.len() as int] == b@[k]);
                    }
                }
                assert forall|k: int| 0 <= k < i implies out@.contains(#[trigger] a@[k]) by {
                    assert(before.contains(a@[k]));
                    let q = choose|q: int| 0 <= q < before.len() && before[q] == a@[k];
                    assert(out@[q] == a@[k]);
                }
            }
            j = j + 1;
        }
    }
    proof {
        assert forall|e: usize| lo <= e < hi implies out@.contains(e) by {
            if e < mid {
                assert(a@.contains(e));
            } else {
                assert(b@.contains(e));
            }
        }
    }
    out
}

fn rank_range(heats: &[u32], lo: usize, hi: usize) -> (r: Vec<usize>)
    requires
        lo <= hi <= heats@.len(),
    ensures
        lists(heats@, r@, lo as int, hi as int),
    decreases hi - lo,
{
    if hi - lo <= 1 {
        let mut r: Vec<usize> = Vec::new();
        if lo < hi {
            r.push(lo);
            assert(r@[0] == lo);
        }
        return r;
    }
    let mid: usize = lo + (hi - lo) / 2;
    let a = rank_range(heats, lo, mid);
    let b = rank_range(heats, mid, hi);
    merge(heats, &a, &b, lo, mid, hi)
}

/// Ranks every entry by heat.
pub fn by_heat(heats: &[u32]) -> (r: Vec<usize>)
    ensures
        is_ranking(heats@, r@),
{
    rank_range(heats, 0, heats.len())
}

/// A ranking lists every position once, from the hottest to the coldest, and
/// positions of equal heat by their number.
pub proof fn lemma_ranking_by_heat(heats: Seq<u32>, r: Seq<usize>)
    requires
        is_ranking(heats, r),
    ensures
        r.len() == heats.len(),
        forall|i: int, j: int|
            0 <= i < j < r.len() ==> heats[#[trigger] r[i] as int] >= heats[#[trigger] r[j] as int],
        forall|i: int, j: int|
            0 <= i < j < r.len() && heats[#[trigger] r[i] as int] == heats[#[trigger] r[j] as int]
                ==> r[i] < r[j],
        forall|i: int, j: int| 0 <= i < j < r.len() ==> #[trigger] r[i] != #[trigger] r[j],
        forall|i: int| 0 <= i < r.len() ==> (#[trigger] r[i]) < heats.len(),
        forall|e: usize| e < heats.len() ==> #[trigger] r.contains(e),
{
    assert forall|i: int, j: int| 0 <= i < j < r.len() implies heats[#[trigger] r[i] as int]
        >= heats[#[trigger] r[j] as int] && (heats[r[i] as int] == heats[r[j] as int] ==> r[i] < r[j])
        && r[i] != r[j] by {
        assert(ahead(heats, r[i], r[j]));
    }
}

} // verus!
