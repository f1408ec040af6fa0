//! Prompt-lookup drafting: a speculative draft source with no weights and no
//! forward pass.
//!
//! The drafter looks for the tokens the sequence currently ends with earlier in
//! the same sequence and proposes what followed them there. The longest suffix
//! that recurs wins, and among its occurrences the most recent one.

use vstd::prelude::*;

verus! {

/// Longest suffix the default drafter tries to match.
pub const DEFAULT_MAX_NGRAM: usize = 3;

/// Shortest suffix accepted as evidence. A single repeated token predicts
/// almost nothing, so the floor is two.
pub const DEFAULT_MIN_NGRAM: usize = 2;

/// The last `n` tokens of `v` occur in it at `start`, strictly before the
/// position they end the sequence at.
pub open spec fn recurs(v: Seq<i32>, n: int, start: int) -> bool {
    &&& 0 < n < v.len()
    &&& 0 <= start < v.len() - n
    &&& v.subrange(start, start + n) == v.subrange(v.len() - n, v.len() as int)
}

/// The occurrence a drafter with suffix bounds `min_n..=max_n` follows: no
/// longer suffix recurs, and this one recurs nowhere later.
pub open spec fn best_match(v: Seq<i32>, min_n: int, max_n: int, n: int, start: int) -> bool {
    &&& min_n <= n <= max_n
    &&& recurs(v, n, start)
    &&& forall|m: int, s: int| n < m <= max_n ==> !#[trigger] recurs(v, m, s)
    &&& forall|s: int| start < s ==> !#[trigger] recurs(v, n, s)
}

/// What follows an occurrence of length `n` at `start`, cut to `depth` tokens
/// and to what the sequence holds.
pub open spec fn continuation(v: Seq<i32>, n: int, start: int, depth: int) -> Seq<i32> {
    let from = start + n;
    v.subrange(from, if depth < v.len() - from { from + depth } else { v.len() as int })
}

/// Proposes drafts by finding the current suffix earlier in the same sequence.
#[derive(Clone, Copy, Debug)]
pub struct NgramDrafter {
    max_n: usize,
    min_n: usize,
}

impl Default for NgramDrafter {
    fn default() -> (d: NgramDrafter)
        ensures
            d.longest() == DEFAULT_MAX_NGRAM,
            d.shortest() == DEFAULT_MIN_NGRAM,
    {
        NgramDrafter { max_n: DEFAULT_MAX_NGRAM, min_n: DEFAULT_MIN_NGRAM }
    }
}

impl NgramDrafter {
    /// Longest suffix this drafter matches.
    pub closed spec fn longest(&self) -> int {
        self.max_n as int
    }

    /// Shortest suffix this drafter matches.
    pub closed spec fn shortest(&self) -> int {
        self.min_n as int
    }

    #[verifier::type_invariant]
    spec fn has_floor(self) -> bool {
        self.min_n >= 1
    }

    /// A drafter matching suffixes of up to `max_n` tokens. A `max_n` below
    /// [`DEFAULT_MIN_NGRAM`] disables it.
    pub fn new(max_n: usize) -> (d: NgramDrafter)
        ensures
            d.longest() == max_n,
            d.shortest() == DEFAULT_MIN_NGRAM,
    {
        NgramDrafter { max_n, min_n: DEFAULT_MIN_NGRAM }
    }

    /// Whether this drafter can propose anything at all.
    pub fn is_enabled(&self) -> (b: bool)
        ensures
            b == (self.longest() >= self.shortest()),
    {
        self.max_n >= self.min_n
    }

    /// `out` is what this drafter proposes to follow `v`, up to `depth` tokens:
    /// something exactly where a suffix within its bounds recurs, and then what
    /// follows the occurrence it follows.
    pub open spec fn proposes(&self, v: Seq<i32>, depth: int, out: Seq<i32>) -> bool {
        &&& out.len() <= depth
        &&& out.len() > 0 <==> depth > 0 && exists|n: int, s: int|
            self.shortest() <= n <= self.longest() && #[trigger] recurs(v, n, s)
        &&& forall|n: int, s: int|
            depth > 0 && #[trigger] best_match(v, self.shortest(), self.longest(), n, s) ==> out
                == continuation(v, n, s, depth)
    }

    /// Drafts up to `depth` tokens to follow `hist ++ [next]`.
    ///
    /// `next` is the pending token: already emitted, part of the pattern, not
    /// yet in `hist`.
    pub fn draft(&self, hist: &[i32], next: i32, depth: usize) -> (drafted: Vec<i32>)
        requires
            hist@.len() < usize::MAX,
        ensures
            self.proposes(hist@.push(next), depth as int, drafted@),
    {
        let ghost v = hist@.push(next);
        proof {
            use_type_invariant(self);
        }
        if depth == 0 || !self.is_enabled() {
            return Vec::new();
        }
        let vlen: usize = hist.len() + 1;
        let longest: usize = if self.max_n < vlen - 1 { self.max_n } else { vlen - 1 };
        let mut n: usize = longest;
        while n >= self.min_n
            invariant
                v == hist@.push(next),
                vlen == v.len(),
                depth > 0,
                self.min_n >= 1,
                n <= longest,
                longest == if self.max_n < vlen - 1 { self.max_n as int } else { vlen - 1 },
                forall|m: int, s: int| n < m <= self.max_n ==> !#[trigger] recurs(v, m, s),
            decreases n,
        {
            let suffix_at: usize = vlen - n;
            let mut start: usize = suffix_at;
            while start > 0
                invariant
                    v == hist@.push(next),
                    vlen == v.len(),
                    depth > 0,
                    1 <= self.min_n <= n <= self.max_n,
                    n < vlen,
                    suffix_at == vlen - n,
                    start <= suffix_at,
                    forall|m: int, s: int| n < m <= self.max_n ==> !#[trigger] recurs(v, m, s),
                    forall|s: int| start <= s ==> !#[trigger] recurs(v, n as int, s),
                decreases start,
            {
                start = start - 1;
                if Self::same_window(hist, next, start, suffix_at, n) {
                    assert(recurs(v, n as int, start as int));
                    let from: usize = start + n;
                    let take: usize = if depth < vlen - from { depth } else { vlen - from };
                    let drafted = Self::replay(hist, next, from, take);
                    assert forall|m: int, s: int|
                        #[trigger] best_match(
                            v,
                            self.shortest(),
                            self.longest(),
                            m,
                            s,
                        ) implies drafted@ == continuation(v, m, s, depth as int) by {
                        if m < n {
                            assert(!recurs(v, n as int, start as int));
                        }
                        if s < start {
                            assert(!recurs(v, n as int, start as int));
                        }
                    }
                    return drafted;
                }
            }
            n = n - 1;
        }
        Vec::new()
    }

    /// Token `i` of `hist ++ [next]`, which is never materialised.
    fn at(hist: &[i32], next: i32, i: usize) -> (t: i32)
        requires
            i <= hist@.len(),
        ensures
            t == hist@.push(next)[i as int],
    {
        if i < hist.len() {
            hist[i]
        } else {
            next
        }
    }

    /// Whether the windows of `n` tokens at `a` and `b` of `hist ++ [next]` agree.
    fn same_window(hist: &[i32], next: i32, a: usize, b: usize, n: usize) -> (same: bool)
        requires
            hist@.len() < usize::MAX,
            a + n <= hist@.len() + 1,
            b + n <= hist@.len() + 1,
        ensures
            same == (hist@.push(next).subrange(a as int, a + n) == hist@.push(next).subrange(
                b as int,
                b + n,
            )),
    {
        let ghost left = hist@.push(next).subrange(a as int, a + n);
        let ghost right = hist@.push(next).subrange(b as int, b + n);
        let mut j: usize = 0;
        while j < n
            invariant
                hist@.len() < usize::MAX,
                a + n <= hist@.len() + 1,
                b + n <= hist@.len() + 1,
                j <= n,
                left == hist@.push(next).subrange(a as int, a + n),
                right == hist@.push(next).subrange(b as int, b + n),
                forall|i: int| 0 <= i < j ==> left[i] == right[i],
            decreases n - j,
        {
            if Self::at(hist, next, a + j) != Self::at(hist, next, b + j) {
                assert(left[j as int] != right[j as int]);
                return false;
            }
            j = j + 1;
        }
        assert(left =~= right);
        true
    }

    /// Copies `take` tokens of `hist ++ [next]` from position `from` on.
    fn replay(hist: &[i32], next: i32, from: usize, take: usize) -> (out: Vec<i32>)
        requires
            hist@.len() < usize::MAX,
            from + take <= hist@.len() + 1,
        ensures
            out@ == hist@.push(next).subrange(from as int, from + take),
    {
        let mut out: Vec<i32> = Vec::new();
        let mut k: usize = 0;
        while k < take
            invariant
                hist@.len() < usize::MAX,
                from + take <= hist@.len() + 1,
                k <= take,
                out@ == hist@.push(next).subrange(from as int, from + k),
            decreases take - k,
        {
            out.push(Self::at(hist, next, from + k));
            k = k + 1;
            assert(out@ =~= hist@.push(next).subrange(from as int, from + k));
        }
        out
    }
}

/// A sequence has at most one occurrence to follow, so the draft it yields is
/// determined by the sequence, the drafter and the depth.
pub proof fn lemma_best_match_unique(
    v: Seq<i32>,
    min_n: int,
    max_n: int,
    n: int,
    s: int,
    m: int,
    t: int,
)
    requires
        best_match(v, min_n, max_n, n, s),
        best_match(v, min_n, max_n, m, t),
    ensures
        n == m,
        s == t,
{
    if n < m {
        assert(!recurs(v, m, t));
    }
    if m < n {
        assert(!recurs(v, n, s));
    }
    if s < t {
        assert(!recurs(v, n, t));
    }
    if t < s {
        assert(!recurs(v, n, s));
    }
}

/// Whenever any suffix within the bounds recurs there is an occurrence to
/// follow: the longest such suffix, at its most recent occurrence.
pub proof fn lemma_best_match_exists(v: Seq<i32>, min_n: int, max_n: int, n: int, s: int)
    requires
        min_n <= n <= max_n,
        recurs(v, n, s),
    ensures
        exists|m: int, t: int| best_match(v, min_n, max_n, m, t),
    decreases (if max_n < v.len() { max_n } else { v.len() as int }) - n, v.len() - s,
{
    if exists|m: int, t: int| n < m <= max_n && #[trigger] recurs(v, m, t) {
        let (m, t) = choose|m: int, t: int| n < m <= max_n && #[trigger] recurs(v, m, t);
        lemma_best_match_exists(v, min_n, max_n, m, t);
    } else if exists|t: int| s < t && #[trigger] recurs(v, n, t) {
        let t = choose|t: int| s < t && #[trigger] recurs(v, n, t);
        lemma_best_match_exists(v, min_n, max_n, n, t);
    } else {
        assert(best_match(v, min_n, max_n, n, s));
    }
}

/// Depth only cuts the replayed run, it never changes which occurrence is
/// replayed: of two proposals for one sequence the shallower begins the deeper,
/// and one that falls short of its depth is all there is at any depth.
pub proof fn lemma_depth_only_cuts(
    d: NgramDrafter,
    v: Seq<i32>,
    d1: int,
    d2: int,
    a: Seq<i32>,
    b: Seq<i32>,
)
    requires
        0 <= d1 <= d2,
        d.proposes(v, d1, a),
        d.proposes(v, d2, b),
    ensures
        a == b.take(if d1 < b.len() {
            d1
        } else {
            b.len() as int
        }),
        a.len() < d1 ==> b == a,
{
    if d1 > 0 && (exists|n: int, s: int|
        d.shortest() <= n <= d.longest() && #[trigger] recurs(v, n, s)) {
        let (n, s) = choose|n: int, s: int|
            d.shortest() <= n <= d.longest() && #[trigger] recurs(v, n, s);
        lemma_best_match_exists(v, d.shortest(), d.longest(), n, s);
        let (m, t) = choose|m: int, t: int| best_match(v, d.shortest(), d.longest(), m, t);
        assert(best_match(v, d.shortest(), d.longest(), m, t));
        assert(a == continuation(v, m, t, d1));
        assert(b == continuation(v, m, t, d2));
        assert(a =~= b.take(if d1 < b.len() {
            d1
        } else {
            b.len() as int
        }));
        if a.len() < d1 {
            assert(a =~= b);
        }
    } else {
        assert(a =~= b.take(0));
        if d1 > 0 {
            assert(b =~= a);
        }
    }
}

/// A draft replays a stretch of the sequence that starts after its first token
/// and never invents one: every drafted token stands in the sequence, in the
/// same order.
pub proof fn lemma_continuation_replays(v: Seq<i32>, n: int, start: int, depth: int)
    requires
        recurs(v, n, start),
        depth > 0,
    ensures
        0 < continuation(v, n, start, depth).len() <= depth,
        forall|k: int|
            0 <= k < continuation(v, n, start, depth).len()
                ==> #[trigger] continuation(v, n, start, depth)[k] == v[start + n + k],
{
}

} // verus!
