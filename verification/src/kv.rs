//! Per-sequence key-value caches: rows that sequences with a common prefix
//! share, and the rewinds, gathers, exports and imports that speculation, token
//! trees and disk persistence need.
//!
//! A cached position is three rows of elements: two latent streams and, where
//! an indexer runs, one of its keys. Elements are bit patterns of the cache's
//! own element type; no operation here computes on them.

use std::sync::Arc;
use vstd::prelude::*;

use crate::knobs::KvDtype;

verus! {

/// Why an operation on a cache was refused.
#[derive(Clone, Copy, Debug, PartialEq, Eq, Structural)]
pub enum CacheError {
    /// The block starts past the end of the cache.
    FromPastEnd,
    /// The block reaches into a prefix that other sequences read.
    SharedPrefix,
    /// The positions to keep do not ascend from the start of the block.
    KeepOrder,
    /// A position to keep lies past the end of the cache.
    KeepPastEnd,
    /// A row was offered for another position than the next.
    Position,
    /// A row has another width than the cache's.
    Width,
    /// An export has another number of layers than the model.
    LayerCount,
    /// An export's latent streams do not hold the rows it claims.
    StreamLength,
    /// An export's indexer stream does not hold the rows it claims.
    IndexLength,
    /// An export's elements are of another type than the cache's.
    ElementType,
    /// A layer has no recurrent state.
    NoState,
    /// A recurrent state has another size than its snapshot.
    Geometry,
}

/// The rows as sequences.
pub open spec fn rows_of(v: Seq<Vec<u32>>) -> Seq<Seq<u32>> {
    Seq::new(v.len(), |i: int| v[i]@)
}

/// Every row has width `w`.
pub open spec fn all_width(rows: Seq<Seq<u32>>, w: nat) -> bool {
    forall|i: int| 0 <= i < rows.len() ==> (#[trigger] rows[i]).len() == w
}

/// Rows laid end to end.
pub open spec fn flat(rows: Seq<Seq<u32>>) -> Seq<u32>
    decreases rows.len(),
{
    if rows.len() == 0 {
        Seq::empty()
    } else {
        flat(rows.drop_last()) + rows.last()
    }
}

/// Row `r` of a stream of rows of width `w`.
pub open spec fn chunk(stream: Seq<u32>, w: nat, r: int) -> Seq<u32> {
    stream.subrange(r * w, (r + 1) * w)
}

/// The first `n` rows of a stream of rows of width `w`.
pub open spec fn chunks(stream: Seq<u32>, w: nat, n: nat) -> Seq<Seq<u32>> {
    Seq::new(n, |r: int| chunk(stream, w, r))
}

/// `x` or `y`, whichever is smaller.
pub open spec fn least(x: int, y: int) -> int {
    if x < y {
        x
    } else {
        y
    }
}

/// Laying rows end to end and cutting the result at their width gives the rows
/// back.
pub proof fn lemma_flat_chunks(rows: Seq<Seq<u32>>, w: nat)
    requires
        all_width(rows, w),
    ensures
        flat(rows).len() == rows.len() * w,
        chunks(flat(rows), w, rows.len()) == rows,
    decreases rows.len(),
{
    if rows.len() > 0 {
        let init = rows.drop_last();
        let n = init.len();
        assert(all_width(init, w)) by {
            assert forall|i: int| 0 <= i < init.len() implies (#[trigger] init[i]).len() == w by {
                assert(init[i] == rows[i]);
            }
        }
        lemma_flat_chunks(init, w);
        assert(rows.last().len() == w) by {
            assert(rows[n as int].len() == w);
        }
        assert((n + 1) * w == n * w + w) by (nonlinear_arith);
        assert forall|r: int| 0 <= r < rows.len() implies chunk(flat(rows), w, r)
            == #[trigger] rows[r] by {
            assert(0 <= r * w) by (nonlinear_arith)
                requires
                    r >= 0,
            ;
            assert((r + 1) * w == r * w + w) by (nonlinear_arith);
            if r < n {
                assert((r + 1) * w <= n * w) by (nonlinear_arith)
                    requires
                        r + 1 <= n,
                ;
                assert(chunk(flat(rows), w, r) =~= chunk(flat(init), w, r));
                assert(chunks(flat(init), w, n)[r] == init[r]);
            } else {
                assert(chunk(flat(rows), w, r) =~= rows.last());
            }
        }
    }
    assert(flat(rows).len() == rows.len() * w) by {
        if rows.len() == 0 {
            assert(0 * w == 0) by (nonlinear_arith);
        }
    }
    assert(chunks(flat(rows), w, rows.len()) =~= rows);
}

fn copy_row(row: &[u32]) -> (v: Vec<u32>)
    ensures
        v@ == row@,
{
    let mut v: Vec<u32> = Vec::new();
    v.extend_from_slice(row);
    assert(v@ =~= row@);
    v
}

/// Appends copies of rows `0..n` of `from`.
fn copy_rows(into: &mut Vec<Vec<u32>>, from: &Vec<Vec<u32>>, n: usize)
    requires
        n <= from@.len(),
    ensures
        rows_of(final(into)@) == rows_of(old(into)@) + rows_of(from@).take(n as int),
{
    let ghost start = rows_of(into@);
    let mut i: usize = 0;
    assert(rows_of(from@).take(0) =~= Seq::empty());
    assert(start =~= start + rows_of(from@).take(0));
    while i < n
        invariant
            i <= n <= from@.len(),
            rows_of(into@) == start + rows_of(from@).take(i as int),
        decreases n - i,
    {
        let ghost before = into@;
        into.push(copy_row(from[i].as_slice()));
        proof {
            assert(rows_of(into@) =~= rows_of(before).push(from@[i as int]@));
            assert(rows_of(from@).take(i + 1) =~= rows_of(from@).take(i as int).push(
                from@[i as int]@,
            ));
            assert(rows_of(into@) =~= start + rows_of(from@).take(i + 1));
        }
        i = i + 1;
    }
}

/// Drops the rows from `n` on.
fn cut_rows(rows: &mut Vec<Vec<u32>>, n: usize)
    ensures
        rows_of(final(rows)@) == rows_of(old(rows)@).take(least(n as int, old(rows)@.len() as int)),
        final(rows)@.len() == least(n as int, old(rows)@.len() as int),
{
    rows.truncate(n);
    assert(rows_of(rows@) =~= rows_of(old(rows)@).take(least(n as int, old(rows)@.len() as int)));
}

/// Cutting a shared prefix and its private tail cuts both.
proof fn lemma_cut(a: Seq<Seq<u32>>, n: int, b: Seq<Seq<u32>>, m: int)
    requires
        0 <= n <= a.len(),
        0 <= m,
    ensures
        ({
            let k = least(n, m);
            a.take(k) + b.take(least(m - k, b.len() as int)) == (a.take(n) + b).take(
                least(m, n + b.len()),
            )
        }),
{
    let k = least(n, m);
    assert(a.take(k) + b.take(least(m - k, b.len() as int)) =~= (a.take(n) + b).take(
        least(m, n + b.len()),
    ));
}

proof fn lemma_width_of_part(rows: Seq<Seq<u32>>, n: int, w: nat)
    requires
        all_width(rows, w),
        0 <= n <= rows.len(),
    ensures
        all_width(rows.take(n), w),
{
    assert forall|i: int| 0 <= i < n implies (#[trigger] rows.take(n)[i]).len() == w by {
        assert(rows.take(n)[i] == rows[i]);
    }
}

/// Rows that several sequences read and none changes.
pub struct Frozen {
    lc: Vec<Vec<u32>>,
    rc: Vec<Vec<u32>>,
    ix: Vec<Vec<u32>>,
}

/// A view of the first rows of a frozen prefix.
pub struct SharedRows {
    rows: Arc<Frozen>,
    id: usize,
    len: usize,
    ix_len: usize,
}

/// `Arc::clone`: another pointer to the same allocation, so the same rows.
#[verifier::external_body]
fn share(rows: &Arc<Frozen>) -> (again: Arc<Frozen>)
    ensures
        again == *rows,
{
    Arc::clone(rows)
}

/// `Arc::as_ptr`: where the allocation lives. Nothing is claimed of the number;
/// it is the same for every pointer to one allocation because it is taken once
/// and carried along.
#[verifier::external_body]
fn allocation_id(rows: &Arc<Frozen>) -> (id: usize) {
    Arc::as_ptr(rows) as usize
}

/// One layer's cache.
pub struct LayerKv {
    lora: usize,
    rope: usize,
    dt: KvDtype,
    ix_width: usize,
    shared: Option<SharedRows>,
    lc: Vec<Vec<u32>>,
    rc: Vec<Vec<u32>>,
    ix: Vec<Vec<u32>>,
}

/// Bytes of one element.
pub open spec fn element_bytes(dt: KvDtype) -> int {
    match dt {
        KvDtype::F32 => 4,
        KvDtype::F16 => 2,
    }
}

fn element_size(dt: KvDtype) -> (n: usize)
    ensures
        n == element_bytes(dt),
{
    match dt {
        KvDtype::F32 => 4,
        KvDtype::F16 => 2,
    }
}

/// The positions `keep` names, in its order.
pub open spec fn gathered(rows: Seq<Seq<u32>>, from: int, keep: Seq<usize>) -> Seq<Seq<u32>> {
    rows.take(from) + Seq::new(keep.len(), |i: int| rows[keep[i] as int])
}

/// How many entries of `keep`, from the first on, lie below `bound`.
pub open spec fn leading_below(keep: Seq<usize>, bound: int) -> nat
    decreases keep.len(),
{
    if keep.len() == 0 || keep[0] >= bound {
        0
    } else {
        1 + leading_below(keep.subrange(1, keep.len() as int), bound)
    }
}

/// The indexer keys of the positions `keep` names, in its order; a position
/// whose key was never cached has none.
pub open spec fn gathered_keys(keys: Seq<Seq<u32>>, from: int, keep: Seq<usize>) -> Seq<Seq<u32>> {
    keys.take(least(from, keys.len() as int)) + Seq::new(
        leading_below(keep, keys.len() as int),
        |i: int| keys[keep[i] as int],
    )
}

proof fn lemma_leading_below(keep: Seq<usize>, bound: int)
    ensures
        leading_below(keep, bound) <= keep.len(),
        forall|i: int| 0 <= i < leading_below(keep, bound) ==> #[trigger] keep[i] < bound,
        leading_below(keep, bound) < keep.len() ==> keep[leading_below(keep, bound) as int] >= bound,
    decreases keep.len(),
{
    if !(keep.len() == 0 || keep[0] >= bound) {
        let rest = keep.subrange(1, keep.len() as int);
        lemma_leading_below(rest, bound);
        assert forall|i: int| 0 <= i < leading_below(keep, bound) implies #[trigger] keep[i]
            < bound by {
            if i > 0 {
                assert(rest[i - 1] < bound);
            }
        }
    }
}

fn count_below(keep: &[usize], bound: usize) -> (n: usize)
    ensures
        n == leading_below(keep@, bound as int),
        n <= keep@.len(),
{
    let mut n: usize = 0;
    while n < keep.len() && keep[n] < bound
        invariant
            n <= keep@.len(),
            forall|i: int| 0 <= i < n ==> #[trigger] keep@[i] < bound,
        decreases keep@.len() - n,
    {
        n = n + 1;
    }
    proof {
        lemma_leading_below(keep@, bound as int);
        let m = leading_below(keep@, bound as int) as int;
        if m < n {
            assert(keep@[m] < bound);
        }
        if n < m {
            assert(keep@[n as int] < bound);
        }
    }
    n
}

/// Copies the first rows of `v`, then those at the first `m` of `keep`, where
/// position `base` is row zero.
fn gather_rows(v: &Vec<Vec<u32>>, base: usize, from: usize, keep: &[usize], m: usize) -> (out: Vec<
    Vec<u32>,
>)
    requires
        base <= from <= base + v@.len() <= usize::MAX,
        m <= keep@.len(),
        forall|i: int| 0 <= i < m ==> from <= #[trigger] keep@[i] < base + v@.len(),
    ensures
        rows_of(out@) == rows_of(v@).take(from - base) + Seq::new(
            m as nat,
            |i: int| rows_of(v@)[keep@[i] - base],
        ),
{
    let mut out: Vec<Vec<u32>> = Vec::new();
    assert(rows_of(out@) =~= Seq::empty());
    copy_rows(&mut out, v, from - base);
    let ghost head = rows_of(v@).take(from - base);
    assert(rows_of(out@) =~= head);
    let mut i: usize = 0;
    while i < m
        invariant
            base <= from <= base + v@.len() <= usize::MAX,
            i <= m <= keep@.len(),
            forall|j: int| 0 <= j < m ==> from <= #[trigger] keep@[j] < base + v@.len(),
            rows_of(out@) == head + Seq::new(i as nat, |j: int| rows_of(v@)[keep@[j] - base]),
        decreases m - i,
    {
        let ghost before = out@;
        assert(from <= keep@[i as int] < base + v@.len());
        let r: usize = keep[i] - base;
        out.push(copy_row(v[r].as_slice()));
        proof {
            assert(rows_of(out@) =~= rows_of(before).push(v@[r as int]@));
            assert(rows_of(out@) =~= head + Seq::new(
                (i + 1) as nat,
                |j: int| rows_of(v@)[keep@[j] - base],
            ));
        }
        i = i + 1;
    }
    out
}

/// Gathering below a shared prefix gathers the private tail.
proof fn lemma_gather(
    a: Seq<Seq<u32>>,
    b: Seq<Seq<u32>>,
    from: int,
    keep: Seq<usize>,
    m: nat,
)
    requires
        a.len() <= from <= a.len() + b.len(),
        m <= keep.len(),
        forall|i: int| 0 <= i < m ==> from <= #[trigger] keep[i] < a.len() + b.len(),
    ensures
        a + (b.take(from - a.len()) + Seq::new(m, |i: int| b[keep[i] - a.len()])) == (a + b).take(
            from,
        ) + Seq::new(m, |i: int| (a + b)[keep[i] as int]),
{
    let left = a + (b.take(from - a.len()) + Seq::new(m, |i: int| b[keep[i] - a.len()]));
    let right = (a + b).take(from) + Seq::new(m, |i: int| (a + b)[keep[i] as int]);
    assert forall|i: int| 0 <= i < left.len() implies left[i] == right[i] by {
        if i >= from {
            assert(from <= keep[i - from]);
        }
    }
    assert(left =~= right);
}

proof fn lemma_width_of_gather(
    v: Seq<Seq<u32>>,
    n: int,
    base: int,
    keep: Seq<usize>,
    m: nat,
    w: nat,
)
    requires
        all_width(v, w),
        0 <= n <= v.len(),
        m <= keep.len(),
        forall|i: int| 0 <= i < m ==> base <= #[trigger] keep[i] < base + v.len(),
    ensures
        all_width(v.take(n) + Seq::new(m, |i: int| v[keep[i] - base]), w),
{
    let all = v.take(n) + Seq::new(m, |i: int| v[keep[i] - base]);
    assert forall|i: int| 0 <= i < all.len() implies (#[trigger] all[i]).len() == w by {
        if i < n {
            assert(all[i] == v[i]);
        } else {
            assert(base <= keep[i - n] < base + v.len());
            assert(all[i] == v[keep[i - n] - base]);
        }
    }
}

/// `keep` ascends, starting at `from` or later.
pub open spec fn ascends(from: int, keep: Seq<usize>) -> bool {
    &&& forall|i: int| 0 <= i < keep.len() ==> from <= #[trigger] keep[i]
    &&& forall|i: int, j: int| 0 <= i < j < keep.len() ==> keep[i] < keep[j]
}

/// Ascending positions of a block are at most as many as the block is long.
proof fn lemma_ascends_within(from: int, keep: Seq<usize>, i: int)
    requires
        ascends(from, keep),
        0 <= i < keep.len(),
    ensures
        from + i <= keep[i],
    decreases i,
{
    if i > 0 {
        lemma_ascends_within(from, keep, i - 1);
        assert(keep[i - 1] < keep[i]);
    }
}

fn keep_ascends(from: usize, keep: &[usize]) -> (b: bool)
    ensures
        b == ascends(from as int, keep@),
{
    let mut i: usize = 0;
    while i < keep.len()
        invariant
            i <= keep@.len(),
            forall|j: int| 0 <= j < i ==> from <= #[trigger] keep@[j],
            forall|j: int, k: int| 0 <= j < k < i ==> keep@[j] < keep@[k],
        decreases keep@.len() - i,
    {
        if keep[i] < from {
            return false;
        }
        if i > 0 && keep[i] <= keep[i - 1] {
            assert(!(keep@[i - 1] < keep@[i as int]));
            return false;
        }
        i = i + 1;
    }
    true
}

impl LayerKv {
    /// Rows read from a frozen prefix.
    pub closed spec fn shared_len(&self) -> nat {
        match self.shared {
            Some(s) => s.len as nat,
            None => 0,
        }
    }

    /// Indexer keys read from a frozen prefix.
    pub closed spec fn shared_keys(&self) -> nat {
        match self.shared {
            Some(s) => s.ix_len as nat,
            None => 0,
        }
    }

    /// The first latent stream.
    pub closed spec fn lc_rows(&self) -> Seq<Seq<u32>> {
        match self.shared {
            Some(s) => rows_of(s.rows.lc@).take(s.len as int) + rows_of(self.lc@),
            None => rows_of(self.lc@),
        }
    }

    /// The second latent stream.
    pub closed spec fn rc_rows(&self) -> Seq<Seq<u32>> {
        match self.shared {
            Some(s) => rows_of(s.rows.rc@).take(s.len as int) + rows_of(self.rc@),
            None => rows_of(self.rc@),
        }
    }

    /// The indexer's keys.
    pub closed spec fn ix_rows(&self) -> Seq<Seq<u32>> {
        match self.shared {
            Some(s) => rows_of(s.rows.ix@).take(s.ix_len as int) + rows_of(self.ix@),
            None => rows_of(self.ix@),
        }
    }

    /// Widths of the two latent streams.
    pub closed spec fn widths(&self) -> (nat, nat) {
        (self.lora as nat, self.rope as nat)
    }

    /// Width of an indexer key, zero before the first.
    pub closed spec fn index_width(&self) -> nat {
        self.ix_width as nat
    }

    /// The element type.
    pub closed spec fn dtype(&self) -> KvDtype {
        self.dt
    }

    /// The identity of the frozen prefix, if there is one.
    pub closed spec fn prefix_id(&self) -> Option<usize> {
        match self.shared {
            Some(s) => Some(s.id),
            None => None,
        }
    }

    /// Elements of the frozen prefix as a whole.
    pub closed spec fn frozen_elements(&self) -> int {
        match self.shared {
            Some(s) => s.rows.lc@.len() * (self.lora + self.rope) + s.rows.ix@.len()
                * self.ix_width,
            None => 0,
        }
    }

    /// Elements held privately: those of the positions and keys past the frozen
    /// prefix.
    pub open spec fn own_elements(&self) -> int {
        (self.lc_rows().len() - self.shared_len()) * (self.widths().0 + self.widths().1) + (
        self.ix_rows().len() - self.shared_keys()) * self.index_width()
    }

    /// Elements read from the frozen prefix.
    pub open spec fn viewed_elements(&self) -> nat {
        self.shared_len() * (self.widths().0 + self.widths().1) + self.shared_keys()
            * self.index_width()
    }

    /// Elements of every position.
    pub open spec fn elements(&self) -> nat {
        self.lc_rows().len() * (self.widths().0 + self.widths().1) + self.ix_rows().len()
            * self.index_width()
    }

    /// The streams are rows of their widths, the two latent ones equally many.
    pub closed spec fn wf(&self) -> bool {
        &&& self.lc@.len() == self.rc@.len()
        &&& all_width(rows_of(self.lc@), self.lora as nat)
        &&& all_width(rows_of(self.rc@), self.rope as nat)
        &&& all_width(rows_of(self.ix@), self.ix_width as nat)
        &&& self.ix_width == 0 ==> self.ix@.len() == 0
        &&& self.shared matches Some(s) ==> {
            &&& s.len <= s.rows.lc@.len()
            &&& s.rows.lc@.len() == s.rows.rc@.len()
            &&& s.ix_len <= s.rows.ix@.len()
            &&& s.ix_len <= s.len
            &&& s.len + self.lc@.len() <= usize::MAX
            &&& s.ix_len + self.ix@.len() <= usize::MAX
            &&& all_width(rows_of(s.rows.lc@), self.lora as nat)
            &&& all_width(rows_of(s.rows.rc@), self.rope as nat)
            &&& all_width(rows_of(s.rows.ix@), self.ix_width as nat)
            &&& self.ix_width == 0 ==> s.rows.ix@.len() == 0
        }
    }

    /// What well-formedness gives of the streams.
    pub proof fn lemma_streams(&self)
        requires
            self.wf(),
        ensures
            self.lc_rows().len() == self.rc_rows().len(),
            self.lc_rows().len() <= usize::MAX,
            self.ix_rows().len() <= usize::MAX,
            self.shared_len() <= self.lc_rows().len(),
            self.shared_keys() <= self.ix_rows().len(),
            self.prefix_id() is None ==> self.shared_len() == 0 && self.shared_keys() == 0,
            all_width(self.lc_rows(), self.widths().0),
            all_width(self.rc_rows(), self.widths().1),
            all_width(self.ix_rows(), self.index_width()),
    {
        assert(self.lc@.len() == self.lc.len());
        assert(self.ix@.len() == self.ix.len());
        match self.shared {
            Some(s) => {
                let a = rows_of(s.rows.lc@).take(s.len as int);
                let b = rows_of(s.rows.rc@).take(s.len as int);
                let c = rows_of(s.rows.ix@).take(s.ix_len as int);
                assert forall|i: int| 0 <= i < self.lc_rows().len() implies (
                #[trigger] self.lc_rows()[i]).len() == self.lora by {
                    if i < s.len {
                        assert(self.lc_rows()[i] == rows_of(s.rows.lc@)[i]);
                    } else {
                        assert(self.lc_rows()[i] == rows_of(self.lc@)[i - s.len]);
                    }
                }
                assert forall|i: int| 0 <= i < self.rc_rows().len() implies (
                #[trigger] self.rc_rows()[i]).len() == self.rope by {
                    if i < s.len {
                        assert(self.rc_rows()[i] == rows_of(s.rows.rc@)[i]);
                    } else {
                        assert(self.rc_rows()[i] == rows_of(self.rc@)[i - s.len]);
                    }
                }
                assert forall|i: int| 0 <= i < self.ix_rows().len() implies (
                #[trigger] self.ix_rows()[i]).len() == self.ix_width by {
                    if i < s.ix_len {
                        assert(self.ix_rows()[i] == rows_of(s.rows.ix@)[i]);
                    } else {
                        assert(self.ix_rows()[i] == rows_of(self.ix@)[i - s.ix_len]);
                    }
                }
            },
            None => {},
        }
    }

    /// Element counts are not negative, every position is either frozen or
    /// private, and a cache that reads from no frozen prefix owns all it holds.
    pub proof fn lemma_counts(&self)
        requires
            self.wf(),
        ensures
            self.own_elements() >= 0,
            self.frozen_elements() >= 0,
            self.elements() >= 0,
            self.elements() == self.own_elements() + self.viewed_elements(),
            self.prefix_id() is None ==> self.own_elements() == self.elements(),
    {
        self.lemma_streams();
        let w = (self.widths().0 + self.widths().1) as int;
        let (n, f) = (self.lc_rows().len() as int, self.shared_len() as int);
        let (k, g, x) = (
            self.ix_rows().len() as int,
            self.shared_keys() as int,
            self.index_width() as int,
        );
        assert((n - f) * w + f * w == n * w) by (nonlinear_arith);
        assert((k - g) * x + g * x == k * x) by (nonlinear_arith);
        assert((n - f) * w >= 0) by (nonlinear_arith)
            requires
                n >= f,
                w >= 0,
        ;
        assert((k - g) * x >= 0) by (nonlinear_arith)
            requires
                k >= g,
                x >= 0,
        ;
        match self.shared {
            Some(s) => {
                assert(self.frozen_elements() >= 0) by (nonlinear_arith)
                    requires
                        self.frozen_elements() == s.rows.lc@.len() * (self.lora + self.rope)
                            + s.rows.ix@.len() * self.ix_width,
                ;
            },
            None => {
                assert(0 * w == 0 && 0 * x == 0);
            },
        }
    }

    /// An empty cache for rows of the given widths.
    pub fn with_dtype(lora: usize, rope: usize, dt: KvDtype) -> (k: LayerKv)
        ensures
            k.wf(),
            k.lc_rows() == Seq::<Seq<u32>>::empty(),
            k.rc_rows() == Seq::<Seq<u32>>::empty(),
            k.ix_rows() == Seq::<Seq<u32>>::empty(),
            k.widths() == (lora as nat, rope as nat),
            k.index_width() == 0,
            k.dtype() == dt,
            k.prefix_id() is None,
            k.shared_len() == 0,
            k.shared_keys() == 0,
    {
        let k = LayerKv {
            lora,
            rope,
            dt,
            ix_width: 0,
            shared: None,
            lc: Vec::new(),
            rc: Vec::new(),
            ix: Vec::new(),
        };
        assert(k.lc_rows() =~= Seq::empty());
        assert(k.rc_rows() =~= Seq::empty());
        assert(k.ix_rows() =~= Seq::empty());
        k
    }

    /// Positions cached.
    pub fn len(&self) -> (n: usize)
        requires
            self.wf(),
        ensures
            n == self.lc_rows().len(),
    {
        match &self.shared {
            Some(s) => s.len + self.lc.len(),
            None => self.lc.len(),
        }
    }

    /// Whether no position is cached.
    pub fn is_empty(&self) -> (b: bool)
        requires
            self.wf(),
        ensures
            b == (self.lc_rows().len() == 0),
    {
        self.len() == 0
    }

    /// Indexer keys cached.
    pub fn index_len(&self) -> (n: usize)
        requires
            self.wf(),
        ensures
            n == self.ix_rows().len(),
    {
        match &self.shared {
            Some(s) => s.ix_len + self.ix.len(),
            None => self.ix.len(),
        }
    }

    /// Caches the next position. A row for any other position, or of another
    /// width, is refused and changes nothing.
    pub fn append(&mut self, pos: usize, lc: &[u32], rc: &[u32]) -> (r: Result<(), CacheError>)
        requires
            old(self).wf(),
            old(self).lc_rows().len() < usize::MAX,
        ensures
            final(self).wf(),
            pos != old(self).lc_rows().len() ==> r == Err::<(), CacheError>(CacheError::Position),
            pos == old(self).lc_rows().len() && (lc@.len() != old(self).widths().0 || rc@.len()
                != old(self).widths().1) ==> r == Err::<(), CacheError>(CacheError::Width),
            r is Ok <==> pos == old(self).lc_rows().len() && lc@.len() == old(self).widths().0
                && rc@.len() == old(self).widths().1,
            r is Err ==> *final(self) == *old(self),
            r is Ok ==> {
                &&& final(self).lc_rows() == old(self).lc_rows().push(lc@)
                &&& final(self).rc_rows() == old(self).rc_rows().push(rc@)
            },
            final(self).ix_rows() == old(self).ix_rows(),
            final(self).same_frame(*old(self)),
    {
        if pos != self.len() {
            return Err(CacheError::Position);
        }
        if lc.len() != self.lora || rc.len() != self.rope {
            return Err(CacheError::Width);
        }
        self.lc.push(copy_row(lc));
        self.rc.push(copy_row(rc));
        proof {
            assert(rows_of(self.lc@) =~= rows_of(old(self).lc@).push(lc@));
            assert(rows_of(self.rc@) =~= rows_of(old(self).rc@).push(rc@));
            assert(self.lc_rows() =~= old(self).lc_rows().push(lc@));
            assert(self.rc_rows() =~= old(self).rc_rows().push(rc@));
            assert(self.lc@.len() == self.lc.len());
        }
        Ok(())
    }

    /// Everything but the rows is as in `other`.
    pub open spec fn same_frame(&self, other: LayerKv) -> bool {
        &&& self.widths() == other.widths()
        &&& self.index_width() == other.index_width()
        &&& self.dtype() == other.dtype()
        &&& self.prefix_id() == other.prefix_id()
        &&& self.shared_len() == other.shared_len()
        &&& self.shared_keys() == other.shared_keys()
        &&& self.frozen_elements() == other.frozen_elements()
    }

    /// Caches one more indexer key. The first fixes their width.
    pub fn append_index_key(&mut self, key: &[u32])
        requires
            old(self).wf(),
            key@.len() > 0,
            old(self).index_width() == 0 || key@.len() == old(self).index_width(),
            old(self).ix_rows().len() < usize::MAX,
        ensures
            final(self).wf(),
            final(self).ix_rows() == old(self).ix_rows().push(key@),
            final(self).index_width() == key@.len(),
            final(self).lc_rows() == old(self).lc_rows(),
            final(self).rc_rows() == old(self).rc_rows(),
            final(self).widths() == old(self).widths(),
            final(self).dtype() == old(self).dtype(),
            final(self).prefix_id() == old(self).prefix_id(),
            final(self).shared_len() == old(self).shared_len(),
            final(self).shared_keys() == old(self).shared_keys(),
            final(self).frozen_elements() == old(self).frozen_elements(),
    {
        if self.ix_width == 0 {
            self.ix_width = key.len();
        }
        self.ix.push(copy_row(key));
        proof {
            assert(rows_of(self.ix@) =~= rows_of(old(self).ix@).push(key@));
            assert(self.ix_rows() =~= old(self).ix_rows().push(key@));
            assert(self.ix@.len() == self.ix.len());
        }
    }

    /// Rewinds to `new_len` positions, the indexer's keys with them. A longer
    /// length leaves the cache as it is.
    pub fn truncate(&mut self, new_len: usize)
        requires
            old(self).wf(),
        ensures
            final(self).wf(),
            final(self).lc_rows() == old(self).lc_rows().take(
                least(new_len as int, old(self).lc_rows().len() as int),
            ),
            final(self).rc_rows() == old(self).rc_rows().take(
                least(new_len as int, old(self).rc_rows().len() as int),
            ),
            final(self).ix_rows() == old(self).ix_rows().take(
                least(new_len as int, old(self).ix_rows().len() as int),
            ),
            final(self).shared_len() == least(new_len as int, old(self).shared_len() as int),
            final(self).shared_keys() == least(new_len as int, old(self).shared_keys() as int),
            final(self).widths() == old(self).widths(),
            final(self).index_width() == old(self).index_width(),
            final(self).dtype() == old(self).dtype(),
            final(self).prefix_id() == old(self).prefix_id(),
            final(self).frozen_elements() == old(self).frozen_elements(),
    {
        let ghost o = *self;
        let mut base: usize = 0;
        let mut ix_base: usize = 0;
        match self.shared.take() {
            Some(s) => {
                base = if s.len > new_len {
                    new_len
                } else {
                    s.len
                };
                ix_base = if s.ix_len > new_len {
                    new_len
                } else {
                    s.ix_len
                };
                self.shared = Some(
                    SharedRows { rows: s.rows, id: s.id, len: base, ix_len: ix_base },
                );
            },
            None => {},
        }
        cut_rows(&mut self.lc, new_len - base);
        cut_rows(&mut self.rc, new_len - base);
        cut_rows(&mut self.ix, new_len - ix_base);
        proof {
            lemma_width_of_part(rows_of(o.lc@), self.lc@.len() as int, self.lora as nat);
            lemma_width_of_part(rows_of(o.rc@), self.rc@.len() as int, self.rope as nat);
            lemma_width_of_part(rows_of(o.ix@), self.ix@.len() as int, self.ix_width as nat);
            match o.shared {
                Some(s) => {
                    lemma_cut(
                        rows_of(s.rows.lc@),
                        s.len as int,
                        rows_of(o.lc@),
                        new_len as int,
                    );
                    lemma_cut(
                        rows_of(s.rows.rc@),
                        s.len as int,
                        rows_of(o.rc@),
                        new_len as int,
                    );
                    lemma_cut(
                        rows_of(s.rows.ix@),
                        s.ix_len as int,
                        rows_of(o.ix@),
                        new_len as int,
                    );
                },
                None => {},
            }
        }
    }
    /// The error a gather of `keep` from `from` on is refused with.
    pub open spec fn gather_error(&self, from: int, keep: Seq<usize>) -> Option<CacheError> {
        if from > self.lc_rows().len() {
            Some(CacheError::FromPastEnd)
        } else if from < self.shared_len() {
            Some(CacheError::SharedPrefix)
        } else if !ascends(from, keep) {
            Some(CacheError::KeepOrder)
        } else if keep.len() > 0 && keep.last() >= self.lc_rows().len() {
            Some(CacheError::KeepPastEnd)
        } else {
            None
        }
    }

    /// Keeps only the positions `keep` of the block that starts at `from`: the
    /// rows of an accepted path of a token tree move down over the rejected
    /// siblings between them. Refused, with nothing changed, where the block
    /// reaches into a shared prefix or `keep` does not ascend within the block.
    pub fn retain_tail(&mut self, from: usize, keep: &[usize]) -> (r: Result<(), CacheError>)
        requires
            old(self).wf(),
        ensures
            final(self).wf(),
            r is Ok <==> old(self).gather_error(from as int, keep@) is None,
            r is Err ==> Some(r->Err_0) == old(self).gather_error(from as int, keep@)
                && *final(self) == *old(self),
            r is Ok ==> {
                &&& final(self).lc_rows() == gathered(old(self).lc_rows(), from as int, keep@)
                &&& final(self).rc_rows() == gathered(old(self).rc_rows(), from as int, keep@)
                &&& final(self).ix_rows() == gathered_keys(
                    old(self).ix_rows(),
                    from as int,
                    keep@,
                )
            },
            final(self).same_frame(*old(self)),
    {
        let n: usize = self.len();
        if from > n {
            return Err(CacheError::FromPastEnd);
        }
        let base: usize = match &self.shared {
            Some(s) => s.len,
            None => 0,
        };
        if from < base {
            return Err(CacheError::SharedPrefix);
        }
        if !keep_ascends(from, keep) {
            return Err(CacheError::KeepOrder);
        }
        if keep.len() > 0 && keep[keep.len() - 1] >= n {
            return Err(CacheError::KeepPastEnd);
        }
        self.gather(from, keep);
        Ok(())
    }

    /// Moves the rows at `keep` down to `from`.
    #[verifier::rlimit(60)]
    fn gather(&mut self, from: usize, keep: &[usize])
        requires
            old(self).wf(),
            old(self).gather_error(from as int, keep@) is None,
        ensures
            final(self).wf(),
            final(self).lc_rows() == gathered(old(self).lc_rows(), from as int, keep@),
            final(self).rc_rows() == gathered(old(self).rc_rows(), from as int, keep@),
            final(self).ix_rows() == gathered_keys(old(self).ix_rows(), from as int, keep@),
            final(self).same_frame(*old(self)),
    {
        let ghost o = *self;
        proof {
            assert(self.lc@.len() == self.lc.len());
            assert(self.ix@.len() == self.ix.len());
            assert forall|i: int| 0 <= i < keep@.len() implies from <= #[trigger] keep@[i]
                < self.lc_rows().len() by {
                if i < keep@.len() - 1 {
                    assert(keep@[i] < keep@[keep@.len() - 1]);
                }
            }
        }
        let (base, ix_base): (usize, usize) = match &self.shared {
            Some(s) => (s.len, s.ix_len),
            None => (0, 0),
        };
        let keys: usize = self.index_len();
        let m: usize = count_below(keep, keys);
        proof {
            lemma_leading_below(keep@, keys as int);
        }
        let lc = gather_rows(&self.lc, base, from, keep, keep.len());
        let rc = gather_rows(&self.rc, base, from, keep, keep.len());
        if from < keys {
            let ix = gather_rows(&self.ix, ix_base, from, keep, m);
            self.ix = ix;
        }
        self.lc = lc;
        self.rc = rc;
        proof {
            let k = keep@.len();
            lemma_width_of_gather(
                rows_of(o.lc@),
                from - base,
                base as int,
                keep@,
                k,
                o.lora as nat,
            );
            lemma_width_of_gather(
                rows_of(o.rc@),
                from - base,
                base as int,
                keep@,
                k,
                o.rope as nat,
            );
            let a = o.shared_part_lc();
            let b = o.shared_part_rc();
            let c = o.shared_part_ix();
            o.lemma_parts();
            lemma_gather(a, rows_of(o.lc@), from as int, keep@, k);
            lemma_gather(b, rows_of(o.rc@), from as int, keep@, k);
            self.lemma_parts();
            if from < keys {
                lemma_width_of_gather(
                    rows_of(o.ix@),
                    from - ix_base,
                    ix_base as int,
                    keep@,
                    m as nat,
                    o.ix_width as nat,
                );
                lemma_gather(c, rows_of(o.ix@), from as int, keep@, m as nat);
            } else {
                if m > 0 {
                    assert(from <= keep@[0] < keys);
                }
                assert(gathered_keys(o.ix_rows(), from as int, keep@) =~= o.ix_rows());
            }
            if k > 0 {
                lemma_ascends_within(from as int, keep@, k - 1);
            }
            if m > 0 {
                lemma_ascends_within(from as int, keep@, m - 1);
                assert(keep@[m - 1] < keys);
            }
            assert(rows_of(self.lc@).len() == from - base + k);
            assert(rows_of(self.rc@).len() == from - base + k);
        }
    }

    spec fn shared_part_lc(&self) -> Seq<Seq<u32>> {
        match self.shared {
            Some(s) => rows_of(s.rows.lc@).take(s.len as int),
            None => Seq::empty(),
        }
    }

    spec fn shared_part_rc(&self) -> Seq<Seq<u32>> {
        match self.shared {
            Some(s) => rows_of(s.rows.rc@).take(s.len as int),
            None => Seq::empty(),
        }
    }

    spec fn shared_part_ix(&self) -> Seq<Seq<u32>> {
        match self.shared {
            Some(s) => rows_of(s.rows.ix@).take(s.ix_len as int),
            None => Seq::empty(),
        }
    }

    proof fn lemma_parts(&self)
        ensures
            self.lc_rows() == self.shared_part_lc() + rows_of(self.lc@),
            self.rc_rows() == self.shared_part_rc() + rows_of(self.rc@),
            self.ix_rows() == self.shared_part_ix() + rows_of(self.ix@),
    {
        assert(self.lc_rows() =~= self.shared_part_lc() + rows_of(self.lc@));
        assert(self.rc_rows() =~= self.shared_part_rc() + rows_of(self.rc@));
        assert(self.ix_rows() =~= self.shared_part_ix() + rows_of(self.ix@));
    }
    /// The widths of a position's latent rows and the cache's bytes fit in a
    /// `usize`.
    pub open spec fn sized(&self) -> bool {
        &&& self.widths().0 + self.widths().1 <= usize::MAX
        &&& self.elements() * element_bytes(self.dtype()) <= usize::MAX
        &&& self.own_elements() * element_bytes(self.dtype()) <= usize::MAX
        &&& self.frozen_elements() * element_bytes(self.dtype()) <= usize::MAX
    }

    fn sized_bytes(&self, rows: usize, keys: usize) -> (bytes: usize)
        requires
            self.widths().0 + self.widths().1 <= usize::MAX,
            (rows * (self.widths().0 + self.widths().1) + keys * self.index_width())
                * element_bytes(self.dtype()) <= usize::MAX,
        ensures
            bytes == (rows * (self.widths().0 + self.widths().1) + keys * self.index_width())
                * element_bytes(self.dtype()),
    {
        let per_row: usize = self.lora + self.rope;
        let es: usize = element_size(self.dt);
        proof {
            let a = rows * per_row;
            let b = keys * self.ix_width;
            assert(a >= 0) by (nonlinear_arith)
                requires
                    a == rows * per_row,
            ;
            assert(b >= 0) by (nonlinear_arith)
                requires
                    b == keys * self.ix_width,
            ;
            assert(a + b <= (a + b) * es) by (nonlinear_arith)
                requires
                    a + b >= 0,
                    es >= 1,
            ;
        }
        (rows * per_row + keys * self.ix_width) * es
    }

    /// Bytes of every position, shared or not.
    pub fn bytes(&self) -> (n: usize)
        requires
            self.wf(),
            self.sized(),
        ensures
            n == self.elements() * element_bytes(self.dtype()),
    {
        self.sized_bytes(self.len(), self.index_len())
    }

    /// Bytes held privately.
    pub fn owned_bytes(&self) -> (n: usize)
        requires
            self.wf(),
            self.sized(),
        ensures
            n == self.own_elements() * element_bytes(self.dtype()),
    {
        self.sized_bytes(self.lc.len(), self.ix.len())
    }

    /// Bytes of the whole frozen prefix this cache reads from, zero without
    /// one.
    pub fn shared_bytes(&self) -> (n: usize)
        requires
            self.wf(),
            self.sized(),
        ensures
            n == self.frozen_elements() * element_bytes(self.dtype()),
    {
        match &self.shared {
            Some(s) => self.sized_bytes(s.rows.lc.len(), s.rows.ix.len()),
            None => 0,
        }
    }

    /// The identity of the frozen prefix this cache reads from.
    pub fn shared_id(&self) -> (id: Option<usize>)
        ensures
            id == self.prefix_id(),
    {
        match &self.shared {
            Some(s) => Some(s.id),
            None => None,
        }
    }

    /// The first `n` positions lie in the frozen prefix, keys and all.
    pub open spec fn viewable(&self, n: int) -> bool {
        &&& self.prefix_id() is Some
        &&& n <= self.shared_len()
        &&& least(n, self.ix_rows().len() as int) <= self.shared_keys()
    }

    /// A cache of the first `n` positions that owns none of them. Where they lie
    /// in a frozen prefix already the copy reads that same prefix; otherwise
    /// they are frozen, once.
    pub fn clone_prefix(&self, n: usize) -> (k: LayerKv)
        requires
            self.wf(),
        ensures
            k.wf(),
            ({
                let m = least(n as int, self.lc_rows().len() as int);
                &&& k.lc_rows() == self.lc_rows().take(m)
                &&& k.rc_rows() == self.rc_rows().take(m)
                &&& k.ix_rows() == self.ix_rows().take(least(m, self.ix_rows().len() as int))
                &&& k.shared_len() == m
                &&& k.shared_keys() == k.ix_rows().len()
                &&& k.prefix_id() is Some <==> m > 0
                &&& m > 0 && self.viewable(m) ==> k.prefix_id() == self.prefix_id()
                    && k.frozen_elements() == self.frozen_elements()
                &&& m > 0 && !self.viewable(m) ==> k.frozen_elements() == k.elements()
            }),
            k.own_elements() == 0,
            k.widths() == self.widths(),
            k.index_width() == self.index_width(),
            k.dtype() == self.dtype(),
    {
        let len: usize = self.len();
        let m: usize = if n < len {
            n
        } else {
            len
        };
        let have: usize = self.index_len();
        let keys: usize = if m < have {
            m
        } else {
            have
        };
        let mut k = LayerKv::with_dtype(self.lora, self.rope, self.dt);
        k.ix_width = self.ix_width;
        proof {
            assert(0 * (self.lora + self.rope) + 0 * self.ix_width == 0) by (nonlinear_arith);
            self.lemma_streams();
        }
        if m == 0 {
            proof {
                assert(self.lc_rows().take(0) =~= Seq::empty());
                assert(self.rc_rows().take(0) =~= Seq::empty());
                assert(self.ix_rows().take(0) =~= Seq::empty());
            }
            return k;
        }
        match &self.shared {
            Some(s) => if m <= s.len && keys <= s.ix_len {
                k.shared = Some(
                    SharedRows { rows: share(&s.rows), id: s.id, len: m, ix_len: keys },
                );
                proof {
                    assert(rows_of(k.lc@) =~= Seq::empty());
                    assert(rows_of(k.rc@) =~= Seq::empty());
                    assert(rows_of(k.ix@) =~= Seq::empty());
                    assert(k.lc_rows() =~= self.lc_rows().take(m as int));
                    assert(k.rc_rows() =~= self.rc_rows().take(m as int));
                    assert(k.ix_rows() =~= self.ix_rows().take(keys as int));
                }
                return k;
            },
            None => {},
        }
        let frozen = self.freeze(m, keys);
        let rows = Arc::new(frozen);
        let id = allocation_id(&rows);
        k.shared = Some(SharedRows { rows, id, len: m, ix_len: keys });
        proof {
            lemma_width_of_part(self.lc_rows(), m as int, self.lora as nat);
            lemma_width_of_part(self.rc_rows(), m as int, self.rope as nat);
            lemma_width_of_part(self.ix_rows(), keys as int, self.ix_width as nat);
            assert(rows_of(k.lc@) =~= Seq::empty());
            assert(rows_of(k.rc@) =~= Seq::empty());
            assert(rows_of(k.ix@) =~= Seq::empty());
            assert(k.lc_rows() =~= self.lc_rows().take(m as int));
            assert(k.rc_rows() =~= self.rc_rows().take(m as int));
            assert(k.ix_rows() =~= self.ix_rows().take(keys as int));
            if self.ix_width == 0 {
                assert(self.ix_rows().len() == 0);
            }
        }
        k
    }

    /// Copies the first `m` positions and the first `keys` keys.
    fn freeze(&self, m: usize, keys: usize) -> (f: Frozen)
        requires
            self.wf(),
            m <= self.lc_rows().len(),
            keys <= self.ix_rows().len(),
        ensures
            rows_of(f.lc@) == self.lc_rows().take(m as int),
            rows_of(f.rc@) == self.rc_rows().take(m as int),
            rows_of(f.ix@) == self.ix_rows().take(keys as int),
    {
        let mut lc: Vec<Vec<u32>> = Vec::new();
        let mut rc: Vec<Vec<u32>> = Vec::new();
        let mut ix: Vec<Vec<u32>> = Vec::new();
        assert(rows_of(lc@) =~= Seq::empty());
        assert(rows_of(ix@) =~= Seq::empty());
        let mut base: usize = 0;
        let mut ix_base: usize = 0;
        match &self.shared {
            Some(s) => {
                base = if m < s.len {
                    m
                } else {
                    s.len
                };
                ix_base = if keys < s.ix_len {
                    keys
                } else {
                    s.ix_len
                };
                copy_rows(&mut lc, &s.rows.lc, base);
                copy_rows(&mut rc, &s.rows.rc, base);
                copy_rows(&mut ix, &s.rows.ix, ix_base);
            },
            None => {},
        }
        copy_rows(&mut lc, &self.lc, m - base);
        copy_rows(&mut rc, &self.rc, m - base);
        copy_rows(&mut ix, &self.ix, keys - ix_base);
        proof {
            assert(rows_of(lc@) =~= self.lc_rows().take(m as int));
            assert(rows_of(rc@) =~= self.rc_rows().take(m as int));
            assert(rows_of(ix@) =~= self.ix_rows().take(keys as int));
        }
        Frozen { lc, rc, ix }
    }
}

/// Lays the rows of `v` end to end.
fn flatten(v: &Vec<Vec<u32>>) -> (out: Vec<u32>)
    ensures
        out@ == flat(rows_of(v@)),
{
    let mut out: Vec<u32> = Vec::new();
    let mut i: usize = 0;
    assert(rows_of(v@).take(0) =~= Seq::empty());
    while i < v.len()
        invariant
            i <= v@.len(),
            out@ == flat(rows_of(v@).take(i as int)),
        decreases v@.len() - i,
    {
        let ghost before = out@;
        out.extend_from_slice(v[i].as_slice());
        proof {
            let next = rows_of(v@).take(i + 1);
            assert(next.drop_last() =~= rows_of(v@).take(i as int));
            assert(out@ =~= before + v@[i as int]@);
        }
        i = i + 1;
    }
    assert(rows_of(v@).take(v@.len() as int) =~= rows_of(v@));
    out
}

/// One layer's exported streams, rows laid end to end. Their elements are bit
/// patterns of the type the exporting cache holds; whoever wants them in a cache
/// of another type converts them first.
pub struct KvLayerExport {
    /// The type of the elements.
    pub dtype: KvDtype,
    /// The first latent stream.
    pub lc: Vec<u32>,
    /// The second latent stream.
    pub rc: Vec<u32>,
    /// The indexer's keys; empty, with a zero width, when there are none or
    /// they do not stand one per position.
    pub ix: Vec<u32>,
    /// Width of one key.
    pub ix_width: usize,
}

/// A cache's first positions as plain streams.
pub struct KvExport {
    /// Positions exported.
    pub n: usize,
    /// Each layer's streams.
    pub layers: Vec<KvLayerExport>,
}

/// `e` holds the first `n` positions of `k`. Keys that do not stand one per
/// position belong to later positions and are left out.
pub open spec fn exports(k: LayerKv, n: int, e: KvLayerExport) -> bool {
    &&& e.dtype == k.dtype()
    &&& e.lc@ == flat(k.lc_rows().take(n))
    &&& e.rc@ == flat(k.rc_rows().take(n))
    &&& e.ix_width == if k.ix_rows().len() == k.lc_rows().len() {
        k.index_width()
    } else {
        0
    }
    &&& e.ix@ == if e.ix_width > 0 {
        flat(k.ix_rows().take(n))
    } else {
        Seq::empty()
    }
}

/// The error importing one layer of an export of `n` positions is refused with.
pub open spec fn layer_import_error(
    n: int,
    lora: int,
    rope: int,
    dt: KvDtype,
    e: KvLayerExport,
) -> Option<CacheError> {
    if e.dtype != dt {
        Some(CacheError::ElementType)
    } else if e.lc@.len() != n * lora || e.rc@.len() != n * rope {
        Some(CacheError::StreamLength)
    } else if e.ix_width > 0 && e.ix@.len() != n * e.ix_width {
        Some(CacheError::IndexLength)
    } else {
        None
    }
}

/// `k` holds exactly what `e` exported.
pub open spec fn imports(k: LayerKv, n: nat, lora: nat, rope: nat, e: KvLayerExport) -> bool {
    &&& k.dtype() == e.dtype
    &&& k.widths() == (lora, rope)
    &&& k.lc_rows() == chunks(e.lc@, lora, n)
    &&& k.rc_rows() == chunks(e.rc@, rope, n)
    &&& k.ix_rows() == if e.ix_width > 0 {
        chunks(e.ix@, e.ix_width as nat, n)
    } else {
        Seq::empty()
    }
    &&& k.index_width() == if n > 0 {
        e.ix_width as nat
    } else {
        0
    }
    &&& k.prefix_id() is None
    &&& k.shared_len() == 0
    &&& k.shared_keys() == 0
}

/// Whether a stream of `len` elements is `n` rows of width `w`.
fn is_rows(len: usize, n: usize, w: usize) -> (b: bool)
    ensures
        b == (len == n * w),
{
    match n.checked_mul(w) {
        Some(x) => len == x,
        None => false,
    }
}

impl LayerKv {
    /// Exports the first `n` positions.
    pub fn export(&self, n: usize) -> (e: KvLayerExport)
        requires
            self.wf(),
            n <= self.lc_rows().len(),
        ensures
            exports(*self, n as int, e),
    {
        let ix_width: usize = if self.index_len() == self.len() {
            self.ix_width
        } else {
            0
        };
        let keys: usize = if ix_width > 0 {
            n
        } else {
            0
        };
        let f = self.freeze(n, keys);
        let lc = flatten(&f.lc);
        let rc = flatten(&f.rc);
        let ix = flatten(&f.ix);
        proof {
            if ix_width == 0 {
                assert(self.ix_rows().take(0) =~= Seq::empty());
            }
        }
        KvLayerExport { dtype: self.dt, lc, rc, ix, ix_width }
    }

    /// Rebuilds a layer from its export, row by row in the order a prefill
    /// appends them. An export of elements of another type is refused: its bit
    /// patterns mean other numbers here.
    pub fn import(lora: usize, rope: usize, dt: KvDtype, n: usize, e: &KvLayerExport) -> (r: Result<
        LayerKv,
        CacheError,
    >)
        ensures
            r is Ok <==> layer_import_error(n as int, lora as int, rope as int, dt, *e) is None,
            r is Err ==> Some(r->Err_0) == layer_import_error(
                n as int,
                lora as int,
                rope as int,
                dt,
                *e,
            ),
            r is Ok ==> {
                &&& r->Ok_0.wf()
                &&& r->Ok_0.dtype() == dt
                &&& imports(r->Ok_0, n as nat, lora as nat, rope as nat, *e)
            },
    {
        if e.dtype != dt {
            return Err(CacheError::ElementType);
        }
        if !is_rows(e.lc.len(), n, lora) || !is_rows(e.rc.len(), n, rope) {
            return Err(CacheError::StreamLength);
        }
        if e.ix_width > 0 && !is_rows(e.ix.len(), n, e.ix_width) {
            return Err(CacheError::IndexLength);
        }
        let mut k = LayerKv::with_dtype(lora, rope, dt);
        let mut i: usize = 0;
        assert(chunks(e.lc@, lora as nat, 0) =~= Seq::empty());
        assert(chunks(e.rc@, rope as nat, 0) =~= Seq::empty());
        while i < n
            invariant
                i <= n,
                e.lc@.len() == n * lora,
                e.rc@.len() == n * rope,
                k.wf(),
                k.dtype() == dt,
                k.widths() == (lora as nat, rope as nat),
                k.index_width() == 0,
                k.prefix_id() is None,
                k.shared_len() == 0,
                k.shared_keys() == 0,
                k.lc_rows() == chunks(e.lc@, lora as nat, i as nat),
                k.rc_rows() == chunks(e.rc@, rope as nat, i as nat),
                k.ix_rows() == Seq::<Seq<u32>>::empty(),
            decreases n - i,
        {
            proof {
                lemma_chunk_fits(i as int, n as int, lora as int);
                lemma_chunk_fits(i as int, n as int, rope as int);
                assert(e.lc@.len() == e.lc.len());
                assert(e.rc@.len() == e.rc.len());
            }
            let (la, ra): (usize, usize) = (i * lora, i * rope);
            let lc_row = vstd::slice::slice_subrange(e.lc.as_slice(), la, la + lora);
            let rc_row = vstd::slice::slice_subrange(e.rc.as_slice(), ra, ra + rope);
            match k.append(i, lc_row, rc_row) {
                Ok(_) => {},
                Err(err) => {
                    return Err(err);
                },
            }
            i = i + 1;
            proof {
                assert(k.lc_rows() =~= chunks(e.lc@, lora as nat, i as nat));
                assert(k.rc_rows() =~= chunks(e.rc@, rope as nat, i as nat));
            }
        }
        if e.ix_width > 0 {
            let w: usize = e.ix_width;
            let mut j: usize = 0;
            assert(chunks(e.ix@, w as nat, 0) =~= Seq::empty());
            while j < n
                invariant
                    j <= n,
                    w == e.ix_width,
                    w > 0,
                    e.ix@.len() == n * w,
                    k.wf(),
                    k.dtype() == dt,
                    k.widths() == (lora as nat, rope as nat),
                    k.index_width() == if j == 0 {
                        0
                    } else {
                        w as nat
                    },
                    k.prefix_id() is None,
                    k.shared_len() == 0,
                    k.shared_keys() == 0,
                    k.lc_rows() == chunks(e.lc@, lora as nat, n as nat),
                    k.rc_rows() == chunks(e.rc@, rope as nat, n as nat),
                    k.ix_rows() == chunks(e.ix@, w as nat, j as nat),
                decreases n - j,
            {
                proof {
                    lemma_chunk_fits(j as int, n as int, w as int);
                    assert(e.ix@.len() == e.ix.len());
                }
                let a: usize = j * w;
                let key = vstd::slice::slice_subrange(e.ix.as_slice(), a, a + w);
                k.append_index_key(key);
                j = j + 1;
                assert(k.ix_rows() =~= chunks(e.ix@, w as nat, j as nat));
            }
        }
        Ok(k)
    }
}

proof fn lemma_chunk_fits(i: int, n: int, w: int)
    requires
        0 <= i < n,
        0 <= w,
    ensures
        0 <= i * w,
        i * w + w <= n * w,
        (i + 1) * w == i * w + w,
{
    assert(0 <= i * w) by (nonlinear_arith)
        requires
            0 <= i,
            0 <= w,
    ;
    assert((i + 1) * w == i * w + w) by (nonlinear_arith);
    assert((i + 1) * w <= n * w) by (nonlinear_arith)
        requires
            i + 1 <= n,
            0 <= w,
    ;
}

/// What one layer exports, importing it into a cache of the same element type
/// reads back unchanged: the same rows, and the same keys where they stood one
/// per position.
pub proof fn lemma_layer_round_trip(k: LayerKv, n: nat, e: KvLayerExport, back: LayerKv)
    requires
        k.wf(),
        n <= k.lc_rows().len(),
        exports(k, n as int, e),
        imports(back, n, k.widths().0, k.widths().1, e),
    ensures
        layer_import_error(n as int, k.widths().0 as int, k.widths().1 as int, k.dtype(), e) is None,
        back.dtype() == k.dtype(),
        back.lc_rows() == k.lc_rows().take(n as int),
        back.rc_rows() == k.rc_rows().take(n as int),
        k.ix_rows().len() == k.lc_rows().len() && k.index_width() > 0 ==> back.ix_rows()
            == k.ix_rows().take(n as int),
{
    lemma_layer_import_accepts(k, n, e);
    k.lemma_streams();
    let (a, b) = k.widths();
    lemma_width_of_part(k.lc_rows(), n as int, a);
    lemma_width_of_part(k.rc_rows(), n as int, b);
    lemma_flat_chunks(k.lc_rows().take(n as int), a);
    lemma_flat_chunks(k.rc_rows().take(n as int), b);
    if e.ix_width > 0 {
        lemma_width_of_part(k.ix_rows(), n as int, k.index_width());
        lemma_flat_chunks(k.ix_rows().take(n as int), k.index_width());
    }
}

/// What a layer exports is never refused by a cache of its widths and element
/// type.
pub proof fn lemma_layer_import_accepts(k: LayerKv, n: nat, e: KvLayerExport)
    requires
        k.wf(),
        n <= k.lc_rows().len(),
        exports(k, n as int, e),
    ensures
        layer_import_error(n as int, k.widths().0 as int, k.widths().1 as int, k.dtype(), e) is None,
{
    k.lemma_streams();
    let (a, b) = k.widths();
    lemma_width_of_part(k.lc_rows(), n as int, a);
    lemma_width_of_part(k.rc_rows(), n as int, b);
    lemma_flat_chunks(k.lc_rows().take(n as int), a);
    lemma_flat_chunks(k.rc_rows().take(n as int), b);
    if e.ix_width > 0 {
        lemma_width_of_part(k.ix_rows(), n as int, k.index_width());
        lemma_flat_chunks(k.ix_rows().take(n as int), k.index_width());
    }
}

/// Gathering keeps the rows before `from` where they are and puts the kept rows
/// behind them, in the order listed. Index keys follow the rows that have one: as
/// many of the kept rows, from the first on, as lie among the indexed ones.
pub proof fn lemma_gathered_by_position(rows: Seq<Seq<u32>>, from: int, keep: Seq<usize>, i: int)
    requires
        0 <= from,
        ascends(from, keep),
    ensures
        from <= rows.len() && (forall|k: int|
            0 <= k < keep.len() ==> #[trigger] keep[k] < rows.len()) ==> {
            &&& gathered(rows, from, keep).len() == from + keep.len()
            &&& 0 <= i < from ==> gathered(rows, from, keep)[i] == rows[i]
            &&& 0 <= i < keep.len() ==> gathered(rows, from, keep)[from + i] == rows[keep[i] as int]
            &&& gathered_keys(rows, from, keep) == gathered(rows, from, keep)
        },
        from > rows.len() ==> gathered_keys(rows, from, keep) == rows,
        from <= rows.len() && 0 <= i < from ==> gathered_keys(rows, from, keep)[i] == rows[i],
        from <= rows.len() && 0 <= i < keep.len() && keep[i] < rows.len() ==> {
            &&& from + i < gathered_keys(rows, from, keep).len()
            &&& gathered_keys(rows, from, keep)[from + i] == rows[keep[i] as int]
        },
        from <= rows.len() && 0 <= i < keep.len() && keep[i] >= rows.len() ==> gathered_keys(
            rows,
            from,
            keep,
        ).len() <= from + i,
{
    let bound = rows.len() as int;
    lemma_leading_below(keep, bound);
    let n = leading_below(keep, bound) as int;
    if 0 <= i < keep.len() && keep[i] < rows.len() && n <= i {
        assert(keep[n] <= keep[i]);
    }
    if from > rows.len() {
        if n > 0 {
            assert(keep[0] < bound);
        }
        assert(gathered_keys(rows, from, keep) =~= rows);
    }
    if from <= rows.len() && (forall|k: int|
        0 <= k < keep.len() ==> #[trigger] keep[k] < rows.len()) {
        if n < keep.len() {
            assert(keep[n] < rows.len());
        }
        assert(gathered_keys(rows, from, keep) =~= gathered(rows, from, keep));
    }
}

/// A gather is refused exactly where it would start past the end or inside the
/// frozen prefix, where the rows to keep do not ascend from there, or where one of
/// them lies past the end; the first of these that holds is named.
pub proof fn lemma_when_a_gather_is_refused(k: LayerKv, from: int, keep: Seq<usize>)
    ensures
        k.gather_error(from, keep) is None <==> {
            &&& k.shared_len() <= from <= k.lc_rows().len()
            &&& forall|i: int|
                0 <= i < keep.len() ==> from <= #[trigger] keep[i] < k.lc_rows().len()
            &&& forall|i: int, j: int| 0 <= i < j < keep.len() ==> keep[i] < keep[j]
        },
        k.gather_error(from, keep) == Some(CacheError::FromPastEnd) <==> from > k.lc_rows().len(),
        k.gather_error(from, keep) == Some(CacheError::SharedPrefix) <==> from <= k.lc_rows().len()
            && from < k.shared_len(),
        k.gather_error(from, keep) == Some(CacheError::KeepPastEnd) ==> keep.len() > 0
            && keep.last() >= k.lc_rows().len(),
        k.gather_error(from, keep) == Some(CacheError::KeepOrder) ==> (exists|i: int|
            0 <= i < keep.len() && #[trigger] keep[i] < from) || exists|i: int, j: int|
            0 <= i < j < keep.len() && #[trigger] keep[i] >= #[trigger] keep[j],
{
    if k.gather_error(from, keep) is None {
        assert forall|i: int| 0 <= i < keep.len() implies from <= #[trigger] keep[i]
            < k.lc_rows().len() by {
            if i < keep.len() - 1 {
                assert(keep[i] < keep[keep.len() - 1]);
            }
        }
    }
}

/// What a cache holds is counted element by element: the latent and rotary rows
/// and the index keys, laid end to end. An element takes four bytes at full width
/// and two at half.
pub proof fn lemma_elements_are_what_is_held(k: LayerKv)
    requires
        k.wf(),
    ensures
        k.elements() == flat(k.lc_rows()).len() + flat(k.rc_rows()).len() + flat(k.ix_rows()).len(),
        element_bytes(KvDtype::F32) == 4,
        element_bytes(KvDtype::F16) == 2,
{
    k.lemma_streams();
    lemma_flat_chunks(k.lc_rows(), k.widths().0);
    lemma_flat_chunks(k.rc_rows(), k.widths().1);
    lemma_flat_chunks(k.ix_rows(), k.index_width());
    let n = k.lc_rows().len();
    let (a, b) = k.widths();
    assert(n * (a + b) == n * a + n * b) by (nonlinear_arith);
}

/// A layer is taken in exactly where its element type is the cache's and its
/// streams are as long as its positions ask for; index keys are asked for only
/// where it has any.
pub proof fn lemma_when_a_layer_is_refused(
    n: int,
    lora: int,
    rope: int,
    dt: KvDtype,
    e: KvLayerExport,
)
    ensures
        layer_import_error(n, lora, rope, dt, e) is None <==> {
            &&& e.dtype == dt
            &&& e.lc@.len() == n * lora
            &&& e.rc@.len() == n * rope
            &&& e.ix_width == 0 || e.ix@.len() == n * e.ix_width
        },
        layer_import_error(n, lora, rope, dt, e) == Some(CacheError::ElementType) <==> e.dtype != dt,
        layer_import_error(n, lora, rope, dt, e) == Some(CacheError::StreamLength) <==> e.dtype
            == dt && (e.lc@.len() != n * lora || e.rc@.len() != n * rope),
{
}

} // verus!
