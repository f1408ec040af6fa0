//! One sequence's whole cache: a key-value cache per layer and, for the layers
//! that keep one, a recurrent state.

use vstd::prelude::*;

use crate::cfg::Cfg;
use crate::knobs;
use crate::knobs::KvDtype;
use crate::kv;
use crate::kv::CacheError;
use crate::kv::KvExport;
use crate::kv::KvLayerExport;
use crate::kv::LayerKv;

verus! {

/// A recurrent layer's context: the tokens folded in, and the cells they left.
/// It has no per-position parts, so it can be restored but not rewound.
pub struct GdnState {
    /// Tokens folded in.
    pub len: usize,
    /// The state's cells, as bit patterns.
    pub cells: Vec<u32>,
}

/// A copy of a recurrent state to return to.
pub struct GdnSnapshot {
    /// Tokens folded in.
    pub len: usize,
    /// The state's cells.
    pub cells: Vec<u32>,
}

fn copy_cells(cells: &Vec<u32>) -> (out: Vec<u32>)
    ensures
        out@ == cells@,
{
    let mut out: Vec<u32> = Vec::new();
    out.extend_from_slice(cells.as_slice());
    assert(out@ =~= cells@);
    out
}

/// `n` zero cells.
fn zero_cells(n: usize) -> (out: Vec<u32>)
    ensures
        out@ == Seq::new(n as nat, |i: int| 0u32),
{
    let mut out: Vec<u32> = Vec::new();
    let mut i: usize = 0;
    while i < n
        invariant
            i <= n,
            out@ == Seq::new(i as nat, |j: int| 0u32),
        decreases n - i,
    {
        out.push(0);
        i = i + 1;
        assert(out@ =~= Seq::new(i as nat, |j: int| 0u32));
    }
    out
}

impl GdnState {
    /// A state that has seen nothing.
    pub open spec fn fresh(&self, n: nat) -> bool {
        self.len == 0 && self.cells@ == Seq::new(n, |i: int| 0u32)
    }

    /// A state of `n` cells that has seen nothing.
    pub fn new(n: usize) -> (s: GdnState)
        ensures
            s.fresh(n as nat),
    {
        GdnState { len: 0, cells: zero_cells(n) }
    }

    /// Copies the state.
    pub fn snapshot(&self) -> (s: GdnSnapshot)
        ensures
            s.len == self.len,
            s.cells@ == self.cells@,
    {
        GdnSnapshot { len: self.len, cells: copy_cells(&self.cells) }
    }
}

/// A state as plain values.
pub open spec fn state_view(s: Option<GdnState>) -> Option<(usize, Seq<u32>)> {
    match s {
        Some(g) => Some((g.len, g.cells@)),
        None => None,
    }
}

/// A sequence's cache.
pub struct SeqKv {
    layers: Vec<LayerKv>,
    gdn: Vec<Option<GdnState>>,
}

/// The sum of the first `n` layers' bytes.
pub open spec fn total_bytes(layers: Seq<LayerKv>, n: nat) -> int
    decreases n,
{
    if n == 0 {
        0
    } else {
        total_bytes(layers, (n - 1) as nat) + layers[n - 1].elements() * kv::element_bytes(
            layers[n - 1].dtype(),
        )
    }
}

/// The sum of the first `n` layers' private bytes.
pub open spec fn total_owned(layers: Seq<LayerKv>, n: nat) -> int
    decreases n,
{
    if n == 0 {
        0
    } else {
        total_owned(layers, (n - 1) as nat) + layers[n - 1].own_elements() * kv::element_bytes(
            layers[n - 1].dtype(),
        )
    }
}

/// The sum of the first `n` layers' frozen bytes.
pub open spec fn total_shared(layers: Seq<LayerKv>, n: nat) -> int
    decreases n,
{
    if n == 0 {
        0
    } else {
        total_shared(layers, (n - 1) as nat) + layers[n - 1].frozen_elements()
            * kv::element_bytes(layers[n - 1].dtype())
    }
}

impl SeqKv {
    /// The layers' caches.
    pub closed spec fn caches(&self) -> Seq<LayerKv> {
        self.layers@
    }

    /// The layers' recurrent states.
    pub closed spec fn states(&self) -> Seq<Option<GdnState>> {
        self.gdn@
    }

    /// The states as plain values.
    pub open spec fn state_views(&self) -> Seq<Option<(usize, Seq<u32>)>> {
        Seq::new(self.states().len(), |i: int| state_view(self.states()[i]))
    }

    /// Every layer's cache is well formed, and each layer has a slot for a
    /// state.
    pub open spec fn wf(&self) -> bool {
        &&& self.caches().len() == self.states().len()
        &&& forall|i: int| 0 <= i < self.caches().len() ==> (#[trigger] self.caches()[i]).wf()
    }

    /// Every layer caches the same positions and shares as many of them.
    pub open spec fn aligned(&self) -> bool {
        forall|i: int|
            0 <= i < self.caches().len() ==> {
                &&& (#[trigger] self.caches()[i]).lc_rows().len() == self.caches()[0].lc_rows().len()
                &&& self.caches()[i].shared_len() == self.caches()[0].shared_len()
            }
    }

    /// This is an empty cache for a model of that shape.
    pub open spec fn empty_for(&self, cfg: Cfg, dt: KvDtype) -> bool {
        &&& self.wf()
        &&& self.aligned()
        &&& self.caches().len() == cfg.n_layers
        &&& forall|i: int|
            0 <= i < cfg.n_layers ==> {
                &&& (#[trigger] self.caches()[i]).lc_rows().len() == 0
                &&& self.caches()[i].ix_rows().len() == 0
                &&& self.caches()[i].widths() == (cfg.kv_row_a as nat, cfg.kv_row_b as nat)
                &&& self.caches()[i].index_width() == 0
                &&& self.caches()[i].dtype() == dt
                &&& self.caches()[i].prefix_id() is None
                &&& self.caches()[i].shared_len() == 0
                &&& self.caches()[i].shared_keys() == 0
            }
        &&& forall|i: int|
            0 <= i < cfg.n_layers ==> if cfg.recurrent(i) {
                (#[trigger] self.states()[i]) is Some && self.states()[i]->0.fresh(
                    cfg.gdn_cells as nat,
                )
            } else {
                self.states()[i] is None
            }
    }

    /// An empty cache for a model of this shape, with elements of the type the
    /// setting spells.
    pub fn new(cfg: &Cfg, dtype: Option<&str>) -> (s: SeqKv)
        ensures
            s.empty_for(
                *cfg,
                if knobs::setting(dtype) == Some("f16"@) {
                    KvDtype::F16
                } else {
                    KvDtype::F32
                },
            ),
    {
        proof {
            reveal_strlit("f32");
            reveal_strlit("f16");
            assert("f32"@[1] != "f16"@[1]);
        }
        SeqKv::with_dtype(cfg, knobs::kv_dtype(dtype).dtype)
    }

    /// An empty cache for a model of this shape, with elements of type `dt`.
    pub fn with_dtype(cfg: &Cfg, dt: KvDtype) -> (s: SeqKv)
        ensures
            s.empty_for(*cfg, dt),
    {
        let mut layers: Vec<LayerKv> = Vec::new();
        let mut gdn: Vec<Option<GdnState>> = Vec::new();
        let mut i: usize = 0;
        while i < cfg.n_layers
            invariant
                i <= cfg.n_layers,
                layers@.len() == i,
                gdn@.len() == i,
                forall|j: int|
                    0 <= j < i ==> {
                        &&& (#[trigger] layers@[j]).wf()
                        &&& layers@[j].lc_rows().len() == 0
                        &&& layers@[j].ix_rows().len() == 0
                        &&& layers@[j].widths() == (cfg.kv_row_a as nat, cfg.kv_row_b as nat)
                        &&& layers@[j].index_width() == 0
                        &&& layers@[j].dtype() == dt
                        &&& layers@[j].prefix_id() is None
                        &&& layers@[j].shared_len() == 0
                        &&& layers@[j].shared_keys() == 0
                    },
                forall|j: int|
                    0 <= j < i ==> if cfg.recurrent(j) {
                        (#[trigger] gdn@[j]) is Some && gdn@[j]->0.fresh(cfg.gdn_cells as nat)
                    } else {
                        gdn@[j] is None
                    },
            decreases cfg.n_layers - i,
        {
            layers.push(LayerKv::with_dtype(cfg.kv_row_a, cfg.kv_row_b, dt));
            if cfg.is_recurrent(i) {
                gdn.push(Some(GdnState::new(cfg.gdn_cells)));
            } else {
                gdn.push(None);
            }
            i = i + 1;
        }
        SeqKv { layers, gdn }
    }

    /// Some layer's context is a recurrent state.
    pub open spec fn recurrent(&self) -> bool {
        exists|i: int| 0 <= i < self.states().len() && (#[trigger] self.states()[i]) is Some
    }

    /// Whether any layer's context is a recurrent state.
    pub fn has_recurrent_state(&self) -> (b: bool)
        ensures
            b == self.recurrent(),
    {
        let mut i: usize = 0;
        while i < self.gdn.len()
            invariant
                i <= self.gdn@.len(),
                forall|j: int| 0 <= j < i ==> (#[trigger] self.gdn@[j]) is None,
            decreases self.gdn@.len() - i,
        {
            if self.gdn[i].is_some() {
                assert(self.states()[i as int] is Some);
                return true;
            }
            i = i + 1;
        }
        false
    }

    /// Positions cached, which the first layer tells.
    pub open spec fn positions(&self) -> nat {
        if self.caches().len() == 0 {
            0
        } else {
            self.caches()[0].lc_rows().len()
        }
    }

    /// Positions cached so far.
    pub fn len(&self) -> (n: usize)
        requires
            self.wf(),
        ensures
            n == self.positions(),
    {
        if self.layers.len() == 0 {
            0
        } else {
            assert(self.caches()[0].wf());
            self.layers[0].len()
        }
    }

    /// Whether no position is cached yet.
    pub fn is_empty(&self) -> (b: bool)
        requires
            self.wf(),
        ensures
            b == (self.positions() == 0),
    {
        self.len() == 0
    }

    /// Indexer keys cached so far, which the first layer tells.
    pub fn index_len(&self) -> (n: usize)
        requires
            self.wf(),
        ensures
            n == if self.caches().len() == 0 {
                0
            } else {
                self.caches()[0].ix_rows().len()
            },
    {
        if self.layers.len() == 0 {
            0
        } else {
            assert(self.caches()[0].wf());
            self.layers[0].index_len()
        }
    }

    /// Caches the next position of one layer.
    pub fn append(&mut self, layer: usize, pos: usize, lc: &[u32], rc: &[u32]) -> (r: Result<
        (),
        CacheError,
    >)
        requires
            old(self).wf(),
            layer < old(self).caches().len(),
            old(self).caches()[layer as int].lc_rows().len() < usize::MAX,
        ensures
            final(self).wf(),
            final(self).caches().len() == old(self).caches().len(),
            final(self).states() == old(self).states(),
            forall|i: int|
                0 <= i < old(self).caches().len() && i != layer ==> (#[trigger] final(self).caches()[i]) == old(self).caches()[i],
            r is Ok <==> pos == old(self).caches()[layer as int].lc_rows().len() && lc@.len()
                == old(self).caches()[layer as int].widths().0 && rc@.len()
                == old(self).caches()[layer as int].widths().1,
            r is Err ==> final(self).caches() == old(self).caches(),
            r is Err ==> r->Err_0 == if pos != old(self).caches()[layer as int].lc_rows().len() {
                CacheError::Position
            } else {
                CacheError::Width
            },
            r is Ok ==> {
                let (a, b) = (old(self).caches()[layer as int], final(self).caches()[layer as int]);
                &&& b.lc_rows() == a.lc_rows().push(lc@)
                &&& b.rc_rows() == a.rc_rows().push(rc@)
                &&& b.ix_rows() == a.ix_rows()
                &&& b.same_frame(a)
            },
    {
        assert(self.caches()[layer as int].wf());
        let r = self.layers[layer].append(pos, lc, rc);
        proof {
            if r is Err {
                assert(self.layers@ =~= old(self).layers@);
            }
        }
        r
    }

    /// Caches one more indexer key of one layer.
    pub fn append_index_key(&mut self, layer: usize, key: &[u32])
        requires
            old(self).wf(),
            layer < old(self).caches().len(),
            key@.len() > 0,
            ({
                let k = old(self).caches()[layer as int];
                &&& k.index_width() == 0 || key@.len() == k.index_width()
                &&& k.ix_rows().len() < usize::MAX
            }),
        ensures
            final(self).wf(),
            final(self).caches().len() == old(self).caches().len(),
            final(self).states() == old(self).states(),
            forall|i: int|
                0 <= i < old(self).caches().len() && i != layer ==> (#[trigger] final(self).caches()[i]) == old(self).caches()[i],
            ({
                let (a, b) = (old(self).caches()[layer as int], final(self).caches()[layer as int]);
                &&& b.ix_rows() == a.ix_rows().push(key@)
                &&& b.index_width() == key@.len()
                &&& b.lc_rows() == a.lc_rows()
                &&& b.rc_rows() == a.rc_rows()
                &&& b.widths() == a.widths()
                &&& b.dtype() == a.dtype()
                &&& b.prefix_id() == a.prefix_id()
                &&& b.shared_len() == a.shared_len()
                &&& b.shared_keys() == a.shared_keys()
                &&& b.frozen_elements() == a.frozen_elements()
            }),
    {
        assert(self.caches()[layer as int].wf());
        self.layers[layer].append_index_key(key);
    }

    /// Folds tokens into one layer's recurrent state: the caller computed what
    /// they leave. Refused where the layer keeps none or its size differs.
    pub fn advance(&mut self, layer: usize, state: GdnState) -> (r: Result<(), CacheError>)
        requires
            old(self).wf(),
        ensures
            final(self).wf(),
            final(self).caches() == old(self).caches(),
            r is Ok <==> layer < old(self).states().len() && old(self).states()[layer as int] is Some
                && old(self).states()[layer as int]->0.cells@.len() == state.cells@.len(),
            r is Ok ==> final(self).states() == old(self).states().update(
                layer as int,
                Some(state),
            ),
            r is Err ==> final(self).states() == old(self).states(),
            r is Err ==> r->Err_0 == if layer < old(self).states().len()
                && old(self).states()[layer as int] is Some {
                CacheError::Geometry
            } else {
                CacheError::NoState
            },
    {
        if layer >= self.gdn.len() {
            return Err(CacheError::NoState);
        }
        match &self.gdn[layer] {
            None => {
                return Err(CacheError::NoState);
            },
            Some(g) => if g.cells.len() != state.cells.len() {
                return Err(CacheError::Geometry);
            },
        }
        self.gdn[layer] = Some(state);
        Ok(())
    }

    /// Rewinds every layer's rows to `new_len` positions. Recurrent states are
    /// not touched: what was folded in stays in.
    pub fn truncate(&mut self, new_len: usize)
        requires
            old(self).wf(),
        ensures
            final(self).wf(),
            final(self).states() == old(self).states(),
            final(self).caches().len() == old(self).caches().len(),
            forall|i: int|
                0 <= i < old(self).caches().len() ==> rewound(
                    old(self).caches()[i],
                    #[trigger] final(self).caches()[i],
                    new_len as int,
                ),
    {
        let ghost o = self.layers@;
        let mut i: usize = 0;
        while i < self.layers.len()
            invariant
                i <= self.layers@.len(),
                o == old(self).layers@,
                self.layers@.len() == o.len(),
                self.gdn@ == old(self).gdn@,
                o.len() == self.gdn@.len(),
                forall|j: int| 0 <= j < o.len() ==> (#[trigger] o[j]).wf(),
                forall|j: int| i <= j < o.len() ==> (#[trigger] self.layers@[j]) == o[j],
                forall|j: int|
                    0 <= j < i ==> (#[trigger] self.layers@[j]).wf() && rewound(
                        o[j],
                        self.layers@[j],
                        new_len as int,
                    ),
            decreases self.layers@.len() - i,
        {
            assert(self.layers@[i as int] == o[i as int]);
            self.layers[i].truncate(new_len);
            i = i + 1;
        }
    }
}

/// `b` is `a` rewound to `n` positions.
pub open spec fn rewound(a: LayerKv, b: LayerKv, n: int) -> bool {
    &&& b.lc_rows() == a.lc_rows().take(kv::least(n, a.lc_rows().len() as int))
    &&& b.rc_rows() == a.rc_rows().take(kv::least(n, a.rc_rows().len() as int))
    &&& b.ix_rows() == a.ix_rows().take(kv::least(n, a.ix_rows().len() as int))
    &&& b.shared_len() == kv::least(n, a.shared_len() as int)
    &&& b.shared_keys() == kv::least(n, a.shared_keys() as int)
    &&& b.widths() == a.widths()
    &&& b.index_width() == a.index_width()
    &&& b.dtype() == a.dtype()
    &&& b.prefix_id() == a.prefix_id()
    &&& b.frozen_elements() == a.frozen_elements()
}

/// `b` is `a` with the positions `keep` gathered down to `from`.
pub open spec fn kept(a: LayerKv, b: LayerKv, from: int, keep: Seq<usize>) -> bool {
    &&& b.lc_rows() == kv::gathered(a.lc_rows(), from, keep)
    &&& b.rc_rows() == kv::gathered(a.rc_rows(), from, keep)
    &&& b.ix_rows() == kv::gathered_keys(a.ix_rows(), from, keep)
    &&& b.same_frame(a)
}

/// `refused` is the first layer that refuses a gather.
pub open spec fn first_refusal(layers: Seq<LayerKv>, from: int, keep: Seq<usize>, refused: int) -> bool {
    &&& 0 <= refused < layers.len()
    &&& layers[refused].gather_error(from, keep) is Some
    &&& forall|i: int| 0 <= i < refused ==> (#[trigger] layers[i]).gather_error(from, keep) is None
}

/// What a snapshot holds of a list of states: the recurrent layers in order.
pub open spec fn snapped(states: Seq<Option<GdnState>>, n: nat) -> Seq<(usize, (usize, Seq<u32>))>
    decreases n,
{
    if n == 0 {
        Seq::empty()
    } else {
        let rest = snapped(states, (n - 1) as nat);
        match states[n - 1] {
            Some(g) => rest.push(((n - 1) as usize, (g.len, g.cells@))),
            None => rest,
        }
    }
}

/// A snapshot as plain values.
pub open spec fn snaps_view(snaps: Seq<(usize, GdnSnapshot)>) -> Seq<(usize, (usize, Seq<u32>))> {
    Seq::new(snaps.len(), |i: int| (snaps[i].0, (snaps[i].1.len, snaps[i].1.cells@)))
}

/// The error the restore of one layer is refused with.
pub open spec fn restore_error(
    states: Seq<Option<(usize, Seq<u32>)>>,
    layer: int,
    cells: nat,
) -> Option<CacheError> {
    if !(0 <= layer < states.len() && states[layer] is Some) {
        Some(CacheError::NoState)
    } else if (states[layer]->0).1.len() != cells {
        Some(CacheError::Geometry)
    } else {
        None
    }
}

/// The states after restoring the first `n` of `snaps`, each over the last.
pub open spec fn restored(
    states: Seq<Option<(usize, Seq<u32>)>>,
    snaps: Seq<(usize, (usize, Seq<u32>))>,
    n: nat,
) -> Seq<Option<(usize, Seq<u32>)>>
    decreases n,
{
    if n == 0 {
        states
    } else {
        restored(states, snaps, (n - 1) as nat).update(
            snaps[n - 1].0 as int,
            Some(snaps[n - 1].1),
        )
    }
}

impl SeqKv {
    /// Keeps only the positions `keep` of the block that starts at `from`, in
    /// every layer. Layers are taken in order and the first refusal ends it.
    pub fn retain_tail(&mut self, from: usize, keep: &[usize]) -> (r: Result<(), CacheError>)
        requires
            old(self).wf(),
        ensures
            final(self).wf(),
            final(self).states() == old(self).states(),
            final(self).caches().len() == old(self).caches().len(),
            r is Ok <==> forall|i: int|
                0 <= i < old(self).caches().len() ==> (#[trigger] old(self).caches()[i]).gather_error(from as int, keep@) is None,
            r is Ok ==> forall|i: int|
                0 <= i < old(self).caches().len() ==> kept(
                    old(self).caches()[i],
                    #[trigger] final(self).caches()[i],
                    from as int,
                    keep@,
                ),
            r is Err ==> exists|b: int| #[trigger]
                first_refusal(old(self).caches(), from as int, keep@, b) && Some(r->Err_0) == old(self).caches()[b].gather_error(from as int, keep@) && (forall|i: int|
                    0 <= i < b ==> kept(
                        old(self).caches()[i],
                        #[trigger] final(self).caches()[i],
                        from as int,
                        keep@,
                    )) && (forall|i: int|
                    b <= i < old(self).caches().len() ==> #[trigger] final(self).caches()[i] == old(self).caches()[i]),
    {
        let ghost o = self.layers@;
        let mut i: usize = 0;
        while i < self.layers.len()
            invariant
                i <= self.layers@.len(),
                o == old(self).layers@,
                self.layers@.len() == o.len(),
                self.gdn@ == old(self).gdn@,
                o.len() == self.gdn@.len(),
                forall|j: int| 0 <= j < o.len() ==> (#[trigger] o[j]).wf(),
                forall|j: int| i <= j < o.len() ==> (#[trigger] self.layers@[j]) == o[j],
                forall|j: int| 0 <= j < i ==> (#[trigger] o[j]).gather_error(
                    from as int,
                    keep@,
                ) is None,
                forall|j: int|
                    0 <= j < i ==> (#[trigger] self.layers@[j]).wf() && kept(
                        o[j],
                        self.layers@[j],
                        from as int,
                        keep@,
                    ),
            decreases self.layers@.len() - i,
        {
            assert(self.layers@[i as int] == o[i as int]);
            let ghost before = self.layers@;
            match self.layers[i].retain_tail(from, keep) {
                Ok(_) => {},
                Err(e) => {
                    proof {
                        assert(self.layers@ =~= before);
                        assert(first_refusal(
                            old(self).caches(),
                            from as int,
                            keep@,
                            i as int,
                        ));
                    }
                    return Err(e);
                },
            }
            i = i + 1;
        }
        Ok(())
    }

    /// Copies every recurrent layer's state, `None` when no layer has one: then
    /// [`Self::truncate`] alone undoes a rejected draft.
    pub fn gdn_snapshot(&self) -> (r: Option<Vec<(usize, GdnSnapshot)>>)
        ensures
            r is Some <==> self.recurrent(),
            r is Some <==> snapped(self.states(), self.states().len()).len() > 0,
            r is Some ==> snaps_view(r->0@) == snapped(self.states(), self.states().len()),
    {
        let mut snaps: Vec<(usize, GdnSnapshot)> = Vec::new();
        let mut i: usize = 0;
        assert(snaps_view(snaps@) =~= Seq::empty());
        while i < self.gdn.len()
            invariant
                i <= self.gdn@.len(),
                snaps_view(snaps@) == snapped(self.gdn@, i as nat),
            decreases self.gdn@.len() - i,
        {
            match &self.gdn[i] {
                Some(g) => {
                    let ghost before = snaps@;
                    snaps.push((i, g.snapshot()));
                    assert(snaps_view(snaps@) =~= snaps_view(before).push(
                        (i, (g.len, g.cells@)),
                    ));
                },
                None => {},
            }
            i = i + 1;
        }
        assert(snaps_view(snaps@).len() == snaps@.len());
        proof {
            lemma_snapped_some(self.gdn@, self.gdn@.len());
        }
        if snaps.len() > 0 {
            Some(snaps)
        } else {
            None
        }
    }

    /// Returns to a snapshot. Entries are taken in order; the first that names a
    /// layer without a state, or of another size, ends it before that layer is
    /// touched.
    pub fn gdn_restore(&mut self, snaps: &Vec<(usize, GdnSnapshot)>) -> (r: Result<(), CacheError>)
        requires
            old(self).wf(),
        ensures
            final(self).wf(),
            final(self).caches() == old(self).caches(),
            r is Ok ==> final(self).state_views() == restored(
                old(self).state_views(),
                snaps_view(snaps@),
                snaps@.len(),
            ),
            r is Ok <==> forall|j: int|
                0 <= j < snaps@.len() ==> restore_error(
                    old(self).state_views(),
                    (#[trigger] snaps@[j]).0 as int,
                    snaps@[j].1.cells@.len(),
                ) is None,
            r is Err ==> exists|j: int|
                0 <= j < snaps@.len() && Some(r->Err_0) == restore_error(
                    old(self).state_views(),
                    (#[trigger] snaps@[j]).0 as int,
                    snaps@[j].1.cells@.len(),
                ) && final(self).state_views() == restored(
                    old(self).state_views(),
                    snaps_view(snaps@),
                    j as nat,
                ),
    {
        let ghost o = self.state_views();
        let mut i: usize = 0;
        while i < snaps.len()
            invariant
                i <= snaps@.len(),
                self.layers@ == old(self).layers@,
                o == old(self).state_views(),
                self.wf(),
                self.state_views() == restored(o, snaps_view(snaps@), i as nat),
                self.state_views().len() == o.len(),
                forall|l: int| 0 <= l < o.len() ==> ((#[trigger] self.state_views()[l]) is Some
                    <==> o[l] is Some),
                forall|l: int|
                    0 <= l < o.len() && o[l] is Some ==> ((#[trigger] self.state_views()[l])->0).1.len()
                        == (o[l]->0).1.len(),
                forall|j: int|
                    0 <= j < i ==> restore_error(
                        o,
                        (#[trigger] snaps@[j]).0 as int,
                        snaps@[j].1.cells@.len(),
                    ) is None,
            decreases snaps@.len() - i,
        {
            let li: usize = snaps[i].0;
            let ghost before = self.state_views();
            if li >= self.gdn.len() {
                assert(restore_error(
                    o,
                    snaps@[i as int].0 as int,
                    snaps@[i as int].1.cells@.len(),
                ) == Some(CacheError::NoState));
                return Err(CacheError::NoState);
            }
            assert(before[li as int] == state_view(self.gdn@[li as int]));
            let snap = &snaps[i].1;
            match &self.gdn[li] {
                None => {
                    assert(restore_error(
                        o,
                        snaps@[i as int].0 as int,
                        snaps@[i as int].1.cells@.len(),
                    ) == Some(CacheError::NoState));
                    return Err(CacheError::NoState);
                },
                Some(g) => {
                    if snap.cells.len() != g.cells.len() {
                        assert(restore_error(
                            o,
                            snaps@[i as int].0 as int,
                            snaps@[i as int].1.cells@.len(),
                        ) == Some(CacheError::Geometry));
                        return Err(CacheError::Geometry);
                    }
                },
            }
            let state = GdnState { len: snap.len, cells: copy_cells(&snap.cells) };
            self.gdn[li] = Some(state);
            proof {
                assert(snaps_view(snaps@)[i as int] == (li, (snap.len, snap.cells@)));
                assert(self.state_views() =~= before.update(
                    li as int,
                    Some((snap.len, snap.cells@)),
                ));
            }
            i = i + 1;
        }
        Ok(())
    }

    /// Undoes a verify forward that started at position `pos`, where a recurrent
    /// layer makes rewinding alone fall short: returns every recurrent state to
    /// the snapshot taken before it, then rewinds the rows to `pos`. What was
    /// committed has to be run again from there.
    pub fn roll_back(&mut self, snaps: &Vec<(usize, GdnSnapshot)>, pos: usize) -> (r: Result<
        (),
        CacheError,
    >)
        requires
            old(self).wf(),
        ensures
            final(self).wf(),
            final(self).caches().len() == old(self).caches().len(),
            r is Ok <==> forall|j: int|
                0 <= j < snaps@.len() ==> restore_error(
                    old(self).state_views(),
                    (#[trigger] snaps@[j]).0 as int,
                    snaps@[j].1.cells@.len(),
                ) is None,
            r is Ok ==> final(self).state_views() == restored(
                old(self).state_views(),
                snaps_view(snaps@),
                snaps@.len(),
            ),
            r is Ok ==> forall|i: int|
                0 <= i < old(self).caches().len() ==> rewound(
                    old(self).caches()[i],
                    #[trigger] final(self).caches()[i],
                    pos as int,
                ),
            r is Err ==> final(self).caches() == old(self).caches(),
            r is Err ==> exists|j: int|
                0 <= j < snaps@.len() && Some(r->Err_0) == restore_error(
                    old(self).state_views(),
                    (#[trigger] snaps@[j]).0 as int,
                    snaps@[j].1.cells@.len(),
                ) && final(self).state_views() == restored(
                    old(self).state_views(),
                    snaps_view(snaps@),
                    j as nat,
                ),
    {
        match self.gdn_restore(snaps) {
            Ok(_) => {},
            Err(e) => {
                return Err(e);
            },
        }
        let ghost back = self.state_views();
        self.truncate(pos);
        assert(self.state_views() =~= back);
        Ok(())
    }

    /// Every layer's widths and bytes, and their sums, fit in a `usize`.
    pub open spec fn sized(&self) -> bool {
        &&& forall|i: int| 0 <= i < self.caches().len() ==> (#[trigger] self.caches()[i]).sized()
        &&& total_bytes(self.caches(), self.caches().len()) <= usize::MAX
        &&& total_owned(self.caches(), self.caches().len()) <= usize::MAX
        &&& total_shared(self.caches(), self.caches().len()) <= usize::MAX
    }

    /// Bytes of every position of every layer: what this sequence would cost
    /// holding each privately.
    pub fn bytes(&self) -> (n: usize)
        requires
            self.wf(),
            self.sized(),
        ensures
            n == total_bytes(self.caches(), self.caches().len()),
    {
        let mut sum: usize = 0;
        let mut i: usize = 0;
        while i < self.layers.len()
            invariant
                i <= self.layers@.len(),
                self.wf(),
                self.sized(),
                sum == total_bytes(self.layers@, i as nat),
            decreases self.layers@.len() - i,
        {
            assert(self.caches()[i as int].wf());
            assert(self.caches()[i as int].sized());
            proof {
                lemma_totals_grow(self.layers@, (i + 1) as nat, self.layers@.len());
            }
            sum = sum + self.layers[i].bytes();
            i = i + 1;
        }
        sum
    }

    /// Bytes held privately by this sequence, leaving out any shared prefix.
    pub fn owned_bytes(&self) -> (n: usize)
        requires
            self.wf(),
            self.sized(),
        ensures
            n == total_owned(self.caches(), self.caches().len()),
    {
        let mut sum: usize = 0;
        let mut i: usize = 0;
        while i < self.layers.len()
            invariant
                i <= self.layers@.len(),
                self.wf(),
                self.sized(),
                sum == total_owned(self.layers@, i as nat),
            decreases self.layers@.len() - i,
        {
            assert(self.caches()[i as int].wf());
            assert(self.caches()[i as int].sized());
            proof {
                lemma_totals_grow(self.layers@, (i + 1) as nat, self.layers@.len());
            }
            sum = sum + self.layers[i].owned_bytes();
            i = i + 1;
        }
        sum
    }

    /// The shared prefix this sequence was seeded from: its identity, which the
    /// first layer tells, and the bytes of the whole shared allocation. Sequences
    /// seeded from one entry report one identity, so a budget over many charges
    /// it once.
    pub fn shared_prefix(&self) -> (r: Option<(usize, usize)>)
        requires
            self.wf(),
            self.sized(),
        ensures
            r is Some <==> self.caches().len() > 0 && self.caches()[0].prefix_id() is Some,
            r is Some ==> Some((r->0).0) == self.caches()[0].prefix_id() && (r->0).1 == total_shared(
                self.caches(),
                self.caches().len(),
            ),
    {
        if self.layers.len() == 0 {
            return None;
        }
        let id: usize = match self.layers[0].shared_id() {
            Some(id) => id,
            None => {
                return None;
            },
        };
        let mut sum: usize = 0;
        let mut i: usize = 0;
        while i < self.layers.len()
            invariant
                i <= self.layers@.len(),
                self.wf(),
                self.sized(),
                sum == total_shared(self.layers@, i as nat),
            decreases self.layers@.len() - i,
        {
            assert(self.caches()[i as int].wf());
            assert(self.caches()[i as int].sized());
            proof {
                lemma_totals_grow(self.layers@, (i + 1) as nat, self.layers@.len());
            }
            sum = sum + self.layers[i].shared_bytes();
            i = i + 1;
        }
        Some((id, sum))
    }
}

/// Sums over fewer layers are no larger.
proof fn lemma_totals_grow(layers: Seq<LayerKv>, m: nat, n: nat)
    requires
        m <= n <= layers.len(),
        forall|i: int| 0 <= i < layers.len() ==> (#[trigger] layers[i]).wf(),
    ensures
        0 <= total_bytes(layers, m) <= total_bytes(layers, n),
        0 <= total_owned(layers, m) <= total_owned(layers, n),
        0 <= total_shared(layers, m) <= total_shared(layers, n),
    decreases n,
{
    if n > 0 {
        let k = layers[n - 1];
        assert(k.wf());
        k.lemma_counts();
        let es = kv::element_bytes(k.dtype());
        assert(0 <= k.elements() * es) by (nonlinear_arith)
            requires
                k.elements() >= 0,
                es >= 0,
        ;
        assert(0 <= k.own_elements() * es) by (nonlinear_arith)
            requires
                k.own_elements() >= 0,
                es >= 0,
        ;
        assert(0 <= k.frozen_elements() * es) by (nonlinear_arith)
            requires
                k.frozen_elements() >= 0,
                es >= 0,
        ;
        if m == n {
            lemma_totals_grow(layers, (n - 1) as nat, (n - 1) as nat);
        } else {
            lemma_totals_grow(layers, m, (n - 1) as nat);
        }
    }
}

/// `b` is a cache of the first `n` positions of `a` that owns none of them.
pub open spec fn prefix_of(a: LayerKv, b: LayerKv, n: int) -> bool {
    let m = kv::least(n, a.lc_rows().len() as int);
    &&& b.lc_rows() == a.lc_rows().take(m)
    &&& b.rc_rows() == a.rc_rows().take(m)
    &&& b.ix_rows() == a.ix_rows().take(kv::least(m, a.ix_rows().len() as int))
    &&& b.shared_len() == m
    &&& b.shared_keys() == b.ix_rows().len()
    &&& b.own_elements() == 0
    &&& b.widths() == a.widths()
    &&& b.index_width() == a.index_width()
    &&& b.dtype() == a.dtype()
    &&& b.prefix_id() is Some <==> m > 0
    &&& m > 0 && a.viewable(m) ==> b.prefix_id() == a.prefix_id() && b.frozen_elements()
        == a.frozen_elements()
    &&& m > 0 && !a.viewable(m) ==> b.frozen_elements() == b.elements()
}

/// The recurrent state a copy of the first `n` positions starts with: the same
/// state where it stands at exactly that length, one that has seen nothing
/// otherwise, since a state has no earlier part to take.
pub open spec fn prefix_state(a: Option<GdnState>, b: Option<GdnState>, n: int) -> bool {
    match a {
        None => b is None,
        Some(g) => b is Some && if g.len == n {
            state_view(b) == state_view(a)
        } else {
            b->0.fresh(g.cells@.len())
        },
    }
}

impl SeqKv {
    /// A sequence holding only the first `n` positions of every layer, reading
    /// them from one frozen prefix.
    pub fn clone_prefix(&self, n: usize) -> (s: SeqKv)
        requires
            self.wf(),
        ensures
            s.wf(),
            s.caches().len() == self.caches().len(),
            forall|i: int|
                0 <= i < self.caches().len() ==> prefix_of(
                    self.caches()[i],
                    #[trigger] s.caches()[i],
                    n as int,
                ),
            forall|i: int|
                0 <= i < self.states().len() ==> prefix_state(
                    self.states()[i],
                    #[trigger] s.states()[i],
                    n as int,
                ),
    {
        let mut layers: Vec<LayerKv> = Vec::new();
        let mut gdn: Vec<Option<GdnState>> = Vec::new();
        let mut i: usize = 0;
        while i < self.layers.len()
            invariant
                i <= self.layers@.len(),
                self.wf(),
                layers@.len() == i,
                gdn@.len() == i,
                forall|j: int|
                    0 <= j < i ==> (#[trigger] layers@[j]).wf() && prefix_of(
                        self.layers@[j],
                        layers@[j],
                        n as int,
                    ),
                forall|j: int|
                    0 <= j < i ==> prefix_state(self.gdn@[j], #[trigger] gdn@[j], n as int),
            decreases self.layers@.len() - i,
        {
            assert(self.caches()[i as int].wf());
            layers.push(self.layers[i].clone_prefix(n));
            match &self.gdn[i] {
                None => {
                    gdn.push(None);
                },
                Some(g) => if g.len == n {
                    gdn.push(Some(GdnState { len: g.len, cells: copy_cells(&g.cells) }));
                } else {
                    gdn.push(Some(GdnState::new(g.cells.len())));
                },
            }
            i = i + 1;
        }
        SeqKv { layers, gdn }
    }

    /// The first `n` positions of every layer as plain streams, or all of them
    /// where fewer are cached.
    pub fn export_prefix(&self, n: usize) -> (ex: KvExport)
        requires
            self.wf(),
            self.aligned(),
        ensures
            ex.n == kv::least(n as int, self.positions() as int),
            ex.layers@.len() == self.caches().len(),
            forall|i: int|
                0 <= i < ex.layers@.len() ==> kv::exports(
                    self.caches()[i],
                    ex.n as int,
                    #[trigger] ex.layers@[i],
                ),
    {
        let have: usize = self.len();
        let m: usize = if n < have {
            n
        } else {
            have
        };
        let mut layers: Vec<KvLayerExport> = Vec::new();
        let mut i: usize = 0;
        while i < self.layers.len()
            invariant
                i <= self.layers@.len(),
                self.wf(),
                self.aligned(),
                m <= self.positions(),
                layers@.len() == i,
                forall|j: int|
                    0 <= j < i ==> kv::exports(self.layers@[j], m as int, #[trigger] layers@[j]),
            decreases self.layers@.len() - i,
        {
            assert(self.caches()[i as int].wf());
            layers.push(self.layers[i].export(m));
            i = i + 1;
        }
        KvExport { n: m, layers }
    }

    /// Rebuilds a sequence from an export, for a model of this shape. Refused
    /// where the export has another number of layers, or a layer's elements are
    /// not of type `dt` or its streams do not hold the rows it claims; the first
    /// such layer decides.
    pub fn import(cfg: &Cfg, dt: KvDtype, ex: &KvExport) -> (r: Result<SeqKv, CacheError>)
        ensures
            r is Ok <==> import_error(*cfg, dt, *ex) is None,
            r is Err ==> Some(r->Err_0) == import_error(*cfg, dt, *ex),
            r is Ok ==> {
                let s = r->Ok_0;
                &&& s.wf()
                &&& s.aligned()
                &&& s.caches().len() == cfg.n_layers
                &&& forall|i: int|
                    0 <= i < cfg.n_layers ==> kv::imports(
                        #[trigger] s.caches()[i],
                        ex.n as nat,
                        cfg.kv_row_a as nat,
                        cfg.kv_row_b as nat,
                        ex.layers@[i],
                    ) && s.caches()[i].dtype() == dt
                &&& forall|i: int|
                    0 <= i < cfg.n_layers ==> if cfg.recurrent(i) {
                        (#[trigger] s.states()[i]) is Some && s.states()[i]->0.fresh(
                            cfg.gdn_cells as nat,
                        )
                    } else {
                        s.states()[i] is None
                    }
            },
    {
        if ex.layers.len() != cfg.n_layers {
            return Err(CacheError::LayerCount);
        }
        let empty = SeqKv::with_dtype(cfg, dt);
        let SeqKv { layers: _, gdn } = empty;
        let mut layers: Vec<LayerKv> = Vec::new();
        let mut i: usize = 0;
        while i < ex.layers.len()
            invariant
                i <= ex.layers@.len(),
                ex.layers@.len() == cfg.n_layers,
                layers@.len() == i,
                first_import_error(*cfg, dt, *ex, 0) == first_import_error(*cfg, dt, *ex, i as int),
                forall|j: int|
                    0 <= j < i ==> (#[trigger] layers@[j]).wf() && layers@[j].dtype() == dt
                        && kv::imports(
                        layers@[j],
                        ex.n as nat,
                        cfg.kv_row_a as nat,
                        cfg.kv_row_b as nat,
                        ex.layers@[j],
                    ),
            decreases ex.layers@.len() - i,
        {
            match LayerKv::import(cfg.kv_row_a, cfg.kv_row_b, dt, ex.n, &ex.layers[i]) {
                Ok(k) => {
                    layers.push(k);
                },
                Err(e) => {
                    return Err(e);
                },
            }
            i = i + 1;
        }
        let s = SeqKv { layers, gdn };
        proof {
            assert(s.states() == empty.states());
            assert forall|j: int| 0 <= j < s.caches().len() implies {
                &&& (#[trigger] s.caches()[j]).lc_rows().len() == s.caches()[0].lc_rows().len()
                &&& s.caches()[j].shared_len() == s.caches()[0].shared_len()
            } by {
                assert(layers@[j].lc_rows().len() == ex.n);
                assert(layers@[0].lc_rows().len() == ex.n);
            }
        }
        Ok(s)
    }
}

/// The error of the first layer from `i` on that cannot be imported.
pub open spec fn first_import_error(cfg: Cfg, dt: KvDtype, ex: KvExport, i: int) -> Option<CacheError>
    decreases ex.layers@.len() - i,
{
    if i < 0 || i >= ex.layers@.len() {
        None
    } else {
        match kv::layer_import_error(
            ex.n as int,
            cfg.kv_row_a as int,
            cfg.kv_row_b as int,
            dt,
            ex.layers@[i],
        ) {
            Some(e) => Some(e),
            None => first_import_error(cfg, dt, ex, i + 1),
        }
    }
}

/// The error an import is refused with.
pub open spec fn import_error(cfg: Cfg, dt: KvDtype, ex: KvExport) -> Option<CacheError> {
    if ex.layers@.len() != cfg.n_layers {
        Some(CacheError::LayerCount)
    } else {
        first_import_error(cfg, dt, ex, 0)
    }
}

/// Every layer has the widths of a model's shape.
pub open spec fn shaped(s: SeqKv, cfg: Cfg) -> bool {
    &&& s.caches().len() == cfg.n_layers
    &&& forall|i: int|
        0 <= i < s.caches().len() ==> (#[trigger] s.caches()[i]).widths() == (
            cfg.kv_row_a as nat,
            cfg.kv_row_b as nat,
        )
}

proof fn lemma_no_import_error(s: SeqKv, cfg: Cfg, dt: KvDtype, ex: KvExport, i: int)
    requires
        s.wf(),
        s.aligned(),
        shaped(s, cfg),
        forall|j: int| 0 <= j < s.caches().len() ==> (#[trigger] s.caches()[j]).dtype() == dt,
        ex.n <= s.positions(),
        ex.layers@.len() == s.caches().len(),
        forall|j: int|
            0 <= j < ex.layers@.len() ==> kv::exports(
                s.caches()[j],
                ex.n as int,
                #[trigger] ex.layers@[j],
            ),
        0 <= i <= ex.layers@.len(),
    ensures
        first_import_error(cfg, dt, ex, i) is None,
    decreases ex.layers@.len() - i,
{
    if i < ex.layers@.len() {
        assert(s.caches()[i].wf());
        assert(s.caches()[i].lc_rows().len() == s.caches()[0].lc_rows().len());
        assert(kv::exports(s.caches()[i], ex.n as int, ex.layers@[i]));
        kv::lemma_layer_import_accepts(s.caches()[i], ex.n as nat, ex.layers@[i]);
        lemma_no_import_error(s, cfg, dt, ex, i + 1);
    }
}

/// What a sequence exports, a model of its shape imports without refusal into a
/// cache of the same element type.
pub proof fn lemma_export_is_importable(s: SeqKv, cfg: Cfg, dt: KvDtype, ex: KvExport)
    requires
        s.wf(),
        s.aligned(),
        shaped(s, cfg),
        forall|j: int| 0 <= j < s.caches().len() ==> (#[trigger] s.caches()[j]).dtype() == dt,
        ex.n <= s.positions(),
        ex.layers@.len() == s.caches().len(),
        forall|i: int|
            0 <= i < ex.layers@.len() ==> kv::exports(
                s.caches()[i],
                ex.n as int,
                #[trigger] ex.layers@[i],
            ),
    ensures
        import_error(cfg, dt, ex) is None,
{
    lemma_no_import_error(s, cfg, dt, ex, 0);
}

/// Importing an export into a cache of its element type, the only one that takes
/// it, gives the exported positions back, layer by layer and element by element:
/// the same latent rows, and the same keys where they stood
/// one per position.
pub proof fn lemma_export_import_round_trip(s: SeqKv, cfg: Cfg, ex: KvExport, back: SeqKv, i: int)
    requires
        s.wf(),
        s.aligned(),
        shaped(s, cfg),
        ex.n <= s.positions(),
        ex.layers@.len() == s.caches().len(),
        0 <= i < s.caches().len(),
        kv::exports(s.caches()[i], ex.n as int, ex.layers@[i]),
        kv::imports(
            back.caches()[i],
            ex.n as nat,
            cfg.kv_row_a as nat,
            cfg.kv_row_b as nat,
            ex.layers@[i],
        ),
    ensures
        back.caches()[i].dtype() == s.caches()[i].dtype(),
        back.caches()[i].lc_rows() == s.caches()[i].lc_rows().take(ex.n as int),
        back.caches()[i].rc_rows() == s.caches()[i].rc_rows().take(ex.n as int),
        s.caches()[i].ix_rows().len() == s.caches()[i].lc_rows().len()
            && s.caches()[i].index_width() > 0 ==> back.caches()[i].ix_rows()
            == s.caches()[i].ix_rows().take(ex.n as int),
{
    assert(s.caches()[i].wf());
    assert(s.caches()[i].lc_rows().len() == s.caches()[0].lc_rows().len());
    assert(s.caches()[i].widths() == (cfg.kv_row_a as nat, cfg.kv_row_b as nat));
    kv::lemma_layer_round_trip(
        s.caches()[i],
        ex.n as nat,
        ex.layers@[i],
        back.caches()[i],
    );
}

/// Rewinding keeps the layers aligned, and takes the indexer's keys back with
/// the rows they belong to.
pub proof fn lemma_rewind_keeps_alignment(a: SeqKv, b: SeqKv, n: int)
    requires
        a.wf(),
        a.aligned(),
        b.caches().len() == a.caches().len(),
        0 <= n,
        forall|i: int|
            0 <= i < a.caches().len() ==> rewound(a.caches()[i], #[trigger] b.caches()[i], n),
    ensures
        b.aligned(),
        forall|i: int|
            0 <= i < a.caches().len() && a.caches()[i].ix_rows().len()
                == a.caches()[i].lc_rows().len() ==> (#[trigger] b.caches()[i]).ix_rows().len()
                == b.caches()[i].lc_rows().len(),
{
    assert forall|i: int| 0 <= i < b.caches().len() implies {
        &&& (#[trigger] b.caches()[i]).lc_rows().len() == b.caches()[0].lc_rows().len()
        &&& b.caches()[i].shared_len() == b.caches()[0].shared_len()
    } by {
        assert(rewound(a.caches()[i], b.caches()[i], n));
        assert(rewound(a.caches()[0], b.caches()[0], n));
        assert(a.caches()[i].lc_rows().len() == a.caches()[0].lc_rows().len());
    }
}

/// Appending rows and rewinding to where they began leaves the rows as they
/// were: a rejected draft leaves no trace in the cache.
pub proof fn lemma_rewind_undoes_append(rows: Seq<Seq<u32>>, drafted: Seq<Seq<u32>>)
    ensures
        (rows + drafted).take(kv::least(rows.len() as int, (rows + drafted).len() as int)) == rows,
{
    assert((rows + drafted).take(
        kv::least(rows.len() as int, (rows + drafted).len() as int),
    ) =~= rows);
}

/// Gathering the first positions of a block, in a row, is the rewind to their
/// end: a tree path that is a plain chain needs no gather.
pub proof fn lemma_gather_of_chain_is_rewind(rows: Seq<Seq<u32>>, from: int, keep: Seq<usize>)
    requires
        0 <= from,
        from + keep.len() <= rows.len(),
        forall|i: int| 0 <= i < keep.len() ==> #[trigger] keep[i] == from + i,
    ensures
        kv::gathered(rows, from, keep) == rows.take(from + keep.len()),
{
    assert(kv::gathered(rows, from, keep) =~= rows.take(from + keep.len()));
}

/// Where the layers are aligned a gather is all or nothing: the first layer
/// refuses whatever any layer refuses, before anything has moved.
pub proof fn lemma_refusal_leaves_all(s: SeqKv, from: int, keep: Seq<usize>, refused: int)
    requires
        s.wf(),
        s.aligned(),
        first_refusal(s.caches(), from, keep, refused),
    ensures
        refused == 0,
{
    assert(s.caches()[refused].lc_rows().len() == s.caches()[0].lc_rows().len());
    assert(s.caches()[0].gather_error(from, keep) == s.caches()[refused].gather_error(from, keep));
}

proof fn lemma_restored(
    now: Seq<Option<(usize, Seq<u32>)>>,
    states: Seq<Option<GdnState>>,
    n: nat,
    l: int,
)
    requires
        n <= states.len() <= usize::MAX,
        now.len() == states.len(),
        0 <= l < states.len(),
    ensures
        ({
            let snaps = snapped(states, n);
            let back = restored(now, snaps, snaps.len());
            back.len() == now.len() && back[l] == if l < n && states[l] is Some {
                state_view(states[l])
            } else {
                now[l]
            }
        }),
    decreases n,
{
    if n > 0 {
        let m = (n - 1) as nat;
        lemma_restored(now, states, m, l);
        match states[m as int] {
            Some(g) => {
                let snaps = snapped(states, n);
                let fewer = snapped(states, m);
                assert(snaps.drop_last() =~= fewer);
                lemma_restored_prefix(now, snaps, fewer.len());
            },
            None => {},
        }
    }
}

proof fn lemma_restored_prefix(
    now: Seq<Option<(usize, Seq<u32>)>>,
    snaps: Seq<(usize, (usize, Seq<u32>))>,
    n: nat,
)
    requires
        n <= snaps.len(),
    ensures
        restored(now, snaps, n) == restored(now, snaps.take(n as int), n),
    decreases n,
{
    if n > 0 {
        let m = (n - 1) as nat;
        lemma_restored_prefix(now, snaps, m);
        lemma_restored_prefix(now, snaps.take(n as int), m);
        assert(snaps.take(n as int).take(m as int) =~= snaps.take(m as int));
    }
}

/// A sequence has as many layers as its vectors hold: their count fits in a
/// `usize`, whatever the sequence.
pub proof fn lemma_layers_counted(s: SeqKv)
    ensures
        s.states().len() <= usize::MAX,
        s.caches().len() <= usize::MAX,
{
    assert(s.gdn@.len() == s.gdn.len());
    assert(s.layers@.len() == s.layers.len());
}

/// A snapshot undoes whatever was folded in since: restoring it gives every
/// recurrent layer the state it had, as long as none was added or removed.
pub proof fn lemma_snapshot_restores(then: SeqKv, now: SeqKv)
    requires
        now.states().len() == then.states().len(),
        forall|l: int|
            0 <= l < then.states().len() ==> (then.states()[l] is Some <==> (
            #[trigger] now.states()[l]) is Some),
    ensures
        ({
            let snaps = snapped(then.states(), then.states().len());
            restored(now.state_views(), snaps, snaps.len()) == then.state_views()
        }),
{
    lemma_layers_counted(then);
    let states = then.states();
    let snaps = snapped(states, states.len());
    let back = restored(now.state_views(), snaps, snaps.len());
    let want = then.state_views();
    assert forall|l: int| 0 <= l < states.len() implies back[l] == want[l] by {
        lemma_restored(now.state_views(), states, states.len(), l);
        assert(states[l] is Some <==> now.states()[l] is Some);
    }
    if states.len() > 0 {
        lemma_restored(now.state_views(), states, states.len(), 0);
    } else {
        assert(snaps.len() == 0);
    }
    assert(back =~= want);
}

/// A snapshot holds something exactly where some layer is recurrent.
proof fn lemma_snapped_some(states: Seq<Option<GdnState>>, n: nat)
    requires
        n <= states.len(),
    ensures
        snapped(states, n).len() > 0 <==> exists|i: int| 0 <= i < n && (#[trigger] states[i]) is Some,
    decreases n,
{
    if n > 0 {
        lemma_snapped_some(states, (n - 1) as nat);
        if states[n - 1] is None && snapped(states, n).len() > 0 {
            let i = choose|i: int| 0 <= i < n - 1 && (#[trigger] states[i]) is Some;
            assert(states[i] is Some);
        }
    }
}

/// `v` names every recurrent layer of the first `n` exactly once, in ascending
/// order, with the state it has.
pub open spec fn lists_recurrent(
    states: Seq<Option<GdnState>>,
    n: nat,
    v: Seq<(usize, (usize, Seq<u32>))>,
) -> bool {
    &&& forall|i: int|
        0 <= i < v.len() ==> (#[trigger] v[i]).0 < n && states[v[i].0 as int] is Some && Some(
            v[i].1,
        ) == state_view(states[v[i].0 as int])
    &&& forall|i: int, j: int| 0 <= i < j < v.len() ==> (#[trigger] v[i]).0 < (#[trigger] v[j]).0
    &&& forall|l: int|
        0 <= l < n && (#[trigger] states[l]) is Some ==> exists|i: int|
            0 <= i < v.len() && (#[trigger] v[i]).0 == l
}

/// A snapshot names every recurrent layer exactly once, in ascending order, with
/// the state it has, and no other layer; it is empty exactly where no layer is
/// recurrent.
pub proof fn lemma_snapshot_lists_recurrent_layers(s: SeqKv)
    ensures
        lists_recurrent(
            s.states(),
            s.states().len(),
            snapped(s.states(), s.states().len()),
        ),
        snapped(s.states(), s.states().len()).len() == 0 <==> !s.recurrent(),
{
    lemma_layers_counted(s);
    lemma_snapped_lists(s.states(), s.states().len());
    lemma_snapped_some(s.states(), s.states().len());
}

proof fn lemma_snapped_lists(states: Seq<Option<GdnState>>, n: nat)
    requires
        n <= states.len() <= usize::MAX,
    ensures
        lists_recurrent(states, n, snapped(states, n)),
    decreases n,
{
    if n > 0 {
        let m = (n - 1) as nat;
        lemma_snapped_lists(states, m);
        let (u, v) = (snapped(states, m), snapped(states, n));
        assert forall|l: int| 0 <= l < n && (#[trigger] states[l]) is Some implies exists|i: int|
            0 <= i < v.len() && (#[trigger] v[i]).0 == l by {
            if l < m {
                let i = choose|i: int| 0 <= i < u.len() && (#[trigger] u[i]).0 == l;
                assert(v[i] == u[i]);
            } else {
                assert(v[v.len() - 1].0 == l);
            }
        }
    }
}

/// A layer's rows at position `pos` and, in `b`, after more were cached: what
/// was there stays in front. A layer that caches no rows has none in either.
pub open spec fn grown(a: LayerKv, b: LayerKv, pos: int) -> bool {
    &&& a.lc_rows() == b.lc_rows().take(kv::least(pos, b.lc_rows().len() as int))
    &&& a.rc_rows() == b.rc_rows().take(kv::least(pos, b.rc_rows().len() as int))
    &&& a.ix_rows() == b.ix_rows().take(kv::least(pos, b.ix_rows().len() as int))
}

/// Rolling back a verify forward leaves no trace of it, in any layer's rows or
/// in any recurrent state, whatever was drafted: `before` is the sequence at
/// position `pos`, `after` what the forward made of it, and `back` what restoring
/// the snapshot of `before` and rewinding to `pos` makes of that.
pub proof fn lemma_rollback_leaves_no_trace(before: SeqKv, after: SeqKv, back: SeqKv, pos: int)
    requires
        before.wf(),
        after.wf(),
        back.wf(),
        0 <= pos,
        after.caches().len() == before.caches().len(),
        back.caches().len() == before.caches().len(),
        forall|l: int|
            0 <= l < before.states().len() ==> (before.states()[l] is Some <==> (
            #[trigger] after.states()[l]) is Some),
        forall|i: int|
            0 <= i < before.caches().len() ==> grown(
                before.caches()[i],
                #[trigger] after.caches()[i],
                pos,
            ),
        ({
            let snaps = snapped(before.states(), before.states().len());
            back.state_views() == restored(after.state_views(), snaps, snaps.len())
        }),
        forall|i: int|
            0 <= i < before.caches().len() ==> rewound(
                after.caches()[i],
                #[trigger] back.caches()[i],
                pos,
            ),
    ensures
        back.state_views() == before.state_views(),
        forall|i: int|
            0 <= i < before.caches().len() ==> {
                &&& (#[trigger] back.caches()[i]).lc_rows() == before.caches()[i].lc_rows()
                &&& back.caches()[i].rc_rows() == before.caches()[i].rc_rows()
                &&& back.caches()[i].ix_rows() == before.caches()[i].ix_rows()
            },
{
    lemma_snapshot_restores(before, after);
    assert(back.state_views() =~= before.state_views());
    assert forall|i: int| 0 <= i < before.caches().len() implies {
        &&& (#[trigger] back.caches()[i]).lc_rows() == before.caches()[i].lc_rows()
        &&& back.caches()[i].rc_rows() == before.caches()[i].rc_rows()
        &&& back.caches()[i].ix_rows() == before.caches()[i].ix_rows()
    } by {
        assert(grown(before.caches()[i], after.caches()[i], pos));
        assert(rewound(after.caches()[i], back.caches()[i], pos));
    }
}

/// A sequence of a model without recurrent layers has no state to roll back: for
/// it rewinding alone undoes a rejected draft.
pub proof fn lemma_kv_only_model_has_no_state(s: SeqKv, cfg: Cfg, dt: KvDtype)
    requires
        s.empty_for(cfg, dt),
        cfg.arch != crate::cfg::Arch::HybridGdn,
    ensures
        !s.recurrent(),
{
    assert forall|i: int| 0 <= i < s.states().len() implies (#[trigger] s.states()[i]) is None by {
        assert(!cfg.recurrent(i));
    }
}

/// Rewinding never alters what a snapshot restores: states before and after a
/// rewind are the same, so restoring gives the same.
pub proof fn lemma_rewind_keeps_snapshots(a: SeqKv, b: SeqKv, snaps: Seq<(usize, (usize, Seq<u32>))>)
    requires
        b.states() == a.states(),
    ensures
        restored(b.state_views(), snaps, snaps.len()) == restored(
            a.state_views(),
            snaps,
            snaps.len(),
        ),
        snapped(b.states(), b.states().len()) == snapped(a.states(), a.states().len()),
{
    assert(b.state_views() =~= a.state_views());
}

/// A sequence whose layers read from no frozen prefix owns every byte it holds.
pub proof fn lemma_private_sequence_owns_all(layers: Seq<LayerKv>, n: nat)
    requires
        n <= layers.len(),
        forall|i: int|
            0 <= i < layers.len() ==> (#[trigger] layers[i]).wf() && layers[i].prefix_id() is None,
    ensures
        total_owned(layers, n) == total_bytes(layers, n),
    decreases n,
{
    if n > 0 {
        lemma_private_sequence_owns_all(layers, (n - 1) as nat);
        assert(layers[n - 1].wf());
        layers[n - 1].lemma_counts();
    }
}

/// Every copy of a cached prefix owns nothing and reads an allocation that costs
/// what the cached prefix costs, however much of it the copy views: `src` shared
/// nothing and holds at least `n` positions in every layer, `entry` is its cached
/// prefix of `n`, and `copy` views the first `m` of that.
pub proof fn lemma_forks_share_one_allocation(
    src: Seq<LayerKv>,
    entry: Seq<LayerKv>,
    copy: Seq<LayerKv>,
    n: int,
    m: int,
    k: nat,
)
    requires
        src.len() == entry.len(),
        entry.len() == copy.len(),
        k <= src.len(),
        0 < m <= n,
        forall|i: int|
            0 <= i < src.len() ==> {
                &&& (#[trigger] src[i]).wf()
                &&& src[i].prefix_id() is None
                &&& n <= src[i].lc_rows().len()
            },
        forall|i: int|
            0 <= i < src.len() ==> (#[trigger] entry[i]).wf() && prefix_of(src[i], entry[i], n),
        forall|i: int| 0 <= i < src.len() ==> prefix_of(entry[i], #[trigger] copy[i], m),
    ensures
        total_owned(copy, k) == 0,
        total_shared(copy, k) == total_bytes(entry, k),
        k > 0 ==> copy[0].prefix_id() == entry[0].prefix_id() && copy[0].prefix_id() is Some,
    decreases k,
{
    if k > 0 {
        let j = k - 1;
        lemma_forks_share_one_allocation(src, entry, copy, n, m, j as nat);
        assert(entry[j].wf() && src[j].wf());
        assert(prefix_of(entry[j], copy[j], m));
        lemma_sharing_charges_once(src[j], entry[j], copy[j], n, m);
        assert(prefix_of(entry[0], copy[0], m));
        assert(entry[0].wf() && src[0].wf());
        lemma_sharing_charges_once(src[0], entry[0], copy[0], n, m);
        assert(0 * kv::element_bytes(copy[j].dtype()) == 0);
    }
}

/// Two copies of one cached prefix report the same identity, own nothing, and
/// read an allocation that costs what the cached prefix itself costs: together
/// they are charged one prefix, not two. `entry` is the cached prefix of a layer
/// that shared nothing, `a` a copy of as much of it.
pub proof fn lemma_sharing_charges_once(src: LayerKv, entry: LayerKv, a: LayerKv, n: int, m: int)
    requires
        src.wf(),
        entry.wf(),
        src.prefix_id() is None,
        0 < m <= n <= src.lc_rows().len(),
        prefix_of(src, entry, n),
        prefix_of(entry, a, m),
    ensures
        a.prefix_id() == entry.prefix_id(),
        a.own_elements() == 0,
        a.frozen_elements() == entry.elements(),
{
}

/// Every layer enters a sequence's totals once, at the size of its elements: with
/// all it holds, with what it holds of its own, and with what it reads frozen.
pub proof fn lemma_totals_count_each_layer_once(layers: Seq<LayerKv>, l: LayerKv)
    ensures
        total_bytes(layers, 0) == 0 && total_owned(layers, 0) == 0 && total_shared(layers, 0) == 0,
        ({
            let more = layers.push(l);
            let n = layers.len();
            let size: int = if l.dtype() == KvDtype::F32 {
                4
            } else {
                2
            };
            &&& total_bytes(more, n + 1) == total_bytes(layers, n) + l.elements() * size
            &&& total_owned(more, n + 1) == total_owned(layers, n) + l.own_elements() * size
            &&& total_shared(more, n + 1) == total_shared(layers, n) + l.frozen_elements() * size
        }),
{
    lemma_totals_of_a_longer_list(layers, l, layers.len());
}

proof fn lemma_totals_of_a_longer_list(layers: Seq<LayerKv>, l: LayerKv, n: nat)
    requires
        n <= layers.len(),
    ensures
        total_bytes(layers.push(l), n) == total_bytes(layers, n),
        total_owned(layers.push(l), n) == total_owned(layers, n),
        total_shared(layers.push(l), n) == total_shared(layers, n),
    decreases n,
{
    if n > 0 {
        lemma_totals_of_a_longer_list(layers, l, (n - 1) as nat);
    }
}

/// A recurrent state is restored exactly where the layer has one of as many cells.
pub proof fn lemma_when_a_restore_is_refused(
    states: Seq<Option<(usize, Seq<u32>)>>,
    layer: int,
    cells: nat,
)
    ensures
        restore_error(states, layer, cells) is None <==> 0 <= layer < states.len()
            && states[layer] is Some && (states[layer]->0).1.len() == cells,
        restore_error(states, layer, cells) == Some(CacheError::NoState) <==> !(0 <= layer
            < states.len()) || states[layer] is None,
        restore_error(states, layer, cells) == Some(CacheError::Geometry) <==> 0 <= layer
            < states.len() && states[layer] is Some && (states[layer]->0).1.len() != cells,
{
}

/// Restoring gives each named layer its own snapshot and leaves every other layer
/// alone.
pub proof fn lemma_restoring_touches_the_named_layers(
    states: Seq<Option<(usize, Seq<u32>)>>,
    snaps: Seq<(usize, (usize, Seq<u32>))>,
    n: nat,
    l: int,
)
    requires
        n <= snaps.len(),
        forall|i: int| 0 <= i < snaps.len() ==> (#[trigger] snaps[i]).0 < states.len(),
        forall|i: int, j: int|
            0 <= i < j < snaps.len() ==> (#[trigger] snaps[i]).0 != (#[trigger] snaps[j]).0,
        0 <= l < states.len(),
    ensures
        restored(states, snaps, n).len() == states.len(),
        forall|i: int|
            0 <= i < n && (#[trigger] snaps[i]).0 == l ==> restored(states, snaps, n)[l] == Some(
                snaps[i].1,
            ),
        (forall|i: int| 0 <= i < n ==> (#[trigger] snaps[i]).0 != l) ==> restored(
            states,
            snaps,
            n,
        )[l] == states[l],
    decreases n,
{
    if n > 0 {
        lemma_restoring_touches_the_named_layers(states, snaps, (n - 1) as nat, l);
        assert(snaps[n - 1].0 < states.len());
    }
}

/// A forked recurrent state is the source's where the fork is taken at the
/// position the state stands at, and starts over otherwise, with as many cells,
/// all of them zero. A layer without one has none.
pub proof fn lemma_forked_state(a: Option<GdnState>, b: Option<GdnState>, n: int)
    requires
        prefix_state(a, b, n),
    ensures
        a is None <==> b is None,
        a is Some ==> (b->0).cells@.len() == (a->0).cells@.len(),
        a is Some && (a->0).len == n ==> (b->0).len == n && (b->0).cells@ == (a->0).cells@,
        a is Some && (a->0).len != n ==> (b->0).len == 0 && forall|i: int|
            0 <= i < (b->0).cells@.len() ==> #[trigger] (b->0).cells@[i] == 0,
{
}

/// A cut sequence keeps its leading positions, no more than asked for and no
/// fewer than it has, each row unchanged, in all three streams.
pub proof fn lemma_cut_keeps_the_leading_rows(a: LayerKv, b: LayerKv, n: int, i: int)
    requires
        a.wf(),
        0 <= n,
        rewound(a, b, n) || prefix_of(a, b, n),
    ensures
        n <= a.lc_rows().len() ==> b.lc_rows().len() == n && b.rc_rows().len() == n,
        n >= a.lc_rows().len() ==> b.lc_rows() == a.lc_rows() && b.rc_rows() == a.rc_rows(),
        0 <= i < n && i < a.lc_rows().len() ==> b.lc_rows()[i] == a.lc_rows()[i] && b.rc_rows()[i]
            == a.rc_rows()[i],
        0 <= i < n && i < a.ix_rows().len() && i < a.lc_rows().len() ==> b.ix_rows()[i]
            == a.ix_rows()[i],
        b.ix_rows().len() <= n,
        b.widths() == a.widths(),
        b.dtype() == a.dtype(),
        prefix_of(a, b, n) ==> b.shared_len() == b.lc_rows().len(),
{
    a.lemma_streams();
    assert(a.lc_rows().take(a.lc_rows().len() as int) =~= a.lc_rows());
    assert(a.rc_rows().take(a.rc_rows().len() as int) =~= a.rc_rows());
}

/// An export is taken in exactly where it has a layer for each of the model's and
/// every one of them fits; otherwise the first that does not is what refuses it.
pub proof fn lemma_when_an_export_is_refused(cfg: Cfg, dt: KvDtype, ex: KvExport, i: int)
    ensures
        import_error(cfg, dt, ex) == Some(CacheError::LayerCount) <== ex.layers@.len()
            != cfg.n_layers,
        import_error(cfg, dt, ex) is None <==> {
            &&& ex.layers@.len() == cfg.n_layers
            &&& forall|k: int|
                0 <= k < ex.layers@.len() ==> {
                    &&& (#[trigger] ex.layers@[k]).dtype == dt
                    &&& ex.layers@[k].lc@.len() == ex.n * cfg.kv_row_a
                    &&& ex.layers@[k].rc@.len() == ex.n * cfg.kv_row_b
                    &&& ex.layers@[k].ix_width == 0 || ex.layers@[k].ix@.len() == ex.n
                        * ex.layers@[k].ix_width
                }
        },
        ex.layers@.len() == cfg.n_layers && 0 <= i < ex.layers@.len() && (forall|k: int|
            0 <= k < i ==> kv::layer_import_error(
                ex.n as int,
                cfg.kv_row_a as int,
                cfg.kv_row_b as int,
                dt,
                #[trigger] ex.layers@[k],
            ) is None) && kv::layer_import_error(
            ex.n as int,
            cfg.kv_row_a as int,
            cfg.kv_row_b as int,
            dt,
            ex.layers@[i],
        ) is Some ==> import_error(cfg, dt, ex) == kv::layer_import_error(
            ex.n as int,
            cfg.kv_row_a as int,
            cfg.kv_row_b as int,
            dt,
            ex.layers@[i],
        ),
{
    lemma_first_import_error(cfg, dt, ex, 0);
    if import_error(cfg, dt, ex) is None {
        assert forall|k: int| 0 <= k < ex.layers@.len() implies {
            &&& (#[trigger] ex.layers@[k]).dtype == dt
            &&& ex.layers@[k].lc@.len() == ex.n * cfg.kv_row_a
            &&& ex.layers@[k].rc@.len() == ex.n * cfg.kv_row_b
            &&& ex.layers@[k].ix_width == 0 || ex.layers@[k].ix@.len() == ex.n
                * ex.layers@[k].ix_width
        } by {
            kv::lemma_when_a_layer_is_refused(
                ex.n as int,
                cfg.kv_row_a as int,
                cfg.kv_row_b as int,
                dt,
                ex.layers@[k],
            );
        }
    }
}

proof fn lemma_first_import_error(cfg: Cfg, dt: KvDtype, ex: KvExport, from: int)
    requires
        0 <= from <= ex.layers@.len(),
    ensures
        first_import_error(cfg, dt, ex, from) is None <==> forall|k: int|
            from <= k < ex.layers@.len() ==> kv::layer_import_error(
                ex.n as int,
                cfg.kv_row_a as int,
                cfg.kv_row_b as int,
                dt,
                #[trigger] ex.layers@[k],
            ) is None,
        forall|i: int|
            from <= i < ex.layers@.len() && kv::layer_import_error(
                ex.n as int,
                cfg.kv_row_a as int,
                cfg.kv_row_b as int,
                dt,
                #[trigger] ex.layers@[i],
            ) is Some && (forall|k: int|
                from <= k < i ==> kv::layer_import_error(
                    ex.n as int,
                    cfg.kv_row_a as int,
                    cfg.kv_row_b as int,
                    dt,
                    #[trigger] ex.layers@[k],
                ) is None) ==> first_import_error(cfg, dt, ex, from) == kv::layer_import_error(
                ex.n as int,
                cfg.kv_row_a as int,
                cfg.kv_row_b as int,
                dt,
                ex.layers@[i],
            ),
    decreases ex.layers@.len() - from,
{
    if from < ex.layers@.len() && kv::layer_import_error(
        ex.n as int,
        cfg.kv_row_a as int,
        cfg.kv_row_b as int,
        dt,
        ex.layers@[from],
    ) is None {
        lemma_first_import_error(cfg, dt, ex, from + 1);
    }
}

} // verus!
