//! The layer stack: which path each layer takes, and what a forward does around
//! it, in order.

use vstd::prelude::*;

use crate::layers::Attn;

verus! {

/// Why a forward stopped.
#[derive(Clone, Copy, Debug, PartialEq, Eq, Structural)]
pub enum StackError {
    /// A recurrent layer on a path that carries no recurrent state.
    NoState(usize),
    /// A row of a recurrent layer whose sequence carries no recurrent state.
    NoRowState {
        /// The layer.
        layer: usize,
        /// The row.
        row: usize,
        /// The sequence that owns it.
        owner: usize,
    },
    /// A dense layer without its weights.
    DenseMissing(usize),
}

/// How a layer mixes positions.
#[derive(Clone, Copy, Debug, PartialEq, Eq, Structural)]
pub enum Mixer {
    /// Grouped-query attention over the cache.
    Gqa,
    /// A recurrent state.
    Gdn,
    /// Latent attention over the positions an indexer selects.
    MlaIndexed,
    /// Latent attention with the projections absorbed.
    MlaAbsorb,
    /// Latent attention, every position reconstructed.
    MlaDense,
}

/// How a layer feeds forward.
#[derive(Clone, Copy, Debug, PartialEq, Eq, Structural)]
pub enum Ffn {
    /// Routed experts streamed from disk.
    Streamed,
    /// Routed experts held in memory.
    Resident,
    /// One dense block.
    Dense,
}

/// What a forward has to know of a layer.
#[derive(Clone, Copy, Debug)]
pub struct LayerShape {
    /// Its attention.
    pub attn: Attn,
    /// It carries indexer weights.
    pub indexed: bool,
    /// Its feed-forward is routed.
    pub sparse: bool,
    /// It carries dense feed-forward weights.
    pub dense: bool,
}

/// The switches a forward runs under.
#[derive(Clone, Copy, Debug)]
pub struct Switches {
    /// Sparse selection, where a layer has an indexer.
    pub dsa: bool,
    /// Absorbed latent attention.
    pub absorb: bool,
    /// Experts are streamed.
    pub stream: bool,
    /// Calibration is being captured.
    pub calib: bool,
}

/// The path a layer's attention takes. Sparse selection comes first: only it
/// keeps the indexer's keys, and they have to be there from position zero.
pub open spec fn mixer_of(l: LayerShape, sw: Switches) -> Mixer {
    match l.attn {
        Attn::Gqa => Mixer::Gqa,
        Attn::Gdn => Mixer::Gdn,
        Attn::Mla => if sw.dsa && l.indexed {
            Mixer::MlaIndexed
        } else if sw.absorb {
            Mixer::MlaAbsorb
        } else {
            Mixer::MlaDense
        },
    }
}

/// The path a layer's feed-forward takes.
pub open spec fn ffn_of(l: LayerShape, li: usize, sw: Switches) -> Result<Ffn, StackError> {
    if l.sparse {
        if sw.stream {
            Ok(Ffn::Streamed)
        } else {
            Ok(Ffn::Resident)
        }
    } else if l.dense {
        Ok(Ffn::Dense)
    } else {
        Err(StackError::DenseMissing(li))
    }
}

/// One layer's work: attention first, then the feed-forward, which is where a
/// missing dense block shows.
#[derive(Clone, Copy, Debug)]
pub struct LayerWork {
    /// How positions mix.
    pub mixer: Mixer,
    /// The router's input is recorded first.
    pub capture: bool,
    /// How the layer feeds forward.
    pub ffn: Result<Ffn, StackError>,
}

/// A layer's attention decides its mixer, and no switch ever sends it to another
/// family's. The switches choose among the latent ones only: selection where it is
/// on and the layer has an indexer to select with, then absorption, else full
/// reconstruction.
pub proof fn lemma_mixer_is_of_the_layers_own_attention(l: LayerShape, sw: Switches)
    ensures
        mixer_of(l, sw) == Mixer::Gqa <==> l.attn == Attn::Gqa,
        mixer_of(l, sw) == Mixer::Gdn <==> l.attn == Attn::Gdn,
        mixer_of(l, sw) == Mixer::MlaIndexed <==> l.attn == Attn::Mla && sw.dsa && l.indexed,
        mixer_of(l, sw) == Mixer::MlaAbsorb <==> l.attn == Attn::Mla && sw.absorb && !(sw.dsa
            && l.indexed),
        mixer_of(l, sw) == Mixer::MlaDense <==> l.attn == Attn::Mla && !sw.absorb && !(sw.dsa
            && l.indexed),
{
}

/// A routed layer feeds forward through its experts and never through a dense
/// block, streamed exactly where experts are streamed; any other layer takes its
/// dense block, and one without either is refused by its own number.
pub proof fn lemma_feed_forward_is_the_layers_own(l: LayerShape, li: usize, sw: Switches)
    ensures
        ffn_of(l, li, sw) == Ok::<Ffn, StackError>(Ffn::Streamed) <==> l.sparse && sw.stream,
        ffn_of(l, li, sw) == Ok::<Ffn, StackError>(Ffn::Resident) <==> l.sparse && !sw.stream,
        ffn_of(l, li, sw) == Ok::<Ffn, StackError>(Ffn::Dense) <==> !l.sparse && l.dense,
        ffn_of(l, li, sw) is Err <==> !l.sparse && !l.dense,
        ffn_of(l, li, sw) is Err ==> ffn_of(l, li, sw)->Err_0 == StackError::DenseMissing(li),
{
}

fn choose_mixer(l: &LayerShape, sw: &Switches) -> (m: Mixer)
    ensures
        m == mixer_of(*l, *sw),
{
    match l.attn {
        Attn::Gqa => Mixer::Gqa,
        Attn::Gdn => Mixer::Gdn,
        Attn::Mla => if sw.dsa && l.indexed {
            Mixer::MlaIndexed
        } else if sw.absorb {
            Mixer::MlaAbsorb
        } else {
            Mixer::MlaDense
        },
    }
}

fn choose_ffn(l: &LayerShape, li: usize, sw: &Switches) -> (f: Result<Ffn, StackError>)
    ensures
        f == ffn_of(*l, li, *sw),
{
    if l.sparse {
        if sw.stream {
            Ok(Ffn::Streamed)
        } else {
            Ok(Ffn::Resident)
        }
    } else if l.dense {
        Ok(Ffn::Dense)
    } else {
        Err(StackError::DenseMissing(li))
    }
}

/// What forwarding layer `li` over one sequence does. A recurrent layer without
/// a state is refused before anything runs.
pub fn forward_layer(l: &LayerShape, li: usize, has_state: bool, sw: &Switches) -> (r: Result<
    LayerWork,
    StackError,
>)
    ensures
        r is Err <==> mixer_of(*l, *sw) == Mixer::Gdn && !has_state,
        r is Err <==> l.attn == Attn::Gdn && !has_state,
        r is Err ==> r->Err_0 == StackError::NoState(li),
        r is Ok ==> ((r->Ok_0).mixer == Mixer::Gqa <==> l.attn == Attn::Gqa),
        r is Ok ==> ((r->Ok_0).mixer == Mixer::Gdn <==> l.attn == Attn::Gdn),
        r is Ok ==> (r->Ok_0).mixer == mixer_of(*l, *sw) && (r->Ok_0).capture == (l.sparse && sw.calib)
            && (r->Ok_0).ffn == ffn_of(*l, li, *sw),
{
    let mixer = choose_mixer(l, sw);
    if mixer == Mixer::Gdn && !has_state {
        return Err(StackError::NoState(li));
    }
    Ok(LayerWork { mixer, capture: l.sparse && sw.calib, ffn: choose_ffn(l, li, sw) })
}

/// Sequence `o` carries a recurrent state.
pub open spec fn carried(states: Seq<bool>, o: usize) -> bool {
    o < states.len() && states[o as int]
}

/// The first row from `i` on whose sequence carries no recurrent state.
pub open spec fn first_stateless(owner: Seq<usize>, states: Seq<bool>, i: int) -> int
    decreases owner.len() - i,
{
    if i >= owner.len() || !carried(states, owner[i]) {
        i
    } else {
        first_stateless(owner, states, i + 1)
    }
}

/// The rows before it all carry a state, and it does not: a fault names the first
/// row that has one, and no row is refused for another's.
pub proof fn lemma_first_stateless(owner: Seq<usize>, states: Seq<bool>, i: int)
    requires
        0 <= i <= owner.len(),
    ensures
        ({
            let k = first_stateless(owner, states, i);
            &&& i <= k <= owner.len()
            &&& forall|r: int|
                i <= r < k ==> (#[trigger] owner[r]) < states.len() && states[owner[r] as int]
            &&& k < owner.len() ==> !(owner[k] < states.len() && states[owner[k] as int])
        }),
    decreases owner.len() - i,
{
    if !(i >= owner.len() || !carried(states, owner[i])) {
        lemma_first_stateless(owner, states, i + 1);
    }
}

/// One layer's work over rows of several sequences.
#[derive(Clone, Copy, Debug)]
pub struct RowsWork {
    /// How positions mix.
    pub mixer: Mixer,
    /// The rows run one by one, each over its own sequence; latent attention
    /// takes them together.
    pub by_row: bool,
    /// How many rows run before the fault, if there is one.
    pub rows: usize,
    /// What stops the attention, after that many rows.
    pub fault: Option<StackError>,
    /// The router's input is recorded first.
    pub capture: bool,
    /// How the layer feeds forward.
    pub ffn: Result<Ffn, StackError>,
}

/// What forwarding layer `li` over rows of several sequences does: the same
/// paths as over one, every row against its own sequence, in row order.
pub fn forward_layer_batched(
    l: &LayerShape,
    li: usize,
    owner: &[usize],
    states: &Vec<bool>,
    sw: &Switches,
) -> (w: RowsWork)
    ensures
        w.mixer == mixer_of(*l, *sw),
        w.mixer == Mixer::Gqa <==> l.attn == Attn::Gqa,
        w.mixer == Mixer::Gdn <==> l.attn == Attn::Gdn,
        w.by_row == (l.attn == Attn::Gqa || l.attn == Attn::Gdn),
        w.rows == if l.attn == Attn::Gdn {
            first_stateless(owner@, states@, 0)
        } else {
            owner@.len() as int
        },
        w.fault == if w.rows < owner@.len() {
            Some(
                StackError::NoRowState { layer: li, row: w.rows, owner: owner@[w.rows as int] },
            )
        } else {
            None
        },
        w.capture == (l.sparse && sw.calib),
        w.ffn == ffn_of(*l, li, *sw),
        w.rows <= owner@.len(),
        w.rows < owner@.len() ==> !carried(states@, owner@[w.rows as int]),
        l.attn != Attn::Gdn ==> w.fault is None,
        forall|s: int| 0 <= s < w.rows && l.attn == Attn::Gdn ==> carried(states@, #[trigger] owner@[s]),
{
    let mixer = choose_mixer(l, sw);
    let mut rows: usize = 0;
    let recurrent = mixer == Mixer::Gdn;
    assert(recurrent == (l.attn == Attn::Gdn));
    let mut fault: Option<StackError> = None;
    while rows < owner.len() && fault.is_none()
        invariant
            rows <= owner@.len(),
            recurrent ==> first_stateless(owner@, states@, 0) == first_stateless(
                owner@,
                states@,
                rows as int,
            ),
            recurrent ==> forall|s: int| 0 <= s < rows ==> carried(states@, #[trigger] owner@[s]),
            fault is Some ==> recurrent && rows < owner@.len() && !carried(
                states@,
                owner@[rows as int],
            ) && fault == Some(
                StackError::NoRowState { layer: li, row: rows, owner: owner@[rows as int] },
            ),
        decreases owner@.len() - rows, (if fault is None {
            1int
        } else {
            0
        }),
    {
        let o: usize = owner[rows];
        if recurrent && !(o < states.len() && states[o]) {
            fault = Some(StackError::NoRowState { layer: li, row: rows, owner: o });
        } else {
            rows = rows + 1;
        }
    }
    RowsWork {
        mixer,
        by_row: mixer == Mixer::Gqa || mixer == Mixer::Gdn,
        rows,
        fault,
        capture: l.sparse && sw.calib,
        ffn: choose_ffn(l, li, sw),
    }
}

/// Where a dense block's output comes from. A device that fails mid-run falls
/// back to the host and is noted, never a lost request.
#[derive(Clone, Copy, Debug, PartialEq, Eq, Structural)]
pub enum DenseFrom {
    /// The device computed it.
    Device,
    /// The host computes it: the layer is not on the device.
    Host,
    /// The host computes it: the device failed.
    HostAfterFault,
}

/// Chooses where a dense block's output comes from, given whether the layer is
/// on a device and that device answered.
pub fn dense_from(device: Option<bool>) -> (d: DenseFrom)
    ensures
        device is None ==> d == DenseFrom::Host,
        device == Some(true) ==> d == DenseFrom::Device,
        device == Some(false) ==> d == DenseFrom::HostAfterFault,
{
    match device {
        None => DenseFrom::Host,
        Some(answered) => if answered {
            DenseFrom::Device
        } else {
            DenseFrom::HostAfterFault
        },
    }
}

/// One thing a forward does.
#[derive(Clone, Copy, Debug, PartialEq, Eq, Structural)]
pub enum Act {
    /// Mark that this forward logs what it routes into the model's own history,
    /// so the publication that closes it has a fresh frame to fold.
    LogRouting,
    /// Advance the sweep clock by one layer.
    Tick,
    /// Run a layer.
    Layer(usize),
    /// Warm what the history predicts a layer routes for the next token.
    WarmPredicted(usize),
    /// Ask a layer's router ahead of time, and stream at most `width` of its
    /// experts.
    AskRouter {
        /// The layer asked.
        layer: usize,
        /// The reads it may start.
        width: usize,
    },
    /// Score a layer's predictions, and predict the next.
    Score(usize),
    /// Warm what the history predicts for every layer.
    WarmAll,
    /// Fold the routing into the active topic.
    FoldTopic,
    /// Protect the predicted experts from eviction.
    Protect,
    /// Show the tuner the cache's prefetch counters.
    ShowCounters,
    /// Let the miss counter move the tuner.
    MissFeedback,
    /// Let the routing entropy move the tuner.
    EntropyFeedback,
    /// Move the tuner towards the learned distance.
    LearnedFeedback,
    /// Publish the lane timings.
    Publish,
}

/// What decides what a forward over one sequence does around its layers.
#[derive(Clone, Copy, Debug)]
pub struct ForwardGates {
    /// Positions forwarded.
    pub rows: usize,
    /// Predicted experts are warmed layer by layer.
    pub lookahead: bool,
    /// There is a prefetch lane.
    pub lane: bool,
    /// Routing history is kept.
    pub history: bool,
    /// There is an expert cache.
    pub cache: bool,
    /// Routers are asked ahead of time.
    pub router_lookahead: bool,
    /// How many experts such a question may stream.
    pub router_width: usize,
    /// Predictors are scored.
    pub scoreboard: bool,
    /// Predicted experts are protected.
    pub protect: bool,
    /// There is a distance tuner.
    pub tuner: bool,
    /// The miss counter steers it.
    pub miss_feedback: bool,
    /// The routing entropy steers it.
    pub entropy: bool,
    /// The distance a learner wants, zero for none.
    pub learned: usize,
}

/// The history predictor warms layer by layer.
pub open spec fn warms_by_layer(g: ForwardGates) -> bool {
    g.lookahead && g.lane && g.history && g.cache
}

/// How many experts a router asked ahead may stream. A prefill chunk asks none:
/// it leaves no idle window to read in.
pub open spec fn ahead_width(g: ForwardGates) -> int {
    if g.router_lookahead && g.rows == 1 && g.lane && g.cache {
        g.router_width as int
    } else {
        0
    }
}

/// Predictions are scored: decoding only, where a routed set is one token's.
pub open spec fn scores(g: ForwardGates) -> bool {
    g.scoreboard && g.history && g.rows == 1
}

/// `Act`s that happen when `b` holds.
pub open spec fn when(b: bool, a: Act) -> Seq<Act> {
    if b {
        seq![a]
    } else {
        seq![]
    }
}

/// What a forward does at layer `li`: its own reads are consumed before the next
/// layer's start, and what it routed is scored before the next prediction.
pub open spec fn layer_acts(g: ForwardGates, li: int) -> Seq<Act> {
    seq![Act::Tick, Act::Layer(li as usize)] + when(
        warms_by_layer(g),
        Act::WarmPredicted(li as usize),
    ) + when(
        ahead_width(g) > 0,
        Act::AskRouter { layer: (li + 1) as usize, width: ahead_width(g) as usize },
    ) + when(scores(g), Act::Score(li as usize))
}

/// What a forward does over its first `n` layers.
pub open spec fn stack_acts(g: ForwardGates, n: nat) -> Seq<Act>
    decreases n,
{
    if n == 0 {
        seq![]
    } else {
        stack_acts(g, (n - 1) as nat) + layer_acts(g, n - 1)
    }
}

/// What a forward does once its layers have run.
pub open spec fn closing_acts(g: ForwardGates) -> Seq<Act> {
    when(!g.lookahead, Act::WarmAll) + seq![Act::FoldTopic] + when(g.protect, Act::Protect) + when(
        g.tuner && g.cache,
        Act::ShowCounters,
    ) + when(g.miss_feedback, Act::MissFeedback) + when(g.entropy && g.tuner, Act::EntropyFeedback)
        + when(g.learned > 0 && g.tuner, Act::LearnedFeedback) + seq![Act::Publish]
}

/// What a forward over one sequence does, in order.
pub open spec fn forward_acts(g: ForwardGates, n: nat) -> Seq<Act> {
    seq![Act::LogRouting] + stack_acts(g, n) + closing_acts(g)
}

fn push_when(acts: &mut Vec<Act>, b: bool, a: Act)
    ensures
        final(acts)@ == old(acts)@ + when(b, a),
{
    if b {
        acts.push(a);
        assert(acts@ =~= old(acts)@ + when(b, a));
    } else {
        assert(acts@ =~= old(acts)@ + when(b, a));
    }
}

fn close_forward(g: &ForwardGates) -> (acts: Vec<Act>)
    ensures
        acts@ == closing_acts(*g),
{
    let mut acts: Vec<Act> = Vec::new();
    push_when(&mut acts, !g.lookahead, Act::WarmAll);
    assert(acts@ =~= when(!g.lookahead, Act::WarmAll));
    push_when(&mut acts, true, Act::FoldTopic);
    push_when(&mut acts, g.protect, Act::Protect);
    push_when(&mut acts, g.tuner && g.cache, Act::ShowCounters);
    push_when(&mut acts, g.miss_feedback, Act::MissFeedback);
    push_when(&mut acts, g.entropy && g.tuner, Act::EntropyFeedback);
    push_when(&mut acts, g.learned > 0 && g.tuner, Act::LearnedFeedback);
    push_when(&mut acts, true, Act::Publish);
    acts
}

/// What a forward over one sequence does, in order. A layer that fails ends it
/// there.
pub fn forward_hidden(g: &ForwardGates, n_layers: usize) -> (acts: Vec<Act>)
    requires
        n_layers < usize::MAX,
    ensures
        acts@ == forward_acts(*g, n_layers as nat),
{
    let warms = g.lookahead && g.lane && g.history && g.cache;
    let width: usize = if g.router_lookahead && g.rows == 1 && g.lane && g.cache {
        g.router_width
    } else {
        0
    };
    let score = g.scoreboard && g.history && g.rows == 1;
    let mut acts: Vec<Act> = Vec::new();
    acts.push(Act::LogRouting);
    let mut li: usize = 0;
    assert(acts@ =~= seq![Act::LogRouting] + stack_acts(*g, 0));
    while li < n_layers
        invariant
            li <= n_layers < usize::MAX,
            acts@ == seq![Act::LogRouting] + stack_acts(*g, li as nat),
            warms == warms_by_layer(*g),
            width == ahead_width(*g),
            score == scores(*g),
        decreases n_layers - li,
    {
        let ghost before = acts@;
        acts.push(Act::Tick);
        acts.push(Act::Layer(li));
        assert(acts@ =~= before + seq![Act::Tick, Act::Layer(li)]);
        push_when(&mut acts, warms, Act::WarmPredicted(li));
        push_when(&mut acts, width > 0, Act::AskRouter { layer: li + 1, width });
        push_when(&mut acts, score, Act::Score(li));
        assert(acts@ =~= before + layer_acts(*g, li as int));
        assert(acts@ =~= seq![Act::LogRouting] + stack_acts(*g, (li + 1) as nat));
        li = li + 1;
    }
    let mut closing = close_forward(g);
    acts.append(&mut closing);
    acts
}

/// What a batched forward does at layer `li`.
pub open spec fn batched_layer_acts(width: int, li: int) -> Seq<Act> {
    seq![Act::Tick, Act::Layer(li as usize)] + when(
        width > 0,
        Act::AskRouter { layer: (li + 1) as usize, width: width as usize },
    )
}

/// What a batched forward does over its first `n` layers.
pub open spec fn batched_stack_acts(width: int, n: nat) -> Seq<Act>
    decreases n,
{
    if n == 0 {
        seq![]
    } else {
        batched_stack_acts(width, (n - 1) as nat) + batched_layer_acts(width, n - 1)
    }
}

/// What a forward over rows of several sequences does, in order: `width` is the
/// reads a router asked ahead may start, and needs a lane and a cache.
pub fn forward_rows(width: usize, lane: bool, cache: bool, n_layers: usize) -> (acts: Vec<Act>)
    requires
        n_layers < usize::MAX,
    ensures
        acts@ == batched_stack_acts(
            if lane && cache {
                width as int
            } else {
                0
            },
            n_layers as nat,
        ) + seq![Act::Publish],
{
    let width: usize = if lane && cache {
        width
    } else {
        0
    };
    let mut acts: Vec<Act> = Vec::new();
    let mut li: usize = 0;
    while li < n_layers
        invariant
            li <= n_layers < usize::MAX,
            acts@ == batched_stack_acts(width as int, li as nat),
        decreases n_layers - li,
    {
        let ghost before = acts@;
        acts.push(Act::Tick);
        acts.push(Act::Layer(li));
        assert(acts@ =~= before + seq![Act::Tick, Act::Layer(li)]);
        push_when(&mut acts, width > 0, Act::AskRouter { layer: li + 1, width });
        assert(acts@ =~= before + batched_layer_acts(width as int, li as int));
        li = li + 1;
    }
    let ghost before = acts@;
    acts.push(Act::Publish);
    assert(acts@ =~= before + seq![Act::Publish]);
    acts
}

/// What prefilling a sequence of its own does, in order: the clock advances with
/// every layer, since its reads churn the cache like any other's, and nothing is
/// speculated or published.
pub fn forward_prefill_seq(n_layers: usize) -> (acts: Vec<Act>)
    ensures
        acts@ == batched_stack_acts(0, n_layers as nat),
{
    let mut acts: Vec<Act> = Vec::new();
    let mut li: usize = 0;
    while li < n_layers
        invariant
            li <= n_layers,
            acts@ == batched_stack_acts(0, li as nat),
        decreases n_layers - li,
    {
        let ghost before = acts@;
        acts.push(Act::Tick);
        acts.push(Act::Layer(li));
        assert(acts@ =~= before + batched_layer_acts(0, li as int));
        li = li + 1;
    }
    acts
}

/// The layers a refining pass replays: the last `asked`, or all there are, in
/// order. It runs over throwaway copies of their caches and logs nothing.
pub fn replayed_layers(n_layers: usize, asked: usize) -> (out: Vec<usize>)
    ensures
        out@ == Seq::new(
            (if asked < n_layers {
                asked
            } else {
                n_layers
            }) as nat,
            |i: int| (n_layers - (if asked < n_layers {
                asked
            } else {
                n_layers
            }) + i) as usize,
        ),
{
    let k: usize = if asked < n_layers {
        asked
    } else {
        n_layers
    };
    let start: usize = n_layers - k;
    let mut out: Vec<usize> = Vec::new();
    let mut li: usize = start;
    while li < n_layers
        invariant
            start <= li <= n_layers,
            start == n_layers - k,
            out@ == Seq::new((li - start) as nat, |i: int| (start + i) as usize),
        decreases n_layers - li,
    {
        out.push(li);
        li = li + 1;
        assert(out@ =~= Seq::new((li - start) as nat, |i: int| (start + i) as usize));
    }
    out
}

/// A token being refined: how many passes were made over it.
pub struct Refinement {
    /// Passes made.
    pub depth: usize,
}

/// What refining a token does next.
#[derive(Clone, Copy, Debug, PartialEq, Eq, Structural)]
pub enum RefineStep {
    /// Replay the last layers; the token's first pass is also counted as a token.
    Replay {
        /// This is its first pass.
        first: bool,
    },
    /// Stop.
    Stop {
        /// Some pass was made.
        refined: bool,
    },
}

impl Refinement {
    /// A token no pass was made over.
    pub fn new() -> (r: Refinement)
        ensures
            r.depth == 0,
    {
        Refinement { depth: 0 }
    }

    /// Decides whether another pass is made: refinement is on, the depth allows
    /// it, and the logits are still uncertain. With refinement off nothing is
    /// ever replayed.
    pub fn step(&mut self, enabled: bool, max_depth: usize, uncertain: bool) -> (s: RefineStep)
        ensures
            enabled && old(self).depth < max_depth && uncertain ==> final(self).depth
                == old(self).depth + 1 && s == (RefineStep::Replay { first: old(self).depth == 0 }),
            !(enabled && old(self).depth < max_depth && uncertain) ==> final(self).depth
                == old(self).depth && s == (RefineStep::Stop { refined: old(self).depth > 0 }),
    {
        if enabled && self.depth < max_depth && uncertain {
            self.depth = self.depth + 1;
            RefineStep::Replay { first: self.depth == 1 }
        } else {
            RefineStep::Stop { refined: self.depth > 0 }
        }
    }
}

/// How to move a prefetch distance.
#[derive(Clone, Copy, Debug, PartialEq, Eq, Structural)]
pub enum Nudge {
    /// One further.
    Up,
    /// One nearer.
    Down,
    /// Not at all.
    Hold,
}

/// Moves a distance one step towards the learned one, so the change stays
/// smooth; a learned distance of zero is none.
pub fn nudge_towards(distance: usize, target: usize) -> (n: Nudge)
    ensures
        n == if target == 0 || distance == target {
            Nudge::Hold
        } else if distance < target {
            Nudge::Up
        } else {
            Nudge::Down
        },
{
    if target == 0 || distance == target {
        Nudge::Hold
    } else if distance < target {
        Nudge::Up
    } else {
        Nudge::Down
    }
}

/// The misses since the last reading, and the new baseline. A counter that was
/// reset from outside reads as no misses, never as a colossal spike.
pub fn llc_delta(now: Option<u64>, last: u64) -> (r: (Option<u64>, u64))
    ensures
        now is None ==> r == (None::<u64>, last),
        now is Some ==> r.1 == now->0 && r.0 == Some(
            if now->0 >= last {
                (now->0 - last) as u64
            } else {
                0u64
            },
        ),
{
    match now {
        None => (None, last),
        Some(n) => (Some(n.saturating_sub(last)), n),
    }
}

/// The layers an act runs.
pub open spec fn layers_run(acts: Seq<Act>) -> Seq<usize>
    decreases acts.len(),
{
    if acts.len() == 0 {
        seq![]
    } else {
        let head = layers_run(acts.drop_last());
        match acts.last() {
            Act::Layer(li) => head.push(li),
            _ => head,
        }
    }
}

proof fn lemma_layers_run_concat(a: Seq<Act>, b: Seq<Act>)
    ensures
        layers_run(a + b) == layers_run(a) + layers_run(b),
    decreases b.len(),
{
    if b.len() == 0 {
        assert(a + b =~= a);
        assert(layers_run(a) + layers_run(b) =~= layers_run(a));
    } else {
        assert((a + b).drop_last() =~= a + b.drop_last());
        assert((a + b).last() == b.last());
        lemma_layers_run_concat(a, b.drop_last());
        assert(layers_run(a + b) =~= layers_run(a) + layers_run(b));
    }
}

proof fn lemma_runs_no_layer(b: bool, a: Act)
    requires
        !(a is Layer),
    ensures
        layers_run(when(b, a)) == Seq::<usize>::empty(),
{
    reveal_with_fuel(layers_run, 2);
    if b {
        assert(seq![a].drop_last() =~= Seq::<Act>::empty());
        assert(seq![a].last() == a);
    }
}

proof fn lemma_layer_acts_run_one(g: ForwardGates, li: int)
    ensures
        layers_run(layer_acts(g, li)) == seq![li as usize],
{
    let a = seq![Act::Tick, Act::Layer(li as usize)];
    let b = when(warms_by_layer(g), Act::WarmPredicted(li as usize));
    let c = when(
        ahead_width(g) > 0,
        Act::AskRouter { layer: (li + 1) as usize, width: ahead_width(g) as usize },
    );
    let d = when(scores(g), Act::Score(li as usize));
    assert(a.drop_last() =~= seq![Act::Tick]);
    assert(a.drop_last().drop_last() =~= Seq::<Act>::empty());
    reveal_with_fuel(layers_run, 3);
    assert(layers_run(a) =~= seq![li as usize]);
    lemma_runs_no_layer(warms_by_layer(g), Act::WarmPredicted(li as usize));
    lemma_runs_no_layer(
        ahead_width(g) > 0,
        Act::AskRouter { layer: (li + 1) as usize, width: ahead_width(g) as usize },
    );
    lemma_runs_no_layer(scores(g), Act::Score(li as usize));
    lemma_layers_run_concat(a, b);
    lemma_layers_run_concat(a + b, c);
    lemma_layers_run_concat(a + b + c, d);
    assert(layers_run(layer_acts(g, li)) =~= seq![li as usize]);
}

proof fn lemma_stack_runs_layers(g: ForwardGates, n: nat)
    ensures
        layers_run(stack_acts(g, n)) == Seq::new(n, |i: int| i as usize),
    decreases n,
{
    if n > 0 {
        lemma_stack_runs_layers(g, (n - 1) as nat);
        lemma_layer_acts_run_one(g, n - 1);
        lemma_layers_run_concat(stack_acts(g, (n - 1) as nat), layer_acts(g, n - 1));
    }
    assert(layers_run(stack_acts(g, n)) =~= Seq::new(n, |i: int| i as usize));
}

proof fn lemma_closing_runs_none(g: ForwardGates)
    ensures
        layers_run(closing_acts(g)) == Seq::<usize>::empty(),
{
    let a = when(!g.lookahead, Act::WarmAll);
    let b = seq![Act::FoldTopic];
    let c = when(g.protect, Act::Protect);
    let d = when(g.tuner && g.cache, Act::ShowCounters);
    let e = when(g.miss_feedback, Act::MissFeedback);
    let f = when(g.entropy && g.tuner, Act::EntropyFeedback);
    let h = when(g.learned > 0 && g.tuner, Act::LearnedFeedback);
    let i = seq![Act::Publish];
    lemma_runs_no_layer(!g.lookahead, Act::WarmAll);
    lemma_runs_no_layer(true, Act::FoldTopic);
    lemma_runs_no_layer(g.protect, Act::Protect);
    lemma_runs_no_layer(g.tuner && g.cache, Act::ShowCounters);
    lemma_runs_no_layer(g.miss_feedback, Act::MissFeedback);
    lemma_runs_no_layer(g.entropy && g.tuner, Act::EntropyFeedback);
    lemma_runs_no_layer(g.learned > 0 && g.tuner, Act::LearnedFeedback);
    lemma_runs_no_layer(true, Act::Publish);
    lemma_layers_run_concat(a, b);
    lemma_layers_run_concat(a + b, c);
    lemma_layers_run_concat(a + b + c, d);
    lemma_layers_run_concat(a + b + c + d, e);
    lemma_layers_run_concat(a + b + c + d + e, f);
    lemma_layers_run_concat(a + b + c + d + e + f, h);
    lemma_layers_run_concat(a + b + c + d + e + f + h, i);
}

/// Every layer runs once, in order, whatever the gates: prefetch, scoring and
/// feedback only ever stand between layers.
pub proof fn lemma_every_layer_runs_once(g: ForwardGates, n: nat)
    ensures
        layers_run(forward_acts(g, n)) == Seq::new(n, |i: int| i as usize),
{
    let mark = seq![Act::LogRouting];
    lemma_runs_no_layer(true, Act::LogRouting);
    lemma_stack_runs_layers(g, n);
    lemma_closing_runs_none(g);
    lemma_layers_run_concat(mark, stack_acts(g, n));
    lemma_layers_run_concat(mark + stack_acts(g, n), closing_acts(g));
    assert(layers_run(forward_acts(g, n)) =~= Seq::new(n, |i: int| i as usize));
}

/// A batched forward, act by act. Every layer takes the same acts: the clock
/// advances, the layer runs, and where a router may start reads the next layer's
/// is asked with that many. Nothing else happens.
pub proof fn lemma_batched_by_position(width: int, n: nat, i: int)
    requires
        0 <= i < n,
    ensures
        ({
            let acts = batched_stack_acts(width, n);
            if width > 0 {
                &&& acts.len() == 3 * n
                &&& acts[3 * i] == Act::Tick
                &&& acts[3 * i + 1] == Act::Layer(i as usize)
                &&& acts[3 * i + 2] == (Act::AskRouter {
                    layer: (i + 1) as usize,
                    width: width as usize,
                })
            } else {
                &&& acts.len() == 2 * n
                &&& acts[2 * i] == Act::Tick
                &&& acts[2 * i + 1] == Act::Layer(i as usize)
            }
        }),
    decreases n,
{
    let m = (n - 1) as nat;
    let head = batched_stack_acts(width, m);
    if m > 0 {
        lemma_batched_by_position(width, m, if i < m { i } else { 0 });
    }
    assert(batched_stack_acts(width, 0).len() == 0);
    assert(batched_stack_acts(width, n) =~= head + batched_layer_acts(width, n - 1));
}

/// Every layer of a batched forward, and of a prefill, runs once and in order,
/// however many reads the routers may start.
pub proof fn lemma_batched_runs_every_layer_once(width: int, n: nat)
    ensures
        layers_run(batched_stack_acts(width, n)) == Seq::new(n, |i: int| i as usize),
        layers_run(batched_stack_acts(width, n) + seq![Act::Publish]) == Seq::new(
            n,
            |i: int| i as usize,
        ),
    decreases n,
{
    if n > 0 {
        let m = (n - 1) as nat;
        lemma_batched_runs_every_layer_once(width, m);
        let ask = Act::AskRouter { layer: (m + 1) as usize, width: width as usize };
        let a = seq![Act::Tick, Act::Layer(m as usize)];
        assert(a.drop_last() =~= seq![Act::Tick]);
        assert(a.drop_last().drop_last() =~= Seq::<Act>::empty());
        assert(layers_run(a) =~= seq![m as usize]) by {
            reveal_with_fuel(layers_run, 3);
        }
        lemma_runs_no_layer(width > 0, ask);
        lemma_layers_run_concat(a, when(width > 0, ask));
        lemma_layers_run_concat(batched_stack_acts(width, m), batched_layer_acts(width, m as int));
    }
    assert(layers_run(batched_stack_acts(width, n)) =~= Seq::new(n, |i: int| i as usize));
    lemma_runs_no_layer(true, Act::Publish);
    lemma_layers_run_concat(batched_stack_acts(width, n), seq![Act::Publish]);
    assert(layers_run(batched_stack_acts(width, n) + seq![Act::Publish]) =~= Seq::new(
        n,
        |i: int| i as usize,
    ));
}

/// A batched forward runs the layers that a forward over one sequence runs.
pub proof fn lemma_batched_runs_what_one_sequence_runs(g: ForwardGates, width: int, n: nat)
    ensures
        layers_run(batched_stack_acts(width, n)) == layers_run(forward_acts(g, n)),
{
    lemma_batched_runs_every_layer_once(width, n);
    lemma_every_layer_runs_once(g, n);
}

/// One for a condition that holds.
pub open spec fn one_if(b: bool) -> int {
    if b {
        1
    } else {
        0
    }
}

proof fn lemma_stack_by_position(g: ForwardGates, n: nat, i: int)
    requires
        0 <= i < n,
    ensures
        ({
            let w = one_if(g.lookahead && g.lane && g.history && g.cache);
            let a = one_if(
                g.router_lookahead && g.rows == 1 && g.lane && g.cache && g.router_width > 0,
            );
            let s = one_if(g.scoreboard && g.history && g.rows == 1);
            let size = 2 + w + a + s;
            let at = size * i;
            let acts = stack_acts(g, n);
            &&& acts.len() == size * n
            &&& 0 <= at
            &&& at + size <= acts.len()
            &&& acts[at] == Act::Tick
            &&& acts[at + 1] == Act::Layer(i as usize)
            &&& w == 1 ==> acts[at + 2] == Act::WarmPredicted(i as usize)
            &&& a == 1 ==> acts[at + 2 + w] == (Act::AskRouter {
                layer: (i + 1) as usize,
                width: g.router_width,
            })
            &&& s == 1 ==> acts[at + 2 + w + a] == Act::Score(i as usize)
        }),
    decreases n,
{
    let w = one_if(g.lookahead && g.lane && g.history && g.cache);
    let a = one_if(g.router_lookahead && g.rows == 1 && g.lane && g.cache && g.router_width > 0);
    let s = one_if(g.scoreboard && g.history && g.rows == 1);
    let size = 2 + w + a + s;
    let m = (n - 1) as nat;
    let head = stack_acts(g, m);
    assert(stack_acts(g, 0).len() == 0);
    if m > 0 {
        lemma_stack_by_position(g, m, if i < m { i } else { 0 });
    }
    assert(size * 0 == 0);
    assert(size * n == size * m + size) by (nonlinear_arith)
        requires
            n == m + 1,
    ;
    assert(size * i + size <= size * n && 0 <= size * i) by (nonlinear_arith)
        requires
            0 <= i < n,
            size >= 0,
    ;
    let block = layer_acts(g, n - 1);
    assert(block.len() == size);
    assert(stack_acts(g, n) =~= head + block);
    if i < m {
        assert(size * i + size <= size * m) by (nonlinear_arith)
            requires
                i < m,
                size >= 0,
        ;
    } else {
        let at = size * i;
        assert(block[0] == Act::Tick);
        assert(block[1] == Act::Layer(i as usize));
        if w == 1 {
            assert(block[2] == Act::WarmPredicted(i as usize));
        }
        if a == 1 {
            assert(block[2 + w] == (Act::AskRouter {
                layer: (i + 1) as usize,
                width: g.router_width,
            }));
        }
        if s == 1 {
            assert(block[2 + w + a] == Act::Score(i as usize));
        }
    }
}

/// The acts of a forward over one sequence before layer `i` runs.
pub open spec fn before_layer(g: ForwardGates, i: int) -> int {
    1 + (2 + (if g.lookahead && g.lane && g.history && g.cache {
        1int
    } else {
        0
    }) + (if g.router_lookahead && g.rows == 1 && g.lane && g.cache && g.router_width > 0 {
        1int
    } else {
        0
    }) + (if g.scoreboard && g.history && g.rows == 1 {
        1int
    } else {
        0
    })) * i
}

/// A forward over one sequence, act by act. At every layer the clock advances and
/// the layer runs. Then its predictions are warmed where layers are looked ahead
/// and there is a lane, a history and a cache; the next layer's router is asked
/// where routers are, decoding one position, with a lane and a cache; and the
/// layer is scored where predictors are, decoding one position, with a history.
/// Nothing else happens between two layers.
pub proof fn lemma_forward_by_position(g: ForwardGates, n: nat, i: int)
    requires
        0 <= i < n,
    ensures
        ({
            let warms = g.lookahead && g.lane && g.history && g.cache;
            let asks = g.router_lookahead && g.rows == 1 && g.lane && g.cache && g.router_width > 0;
            let acts = forward_acts(g, n);
            let at = before_layer(g, i);
            let end = before_layer(g, i + 1);
            &&& acts[0] == Act::LogRouting
            &&& 0 < at < end < acts.len()
            &&& acts[at] == Act::Tick
            &&& acts[at + 1] == Act::Layer(i as usize)
            &&& warms ==> acts[at + 2] == Act::WarmPredicted(i as usize)
            &&& asks ==> acts[at + 2 + (if warms {
                1int
            } else {
                0
            })] == (Act::AskRouter { layer: (i + 1) as usize, width: g.router_width })
            &&& g.scoreboard && g.history && g.rows == 1 ==> acts[end - 1] == Act::Score(i as usize)
            &&& end - at == 2 + (if warms {
                1int
            } else {
                0
            }) + (if asks {
                1int
            } else {
                0
            }) + (if g.scoreboard && g.history && g.rows == 1 {
                1int
            } else {
                0
            })
        }),
{
    lemma_stack_by_position(g, n, i);
    let size = 2 + one_if(g.lookahead && g.lane && g.history && g.cache) + one_if(
        g.router_lookahead && g.rows == 1 && g.lane && g.cache && g.router_width > 0,
    ) + one_if(g.scoreboard && g.history && g.rows == 1);
    assert(size * (i + 1) == size * i + size) by (nonlinear_arith);
    assert(before_layer(g, i) == 1 + size * i);
    assert(before_layer(g, i + 1) == 1 + size * (i + 1));
    let stack = stack_acts(g, n);
    let at = size * i;
    let acts = forward_acts(g, n);
    assert(closing_acts(g).len() > 0);
    assert forall|k: int| 0 <= k < stack.len() implies acts[k + 1] == #[trigger] stack[k] by {}
    assert(acts[at + 1] == stack[at]);
    assert(acts[at + 2] == stack[at + 1]);
}

/// Act `a` stands at `at` where `b` holds, and takes no place where it does not.
spec fn stands(acts: Seq<Act>, at: int, b: bool, a: Act) -> bool {
    b ==> 0 <= at < acts.len() && acts[at] == a
}

proof fn lemma_next_stands(acts: Seq<Act>, b: bool, a: Act)
    ensures
        (acts + when(b, a)).len() == acts.len() + one_if(b),
        stands(acts + when(b, a), acts.len() as int, b, a),
        forall|at: int, c: bool, x: Act| #[trigger]
            stands(acts, at, c, x) ==> stands(acts + when(b, a), at, c, x),
{
}

spec fn closes(c: Seq<Act>, g: ForwardGates, warm: int) -> bool {
    let topic = warm + one_if(!g.lookahead);
    let protect = topic + 1;
    let show = protect + one_if(g.protect);
    let miss = show + one_if(g.tuner && g.cache);
    let entropy = miss + one_if(g.miss_feedback);
    let learned = entropy + one_if(g.entropy && g.tuner);
    let publish = learned + one_if(g.learned > 0 && g.tuner);
    &&& stands(c, warm, !g.lookahead, Act::WarmAll)
    &&& stands(c, topic, true, Act::FoldTopic)
    &&& stands(c, protect, g.protect, Act::Protect)
    &&& stands(c, show, g.tuner && g.cache, Act::ShowCounters)
    &&& stands(c, miss, g.miss_feedback, Act::MissFeedback)
    &&& stands(c, entropy, g.entropy && g.tuner, Act::EntropyFeedback)
    &&& stands(c, learned, g.learned > 0 && g.tuner, Act::LearnedFeedback)
    &&& stands(c, publish, true, Act::Publish)
    &&& c.len() == publish + 1
}

proof fn lemma_closes_after(head: Seq<Act>, c: Seq<Act>, g: ForwardGates)
    requires
        closes(c, g, 0),
    ensures
        closes(head + c, g, head.len() as int),
{
}

proof fn lemma_closing_by_position(g: ForwardGates)
    ensures
        closes(closing_acts(g), g, 0),
{
    let s0 = Seq::<Act>::empty();
    let s1 = when(!g.lookahead, Act::WarmAll);
    let s2 = s1 + when(true, Act::FoldTopic);
    let s3 = s2 + when(g.protect, Act::Protect);
    let s4 = s3 + when(g.tuner && g.cache, Act::ShowCounters);
    let s5 = s4 + when(g.miss_feedback, Act::MissFeedback);
    let s6 = s5 + when(g.entropy && g.tuner, Act::EntropyFeedback);
    let s7 = s6 + when(g.learned > 0 && g.tuner, Act::LearnedFeedback);
    let s8 = s7 + when(true, Act::Publish);
    lemma_next_stands(s0, !g.lookahead, Act::WarmAll);
    assert(s0 + s1 =~= s1);
    lemma_next_stands(s1, true, Act::FoldTopic);
    lemma_next_stands(s2, g.protect, Act::Protect);
    lemma_next_stands(s3, g.tuner && g.cache, Act::ShowCounters);
    lemma_next_stands(s4, g.miss_feedback, Act::MissFeedback);
    lemma_next_stands(s5, g.entropy && g.tuner, Act::EntropyFeedback);
    lemma_next_stands(s6, g.learned > 0 && g.tuner, Act::LearnedFeedback);
    lemma_next_stands(s7, true, Act::Publish);
    assert(s8 == closing_acts(g));
}

/// What follows the last layer of a forward over one sequence, act by act: bulk
/// warming where layers are not looked ahead, the topic's fold, protection where
/// it is on, the tuner's counters where there is a tuner and a cache, the three
/// kinds of feedback where they are asked for and there is a tuner to move, and
/// publishing as the very last act. Nothing else.
pub proof fn lemma_forward_closes(g: ForwardGates, n: nat)
    ensures
        ({
            let acts = forward_acts(g, n);
            let warm = before_layer(g, n as int);
            let topic = warm + one_if(!g.lookahead);
            let protect = topic + 1;
            let show = protect + one_if(g.protect);
            let miss = show + one_if(g.tuner && g.cache);
            let entropy = miss + one_if(g.miss_feedback);
            let learned = entropy + one_if(g.entropy && g.tuner);
            let publish = learned + one_if(g.learned > 0 && g.tuner);
            &&& !g.lookahead ==> acts[warm] == Act::WarmAll
            &&& acts[topic] == Act::FoldTopic
            &&& g.protect ==> acts[protect] == Act::Protect
            &&& g.tuner && g.cache ==> acts[show] == Act::ShowCounters
            &&& g.miss_feedback ==> acts[miss] == Act::MissFeedback
            &&& g.entropy && g.tuner ==> acts[entropy] == Act::EntropyFeedback
            &&& g.learned > 0 && g.tuner ==> acts[learned] == Act::LearnedFeedback
            &&& acts[publish] == Act::Publish
            &&& acts.len() == publish + 1
        }),
{
    let size = 2 + one_if(g.lookahead && g.lane && g.history && g.cache) + one_if(
        g.router_lookahead && g.rows == 1 && g.lane && g.cache && g.router_width > 0,
    ) + one_if(g.scoreboard && g.history && g.rows == 1);
    let stack = stack_acts(g, n);
    if n > 0 {
        lemma_stack_by_position(g, n, 0);
    } else {
        assert(size * 0 == 0);
    }
    let warm = before_layer(g, n as int);
    assert(warm == 1 + size * n);
    assert(stack.len() == warm - 1);
    lemma_closing_by_position(g);
    assert(forward_acts(g, n) == seq![Act::LogRouting] + stack + closing_acts(g));
    lemma_closes_after(seq![Act::LogRouting] + stack, closing_acts(g), g);
}

proof fn lemma_batched_never_logs(width: int, n: nat, k: int)
    requires
        0 <= k < batched_stack_acts(width, n).len(),
    ensures
        batched_stack_acts(width, n)[k] != Act::LogRouting,
    decreases n,
{
    if n > 0 {
        let head = batched_stack_acts(width, (n - 1) as nat);
        if k < head.len() {
            lemma_batched_never_logs(width, (n - 1) as nat, k);
        }
    }
}

/// Only a forward over the model's own sequence logs into its history, and it
/// marks that before it publishes: no other forward ever has a fresh frame to
/// fold, so none folds a frozen one again.
pub proof fn lemma_only_own_forwards_log_routing(g: ForwardGates, n: nat, width: int, m: nat, k: int)
    ensures
        forward_acts(g, n)[0] == Act::LogRouting,
        forward_acts(g, n).last() == Act::Publish,
        0 <= k < (batched_stack_acts(width, m) + seq![Act::Publish]).len() ==> (
        batched_stack_acts(width, m) + seq![Act::Publish])[k] != Act::LogRouting,
        0 <= k < batched_stack_acts(0, m).len() ==> batched_stack_acts(0, m)[k] != Act::LogRouting,
{
    assert(closing_acts(g).last() == Act::Publish);
    assert(forward_acts(g, n).last() == closing_acts(g).last());
    if 0 <= k < batched_stack_acts(width, m).len() {
        lemma_batched_never_logs(width, m, k);
    }
    if 0 <= k < batched_stack_acts(0, m).len() {
        lemma_batched_never_logs(0, m, k);
    }
}

proof fn lemma_stack_never_bulk(g: ForwardGates, n: nat, k: int)
    requires
        0 <= k < stack_acts(g, n).len(),
    ensures
        stack_acts(g, n)[k] != Act::WarmAll,
        stack_acts(g, n)[k] is WarmPredicted ==> g.lookahead,
    decreases n,
{
    if n > 0 {
        let head = stack_acts(g, (n - 1) as nat);
        if k < head.len() {
            lemma_stack_never_bulk(g, (n - 1) as nat, k);
        }
    }
}

spec fn bulk_only_without(lookahead: bool, acts: Seq<Act>) -> bool {
    forall|k: int|
        0 <= k < acts.len() ==> (#[trigger] acts[k] == Act::WarmAll ==> !lookahead) && !(
        acts[k] is WarmPredicted)
}

proof fn lemma_bulk_only_when(lookahead: bool, acts: Seq<Act>, b: bool, a: Act)
    requires
        bulk_only_without(lookahead, acts),
        a == Act::WarmAll ==> !b || !lookahead,
        !(a is WarmPredicted),
    ensures
        bulk_only_without(lookahead, acts + when(b, a)),
{
}

proof fn lemma_closing_bulk_only(g: ForwardGates)
    ensures
        bulk_only_without(g.lookahead, closing_acts(g)),
{
    let l = g.lookahead;
    let e = Seq::<Act>::empty();
    lemma_bulk_only_when(l, e, !l, Act::WarmAll);
    let a = when(!l, Act::WarmAll);
    assert(e + a =~= a);
    lemma_bulk_only_when(l, a, true, Act::FoldTopic);
    let a = a + seq![Act::FoldTopic];
    lemma_bulk_only_when(l, a, g.protect, Act::Protect);
    let a = a + when(g.protect, Act::Protect);
    lemma_bulk_only_when(l, a, g.tuner && g.cache, Act::ShowCounters);
    let a = a + when(g.tuner && g.cache, Act::ShowCounters);
    lemma_bulk_only_when(l, a, g.miss_feedback, Act::MissFeedback);
    let a = a + when(g.miss_feedback, Act::MissFeedback);
    lemma_bulk_only_when(l, a, g.entropy && g.tuner, Act::EntropyFeedback);
    let a = a + when(g.entropy && g.tuner, Act::EntropyFeedback);
    lemma_bulk_only_when(l, a, g.learned > 0 && g.tuner, Act::LearnedFeedback);
    let a = a + when(g.learned > 0 && g.tuner, Act::LearnedFeedback);
    lemma_bulk_only_when(l, a, true, Act::Publish);
}

/// A predicted expert is warmed by one of the two mechanisms and never by both:
/// layer by layer while the stack runs, or in bulk after it.
pub proof fn lemma_one_warming_mechanism(g: ForwardGates, n: nat, i: int, j: int)
    requires
        0 <= i < forward_acts(g, n).len(),
        0 <= j < forward_acts(g, n).len(),
        forward_acts(g, n)[i] == Act::WarmAll,
    ensures
        !(forward_acts(g, n)[j] is WarmPredicted),
{
    let stack = stack_acts(g, n);
    let closing = closing_acts(g);
    lemma_closing_bulk_only(g);
    if 0 < i <= stack.len() {
        lemma_stack_never_bulk(g, n, i - 1);
    } else if i > 0 {
        assert(closing[i - 1 - stack.len()] == Act::WarmAll);
    }
    if 0 < j <= stack.len() {
        lemma_stack_never_bulk(g, n, j - 1);
    } else if j > 0 {
        assert(forward_acts(g, n)[j] == closing[j - 1 - stack.len()]);
    }
}

} // verus!
