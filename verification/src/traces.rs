//! Routing traces: what each layer routed, position by position.

use vstd::prelude::*;

use crate::text;

verus! {

/// Why a trace was not taken.
#[derive(Clone, Copy, Debug, PartialEq, Eq, Structural)]
pub enum TraceError {
    /// Routing is only recorded while experts are streamed.
    NotStreaming,
    /// Nothing was captured.
    Empty,
}

/// One layer's routing at one position: the layer, the experts, and the bits of
/// each expert's gate weight.
pub type GateFrame = (usize, Vec<i32>, Vec<u32>);

/// Routed experts with their gate weights, in the order captured.
pub struct GateTrace {
    frames: Vec<GateFrame>,
}

impl Default for GateTrace {
    fn default() -> (t: GateTrace)
        ensures
            t.captured() == Seq::<GateFrame>::empty(),
    {
        GateTrace { frames: Vec::new() }
    }
}

impl GateTrace {
    /// The frames captured, in order.
    pub closed spec fn captured(&self) -> Seq<GateFrame> {
        self.frames@
    }

    /// Captures a frame. One without experts says nothing and is dropped.
    pub fn push(&mut self, layer: usize, ids: Vec<i32>, weights: Vec<u32>)
        ensures
            final(self).captured() == if ids@.len() > 0 {
                old(self).captured().push((layer, ids, weights))
            } else {
                old(self).captured()
            },
    {
        if ids.len() > 0 {
            self.frames.push((layer, ids, weights));
        }
    }

    /// Frames captured.
    pub fn len(&self) -> (n: usize)
        ensures
            n == self.captured().len(),
    {
        self.frames.len()
    }

    /// Whether nothing was captured.
    pub fn is_empty(&self) -> (b: bool)
        ensures
            b == (self.captured().len() == 0),
    {
        self.frames.len() == 0
    }

    /// A captured frame.
    pub fn frame(&self, i: usize) -> (f: &GateFrame)
        requires
            i < self.captured().len(),
        ensures
            *f == self.captured()[i as int],
    {
        &self.frames[i]
    }

    /// How many frames a finished capture has. An empty one is refused: it would
    /// parse, and hide that nothing was recorded.
    pub fn finish(&self) -> (r: Result<usize, TraceError>)
        ensures
            self.captured().len() == 0 ==> r == Err::<usize, TraceError>(TraceError::Empty),
            self.captured().len() > 0 ==> r is Ok && r->Ok_0 == self.captured().len(),
    {
        if self.frames.len() == 0 {
            Err(TraceError::Empty)
        } else {
            Ok(self.frames.len())
        }
    }
}

/// The newest set a layer routed; empty where it has none yet.
pub open spec fn newest(latest: Option<Seq<Option<Vec<i32>>>>, l: int) -> Seq<i32> {
    match latest {
        Some(frames) => if l < frames.len() && frames[l] is Some {
            frames[l]->0@
        } else {
            seq![]
        },
        None => seq![],
    }
}

/// The frames of an optional history.
pub open spec fn frames_of(latest: Option<&Vec<Option<Vec<i32>>>>) -> Option<Seq<Option<Vec<i32>>>> {
    match latest {
        Some(v) => Some(v@),
        None => None,
    }
}

fn copied(v: &Vec<i32>) -> (w: Vec<i32>)
    ensures
        w@ == v@,
{
    let mut w: Vec<i32> = Vec::new();
    let mut i: usize = 0;
    while i < v.len()
        invariant
            i <= v@.len(),
            w@ == v@.subrange(0, i as int),
        decreases v@.len() - i,
    {
        w.push(v[i]);
        i = i + 1;
        assert(w@ =~= v@.subrange(0, i as int));
    }
    assert(v@.subrange(0, v@.len() as int) =~= v@);
    w
}

/// Every layer's newest routed set.
pub fn route_snapshot(latest: Option<&Vec<Option<Vec<i32>>>>, n_layers: usize) -> (out: Vec<Vec<i32>>)
    ensures
        out@.len() == n_layers,
        forall|l: int| 0 <= l < n_layers ==> (#[trigger] out@[l])@ == newest(frames_of(latest), l),
{
    let mut out: Vec<Vec<i32>> = Vec::new();
    let mut l: usize = 0;
    while l < n_layers
        invariant
            l <= n_layers,
            out@.len() == l,
            forall|k: int| 0 <= k < l ==> (#[trigger] out@[k])@ == newest(frames_of(latest), k),
        decreases n_layers - l,
    {
        let set: Vec<i32> = match latest {
            Some(frames) => if l < frames.len() {
                match &frames[l] {
                    Some(f) => copied(f),
                    None => Vec::new(),
                }
            } else {
                Vec::new()
            },
            None => Vec::new(),
        };
        assert(set@ =~= newest(frames_of(latest), l as int));
        out.push(set);
        l = l + 1;
    }
    out
}

/// A trace being taken: the corpus is forwarded token by token, and every
/// layer's routing recorded after each.
pub struct RouteDump {
    corpus: Vec<i32>,
    trace: Vec<Vec<Vec<i32>>>,
}

impl RouteDump {
    /// The tokens to forward.
    pub closed spec fn tokens(&self) -> Seq<i32> {
        self.corpus@
    }

    /// What was recorded, one snapshot per token forwarded.
    pub closed spec fn recorded(&self) -> Seq<Vec<Vec<i32>>> {
        self.trace@
    }

    /// No more was recorded than there are tokens.
    pub open spec fn wf(&self) -> bool {
        self.recorded().len() <= self.tokens().len()
    }

    /// Starts a trace; refused where no routing is recorded.
    pub fn new(streaming: bool, corpus: Vec<i32>) -> (r: Result<RouteDump, TraceError>)
        ensures
            !streaming ==> r is Err && r->Err_0 == TraceError::NotStreaming,
            streaming ==> r is Ok && (r->Ok_0).wf() && (r->Ok_0).tokens() == corpus@ && (
            r->Ok_0).recorded().len() == 0,
    {
        if !streaming {
            return Err(TraceError::NotStreaming);
        }
        Ok(RouteDump { corpus, trace: Vec::new() })
    }

    /// The next token to forward and its position; `None` when the corpus is done.
    pub fn ask(&self) -> (next: Option<(i32, usize)>)
        requires
            self.wf(),
        ensures
            next is None <==> self.recorded().len() == self.tokens().len(),
            next is Some ==> (next->0).1 == self.recorded().len() && (next->0).0
                == self.tokens()[self.recorded().len() as int],
    {
        let at: usize = self.trace.len();
        if at < self.corpus.len() {
            Some((self.corpus[at], at))
        } else {
            None
        }
    }

    /// Records what the forwarded token routed.
    pub fn record(&mut self, snapshot: Vec<Vec<i32>>)
        requires
            old(self).wf(),
            old(self).recorded().len() < old(self).tokens().len(),
        ensures
            final(self).wf(),
            final(self).tokens() == old(self).tokens(),
            final(self).recorded() == old(self).recorded().push(snapshot),
    {
        self.trace.push(snapshot);
    }

    /// The finished trace.
    pub fn into_trace(self) -> (t: Vec<Vec<Vec<i32>>>)
        ensures
            t@ == self.recorded(),
    {
        self.trace
    }
}

/// The layers whose transition from the position before `position` is observed:
/// every sparse one, and none at the first position.
pub fn observed_layers(position: usize, first_dense: usize, n_layers: usize) -> (out: Vec<usize>)
    ensures
        position == 0 ==> out@.len() == 0,
        position > 0 ==> out@ == Seq::new(
            (if first_dense < n_layers {
                n_layers - first_dense
            } else {
                0
            }) as nat,
            |i: int| (first_dense + i) as usize,
        ),
{
    let mut out: Vec<usize> = Vec::new();
    if position == 0 {
        return out;
    }
    let mut l: usize = first_dense;
    while l < n_layers
        invariant
            first_dense <= l,
            l <= n_layers || l == first_dense,
            out@ == Seq::new((l - first_dense) as nat, |i: int| (first_dense + i) as usize),
        decreases n_layers - l,
    {
        out.push(l);
        l = l + 1;
        assert(out@ =~= Seq::new((l - first_dense) as nat, |i: int| (first_dense + i) as usize));
    }
    out
}

/// An integer in decimal, with a sign where it is negative.
pub open spec fn int_text(n: int) -> Seq<char> {
    if n < 0 {
        seq!['-'] + text::decimal((-n) as nat)
    } else {
        text::decimal(n as nat)
    }
}

/// The first `n` of `parts`, separated by commas.
pub open spec fn listed(parts: Seq<Seq<char>>, n: nat) -> Seq<char>
    decreases n,
{
    if n == 0 {
        seq![]
    } else if n == 1 {
        parts[0]
    } else {
        listed(parts, (n - 1) as nat) + seq![','] + parts[n - 1]
    }
}

/// `parts` between brackets, separated by commas.
pub open spec fn bracketed(parts: Seq<Seq<char>>) -> Seq<char> {
    seq!['['] + listed(parts, parts.len()) + seq![']']
}

/// One layer's routed set as text.
pub open spec fn set_text(ids: Seq<i32>) -> Seq<char> {
    bracketed(Seq::new(ids.len(), |i: int| int_text(ids[i] as int)))
}

/// One position's routing as text.
pub open spec fn position_text(layers: Seq<Vec<i32>>) -> Seq<char> {
    bracketed(Seq::new(layers.len(), |l: int| set_text(layers[l]@)))
}

/// A whole trace as text: positions, layers and experts as nested lists.
pub open spec fn trace_text(trace: Seq<Vec<Vec<i32>>>) -> Seq<char> {
    bracketed(Seq::new(trace.len(), |p: int| position_text(trace[p]@)))
}

/// The bytes of ASCII text.
pub open spec fn ascii(s: Seq<char>) -> Seq<u8> {
    Seq::new(s.len(), |i: int| s[i] as u8)
}

/// `serde_json::to_vec` on nested lists of integers: brackets, commas and decimal
/// numbers without white space. It fails only on a map whose keys are no strings
/// or where a value's own `Serialize` does; lists of integers are neither.
#[verifier::external_body]
fn trace_to_vec(trace: &Vec<Vec<Vec<i32>>>) -> (bytes: Option<Vec<u8>>)
    ensures
        bytes is Some,
        (bytes->0)@ == ascii(trace_text(trace@)),
{
    serde_json::to_vec(trace).ok()
}

/// Renders a trace as a JSON document.
pub fn trace_json(trace: &Vec<Vec<Vec<i32>>>) -> (bytes: Vec<u8>)
    ensures
        bytes@ == ascii(trace_text(trace@)),
{
    match trace_to_vec(trace) {
        Some(bytes) => bytes,
        None => Vec::new(),
    }
}

/// A layer's newest set is its frame where it has one, and empty otherwise.
pub proof fn lemma_newest_is_the_frame(frames: Seq<Option<Vec<i32>>>, l: int)
    requires
        0 <= l,
    ensures
        l < frames.len() && frames[l] is Some ==> newest(Some(frames), l) == frames[l]->0@,
        l < frames.len() && frames[l] is None ==> newest(Some(frames), l).len() == 0,
        l >= frames.len() ==> newest(Some(frames), l).len() == 0,
        newest(None, l).len() == 0,
{
}

/// A number is read back from its text, sign included.
pub proof fn lemma_numbers_of_a_trace_read_back(n: i32)
    ensures
        text::i32_value(int_text(n as int)) == Some(n as int),
{
    if n < 0 {
        text::lemma_signed_numbers_read_back((-(n as int)) as nat);
    } else {
        text::lemma_signed_numbers_read_back(n as nat);
    }
}

/// How a list is written: in brackets, with a comma between entries and none
/// elsewhere. A further entry goes before the closing bracket.
pub proof fn lemma_brackets_and_commas(parts: Seq<Seq<char>>, p: Seq<char>)
    ensures
        bracketed(seq![]) == "[]"@,
        bracketed(seq![p]) == "["@ + p + "]"@,
        parts.len() > 0 ==> bracketed(parts.push(p)) == bracketed(parts).drop_last() + ","@ + p
            + "]"@,
{
    reveal_strlit("[");
    reveal_strlit("]");
    reveal_strlit(",");
    reveal_strlit("[]");
    assert("["@ =~= seq!['[']);
    assert("]"@ =~= seq![']']);
    assert(","@ =~= seq![',']);
    assert(bracketed(seq![]) =~= "[]"@);
    assert(listed(seq![p], 1) == p);
    assert(bracketed(seq![p]) =~= "["@ + p + "]"@);
    if parts.len() > 0 {
        lemma_listed_of_a_longer_list(parts, p, parts.len());
        let n = parts.len();
        assert(listed(parts.push(p), n + 1) == listed(parts, n) + seq![','] + p);
        assert(bracketed(parts).drop_last() =~= seq!['['] + listed(parts, n));
        assert(bracketed(parts.push(p)) =~= bracketed(parts).drop_last() + ","@ + p + "]"@);
    }
}

proof fn lemma_listed_of_a_longer_list(parts: Seq<Seq<char>>, p: Seq<char>, n: nat)
    requires
        n <= parts.len(),
    ensures
        listed(parts.push(p), n) == listed(parts, n),
    decreases n,
{
    if n > 1 {
        lemma_listed_of_a_longer_list(parts, p, (n - 1) as nat);
    }
}

/// A trace is written position by position, a position layer by layer, and a
/// layer expert by expert, each level in brackets.
pub proof fn lemma_trace_is_written_level_by_level(
    ids: Seq<i32>,
    e: i32,
    layers: Seq<Vec<i32>>,
    layer: Vec<i32>,
    trace: Seq<Vec<Vec<i32>>>,
    position: Vec<Vec<i32>>,
)
    ensures
        set_text(seq![]) == "[]"@ && position_text(seq![]) == "[]"@ && trace_text(seq![]) == "[]"@,
        ids.len() > 0 ==> set_text(ids.push(e)) == set_text(ids).drop_last() + ","@ + int_text(
            e as int,
        ) + "]"@,
        set_text(seq![e]) == "["@ + int_text(e as int) + "]"@,
        layers.len() > 0 ==> position_text(layers.push(layer)) == position_text(layers).drop_last()
            + ","@ + set_text(layer@) + "]"@,
        position_text(seq![layer]) == "["@ + set_text(layer@) + "]"@,
        trace.len() > 0 ==> trace_text(trace.push(position)) == trace_text(trace).drop_last() + ","@
            + position_text(position@) + "]"@,
        trace_text(seq![position]) == "["@ + position_text(position@) + "]"@,
{
    let a = |v: Seq<i32>| Seq::new(v.len(), |i: int| int_text(v[i] as int));
    let b = |v: Seq<Vec<i32>>| Seq::new(v.len(), |l: int| set_text(v[l]@));
    let c = |v: Seq<Vec<Vec<i32>>>| Seq::new(v.len(), |p: int| position_text(v[p]@));
    lemma_brackets_and_commas(a(ids), int_text(e as int));
    lemma_brackets_and_commas(b(layers), set_text(layer@));
    lemma_brackets_and_commas(c(trace), position_text(position@));
    assert(a(ids.push(e)) =~= a(ids).push(int_text(e as int)));
    assert(b(layers.push(layer)) =~= b(layers).push(set_text(layer@)));
    assert(c(trace.push(position)) =~= c(trace).push(position_text(position@)));
    assert(a(seq![e]) =~= seq![int_text(e as int)]);
    assert(b(seq![layer]) =~= seq![set_text(layer@)]);
    assert(c(seq![position]) =~= seq![position_text(position@)]);
    assert(a(seq![]) =~= seq![]);
    assert(b(seq![]) =~= seq![]);
    assert(c(seq![]) =~= seq![]);
}

/// Text of plain characters is written byte for byte.
pub proof fn lemma_text_is_written_byte_for_byte(s: Seq<char>, i: int)
    requires
        0 <= i < s.len(),
        0 <= s[i] as int <= 0x7f,
    ensures
        ascii(s).len() == s.len(),
        ascii(s)[i] == s[i] as int,
{
}

} // verus!
