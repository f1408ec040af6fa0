//! What loading decides, from what the container holds, what the machine has
//! and what was asked for. Each stage takes the facts its caller has read by
//! then and returns what to build next.

use vstd::prelude::*;

use crate::container;
use crate::container::TensorHeader;
use crate::knobs;
use crate::layers;
use crate::layers::Attn;
use crate::model;
use crate::ram;
use crate::ram::RingSizing;

verus! {

/// Why experts do not stream although streaming was asked for.
#[derive(Clone, Copy, Debug, PartialEq, Eq, Structural)]
pub enum StreamNote {
    /// The request stands.
    AsAsked,
    /// The container is compressed, and compressed reads unpack on read.
    Compressed,
    /// The container has no routed expert.
    NothingToStream,
}

/// Whether routed experts stream, and why not where the request was overruled.
pub struct StreamChoice {
    /// Experts are read from disk as they are routed to.
    pub stream: bool,
    /// What became of the request.
    pub note: StreamNote,
}

/// What was asked: an explicit choice, else the setting, else whether the
/// experts take more than their share of memory.
pub open spec fn asked_to_stream(
    force: Option<bool>,
    value: Option<Seq<char>>,
    over_share: bool,
) -> bool {
    match force {
        Some(s) => s,
        None => if knobs::says_on(value) {
            true
        } else if knobs::says_off(value) {
            false
        } else {
            over_share
        },
    }
}

/// Decides whether routed experts stream. What the container holds outranks
/// what was asked: a compressed container and one without experts are held
/// resident.
pub fn choose_stream(
    force: Option<bool>,
    value: Option<&str>,
    over_share: bool,
    compressed: bool,
    has_experts: bool,
) -> (choice: StreamChoice)
    ensures
        choice.stream == (asked_to_stream(force, knobs::setting(value), over_share) && !compressed
            && has_experts),
        choice.note == if !asked_to_stream(force, knobs::setting(value), over_share) {
            StreamNote::AsAsked
        } else if compressed {
            StreamNote::Compressed
        } else if !has_experts {
            StreamNote::NothingToStream
        } else {
            StreamNote::AsAsked
        },
{
    proof {
        reveal_strlit("0");
        reveal_strlit("1");
        reveal_strlit("true");
        reveal_strlit("false");
        assert("0"@[0] != "1"@[0]);
        assert("0"@.len() != "true"@.len());
        assert("false"@.len() != "1"@.len());
        assert("false"@.len() != "true"@.len());
    }
    let asked: bool = match force {
        Some(s) => s,
        None => if knobs::opted_in(value) {
            true
        } else if !knobs::not_opted_out(value) {
            false
        } else {
            over_share
        },
    };
    if asked && compressed {
        StreamChoice { stream: false, note: StreamNote::Compressed }
    } else if asked && !has_experts {
        StreamChoice { stream: false, note: StreamNote::NothingToStream }
    } else {
        StreamChoice { stream: asked, note: StreamNote::AsAsked }
    }
}

/// `rings` is the ring count a load settles on: an explicit setting outright, the
/// default for a resident model, and for a streamed one as many as its devices
/// want and its buffers fit.
pub open spec fn sized_rings(
    rings: int,
    stream: bool,
    value: Option<Seq<char>>,
    sizing: RingSizing,
) -> bool {
    match ram::explicit_rings(value) {
        Some(n) => rings == n,
        None => if !stream {
            rings == ram::DEFAULT_IO_RINGS
        } else if sizing.avail_bytes == 0 {
            rings == sizing.wanted()
        } else {
            &&& ram::DEFAULT_IO_RINGS <= rings <= sizing.wanted()
            &&& rings == ram::DEFAULT_IO_RINGS || sizing.fits(rings)
            &&& forall|n: int| rings < n <= sizing.wanted() ==> !#[trigger] sizing.fits(n)
        },
    }
}

/// The ring count both the memory projection and the construction use: sized to
/// the devices when experts stream, the plain setting otherwise.
pub fn choose_rings(stream: bool, value: Option<&str>, sizing: &RingSizing) -> (rings: usize)
    requires
        4 * sizing.per_expert_bytes <= usize::MAX,
    ensures
        1 <= rings <= ram::MAX_IO_RINGS,
        sized_rings(rings as int, stream, knobs::setting(value), *sizing),
{
    if stream {
        ram::io_rings_for(value, sizing)
    } else {
        ram::io_rings(value)
    }
}

/// What the memory projection of a load is computed from.
pub struct Projection {
    /// Bytes held whatever streams.
    pub dense_disk: u64,
    /// Bytes of the routed experts.
    pub expert_disk: u64,
    /// Whether those stay on disk.
    pub stream_experts: bool,
    /// The warm cache's budget.
    pub ecache: u64,
    /// Landing and compute buffers of the streaming lanes.
    pub stream_transient: u64,
    /// The cached positions of one sequence of the projected length.
    pub kv_pool: u64,
    /// Whether reads go through the page cache.
    pub buffered_reads: bool,
}

/// Gathers the projection of a load. A resident model has no streaming lane and
/// is charged no transient buffers.
pub fn project(
    total_bytes: u64,
    routed_bytes: u64,
    stream: bool,
    ecache: u64,
    reserve: u64,
    kv_pool: u64,
    direct: bool,
) -> (p: Projection)
    ensures
        p.dense_disk == if total_bytes > routed_bytes {
            total_bytes - routed_bytes
        } else {
            0
        },
        p.expert_disk == routed_bytes,
        p.stream_experts == stream,
        p.ecache == ecache,
        p.stream_transient == if stream {
            reserve
        } else {
            0
        },
        p.kv_pool == kv_pool,
        p.buffered_reads == !direct,
{
    Projection {
        dense_disk: total_bytes.saturating_sub(routed_bytes),
        expert_disk: routed_bytes,
        stream_experts: stream,
        ecache,
        stream_transient: if stream {
            reserve
        } else {
            0
        },
        kv_pool,
        buffered_reads: !direct,
    }
}

/// What became of a request for direct reads.
#[derive(Clone, Copy, Debug, PartialEq, Eq, Structural)]
pub enum DirectNote {
    /// Nobody asked, or nothing streams.
    NotWanted,
    /// Direct reads are on.
    Enabled,
    /// The read engine has no aligned buffers.
    NoAlignedBuffers,
    /// No shard opened for direct reads.
    Unavailable,
}

/// Decides whether expert reads bypass the page cache.
pub fn choose_direct(
    force: Option<bool>,
    value: Option<&str>,
    stream: bool,
    has_direct: bool,
    engine_direct: bool,
) -> (note: DirectNote)
    ensures
        note == if !(stream && match force {
            Some(f) => f,
            None => knobs::says_on(knobs::setting(value)),
        }) {
            DirectNote::NotWanted
        } else if has_direct && engine_direct {
            DirectNote::Enabled
        } else if !engine_direct {
            DirectNote::NoAlignedBuffers
        } else {
            DirectNote::Unavailable
        },
{
    let asked: bool = match force {
        Some(f) => f,
        None => knobs::opted_in(value),
    };
    if !(asked && stream) {
        DirectNote::NotWanted
    } else if has_direct && engine_direct {
        DirectNote::Enabled
    } else if !engine_direct {
        DirectNote::NoAlignedBuffers
    } else {
        DirectNote::Unavailable
    }
}

/// The margin kept free beside the cache and the transient buffers.
pub const CACHE_SAFETY: usize = 0x4000_0000;

/// The warm cache's size, and whether there is one.
pub struct CacheChoice {
    /// The granted budget in bytes.
    pub budget: usize,
    /// Whether a cache is built.
    pub build: bool,
}

/// What of a cache request is granted: all of it for a resident model, else what
/// the machine has left beside the buffers and the margin.
pub open spec fn granted(want: usize, stream: bool, mem_available: usize, reserve: int) -> int {
    if !stream {
        want as int
    } else if mem_available <= reserve + CACHE_SAFETY {
        0
    } else if want <= mem_available - reserve - CACHE_SAFETY {
        want as int
    } else {
        mem_available - reserve - CACHE_SAFETY
    }
}

/// Sizes the warm cache. A streamed model's request is cut to what the machine
/// has left; a cache is built only where experts stream and something is left.
pub fn choose_cache(
    force: Option<usize>,
    requested: usize,
    stream: bool,
    mem_available: usize,
    reserve: usize,
) -> (choice: CacheChoice)
    ensures
        choice.budget == granted(
            match force {
                Some(b) => b,
                None => requested,
            },
            stream,
            mem_available,
            reserve as int,
        ),
        choice.build == (stream && choice.budget > 0),
        choice.build ==> choice.budget + reserve + CACHE_SAFETY <= mem_available,
{
    let want: usize = match force {
        Some(b) => b,
        None => requested,
    };
    let budget: usize = if stream && want > 0 {
        ram::cap_ecache_budget(want, mem_available, reserve, CACHE_SAFETY)
    } else {
        want
    };
    CacheChoice { budget, build: stream && budget > 0 }
}

/// The parts of a model that exist only when another does.
pub struct Parts {
    /// The prefetch predictor's history.
    pub route_hist: bool,
    /// Routing heat, one row per layer and one for the draft head.
    pub heat_rows: Option<usize>,
    /// The draft head's pin table.
    pub mtp_pins: bool,
    /// The map from experts to disk extents.
    pub expert_index: bool,
    /// The queue of experts the balancer wanted resident.
    pub spill_log: bool,
    /// Per-class expert profiles.
    pub topic_profiles: bool,
}

/// Decides which parts a model is built with. Heat exists exactly when there is
/// a device tier to migrate into, and the spill queue only beside it.
pub fn choose_parts(
    n_layers: usize,
    stream: bool,
    has_cache: bool,
    has_tier: bool,
    has_head: bool,
    spill: Option<&str>,
    topic: Option<&str>,
) -> (p: Parts)
    requires
        n_layers < usize::MAX,
    ensures
        p.route_hist == has_cache,
        p.heat_rows == if has_tier {
            Some((n_layers + 1) as usize)
        } else {
            None
        },
        p.mtp_pins == has_head,
        p.expert_index == stream,
        p.spill_log == (has_tier && knobs::says_on(knobs::setting(spill))),
        p.topic_profiles == (stream && match topic {
            Some(v) => crate::text::trimmed(v@) == "1"@,
            None => false,
        }),
{
    let topic_on: bool = match topic {
        Some(v) => crate::text::same_text(crate::text::trim(v), "1"),
        None => false,
    };
    Parts {
        route_hist: has_cache,
        heat_rows: if has_tier {
            Some(n_layers + 1)
        } else {
            None
        },
        mtp_pins: has_head,
        expert_index: stream,
        spill_log: knobs::opted_in(spill) && has_tier,
        topic_profiles: stream && topic_on,
    }
}

/// How rings are shared among devices.
#[derive(Clone, Copy, Debug, PartialEq, Eq, Structural)]
pub enum DeviceClaims {
    /// One cursor for every device.
    Shared,
    /// Every device has a home ring.
    Homed,
    /// So many devices are reached only by a ring that ran dry.
    Unhomed(usize),
}

fn seen_before(devices: &Vec<u8>, i: usize) -> (b: bool)
    requires
        i < devices@.len(),
    ensures
        b == devices@.take(i as int).contains(devices@[i as int]),
{
    let mut j: usize = 0;
    while j < i
        invariant
            j <= i < devices@.len(),
            forall|k: int| 0 <= k < j ==> devices@[k] != devices@[i as int],
        decreases i - j,
    {
        if devices[j] == devices[i] {
            assert(devices@.take(i as int)[j as int] == devices@[i as int]);
            return true;
        }
        j = j + 1;
    }
    false
}

/// Counts the different devices in a list of shard devices.
pub fn count_devices(devices: &Vec<u8>) -> (n: usize)
    ensures
        n == devices@.to_set().len(),
        n <= devices@.len(),
{
    let mut n: usize = 0;
    let mut i: usize = 0;
    assert(devices@.take(0).to_set() =~= Set::empty());
    while i < devices.len()
        invariant
            i <= devices@.len(),
            n <= i,
            devices@.take(i as int).to_set().finite(),
            n == devices@.take(i as int).to_set().len(),
        decreases devices@.len() - i,
    {
        proof {
            let here = devices@.take(i as int);
            assert(devices@.take(i + 1) =~= here.push(devices@[i as int]));
            assert(devices@.take(i + 1).to_set() =~= here.to_set().insert(devices@[i as int])) by {
                broadcast use vstd::seq_lib::group_seq_properties;
            }
        }
        if !seen_before(devices, i) {
            n = n + 1;
        }
        i = i + 1;
    }
    assert(devices@.take(devices@.len() as int) =~= devices@);
    n
}

/// Decides how rings claim work: by device only where that can differ from one
/// shared cursor, that is when experts stream over several rings from several
/// devices and nobody turned it off.
pub fn device_claims(
    stream: bool,
    rings: usize,
    value: Option<&str>,
    devices: &Vec<u8>,
) -> (claims: DeviceClaims)
    ensures
        claims == if !(stream && rings > 1 && !knobs::says_off_loosely(knobs::setting(value))
            && devices@.to_set().len() > 1) {
            DeviceClaims::Shared
        } else if rings >= devices@.to_set().len() {
            DeviceClaims::Homed
        } else {
            DeviceClaims::Unhomed((devices@.to_set().len() - rings) as usize)
        },
{
    if !(stream && rings > 1 && knobs::device_sched(value)) {
        return DeviceClaims::Shared;
    }
    let n: usize = count_devices(devices);
    if n <= 1 {
        DeviceClaims::Shared
    } else if rings >= n {
        DeviceClaims::Homed
    } else {
        DeviceClaims::Unhomed(n - rings)
    }
}

/// Layer `li` may be placed on the device under a pin.
pub open spec fn within_pin(pinned: Option<usize>, li: int) -> bool {
    match pinned {
        Some(n) => li < n,
        None => true,
    }
}

/// Decides whether a pin lets layer `li` be placed. It bounds the feed-forwards
/// and the attention matrices alike.
pub fn may_place(pinned: Option<usize>, li: usize) -> (b: bool)
    ensures
        b == within_pin(pinned, li as int),
{
    match pinned {
        Some(n) => li < n,
        None => true,
    }
}

/// The first layer from `from` on that has a dense feed-forward and lies within
/// the pin.
pub open spec fn dense_from(dense: Seq<bool>, pinned: Option<usize>, from: int) -> Option<int>
    decreases dense.len() - from,
{
    if from < 0 || from >= dense.len() || !within_pin(pinned, from) {
        None
    } else if dense[from] {
        Some(from)
    } else {
        dense_from(dense, pinned, from + 1)
    }
}

/// The layer to try placing next: the first from `from` on that has a dense
/// feed-forward and lies within the pin.
pub fn next_dense_layer(dense: &Vec<bool>, pinned: Option<usize>, from: usize) -> (li: Option<usize>)
    ensures
        li is Some <==> dense_from(dense@, pinned, from as int) is Some,
        li is Some ==> {
            &&& li->0 as int == dense_from(dense@, pinned, from as int)->0
            &&& from <= li->0 < dense@.len()
            &&& dense@[li->0 as int]
            &&& within_pin(pinned, li->0 as int)
        },
{
    let mut k: usize = from;
    while k < dense.len() && may_place(pinned, k)
        invariant
            from <= k,
            dense_from(dense@, pinned, from as int) == dense_from(dense@, pinned, k as int),
        decreases dense@.len() - k,
    {
        if dense[k] {
            return Some(k);
        }
        k = k + 1;
    }
    None
}

/// What became of one weight offered to the device.
#[derive(Clone, Copy, Debug, PartialEq, Eq, Structural)]
pub enum Upload {
    /// It is resident, taking so many bytes.
    Placed(usize),
    /// It did not fit, or its form would cost too much.
    NoRoom,
    /// The device refused it.
    Failed,
}

/// Placing whole feed-forwards: after one placement attempt, whether to try the
/// next layer. Running out of room ends the phase, since later layers are no
/// smaller; a refusal ends it too and leaves the rest to the host.
pub fn keep_placing(last: Upload) -> (b: bool)
    ensures
        b == (last is Placed),
{
    match last {
        Upload::Placed(_) => true,
        _ => false,
    }
}

/// The tally of the weights offered to the device one at a time.
pub struct PlacementTally {
    /// Weights placed.
    pub placed: Vec<(usize, String)>,
    /// Weights left to the host, and whether the device refused them.
    pub skipped: Vec<(usize, String, bool)>,
    /// Device bytes of the weights placed.
    pub device_bytes: usize,
    /// Bytes of every matrix seen, placed or not.
    pub matmul_total: usize,
}

impl PlacementTally {
    /// Nothing offered yet.
    pub fn new() -> (t: PlacementTally)
        ensures
            t.placed@.len() == 0,
            t.skipped@.len() == 0,
            t.device_bytes == 0,
            t.matmul_total == 0,
    {
        PlacementTally {
            placed: Vec::new(),
            skipped: Vec::new(),
            device_bytes: 0,
            matmul_total: 0,
        }
    }

    /// Counts a matrix toward the model's total.
    pub fn saw(&mut self, bytes: usize)
        requires
            old(self).matmul_total + bytes <= usize::MAX,
        ensures
            final(self).matmul_total == old(self).matmul_total + bytes,
            final(self).placed == old(self).placed,
            final(self).skipped == old(self).skipped,
            final(self).device_bytes == old(self).device_bytes,
    {
        self.matmul_total = self.matmul_total + bytes;
    }

    /// This tally is `before` with one more weight noted: `name` of layer `li`,
    /// with what became of it.
    pub open spec fn noted(
        &self,
        before: PlacementTally,
        li: usize,
        name: Seq<char>,
        upload: Upload,
    ) -> bool {
        &&& self.matmul_total == before.matmul_total
        &&& match upload {
            Upload::Placed(b) => {
                &&& self.placed@.len() == before.placed@.len() + 1
                &&& self.placed@.drop_last() == before.placed@
                &&& self.placed@.last().0 == li
                &&& self.placed@.last().1@ == name
                &&& self.skipped@ == before.skipped@
                &&& self.device_bytes == before.device_bytes + b
            },
            _ => {
                &&& self.skipped@.len() == before.skipped@.len() + 1
                &&& self.skipped@.drop_last() == before.skipped@
                &&& self.skipped@.last().0 == li
                &&& self.skipped@.last().1@ == name
                &&& self.skipped@.last().2 == (upload is Failed)
                &&& self.placed@ == before.placed@
                &&& self.device_bytes == before.device_bytes
            },
        }
    }

    /// Records what became of the weight `name` of layer `li`.
    pub fn record(&mut self, li: usize, name: String, upload: Upload)
        requires
            upload matches Upload::Placed(b) ==> old(self).device_bytes + b <= usize::MAX,
        ensures
            final(self).noted(*old(self), li, name@, upload),
    {
        match upload {
            Upload::Placed(b) => {
                self.placed.push((li, name));
                self.device_bytes = self.device_bytes + b;
            },
            Upload::NoRoom => {
                self.skipped.push((li, name, false));
            },
            Upload::Failed => {
                self.skipped.push((li, name, true));
            },
        }
        proof {
            if upload is Placed {
                assert(self.placed@.drop_last() =~= old(self).placed@);
            } else {
                assert(self.skipped@.drop_last() =~= old(self).skipped@);
            }
        }
    }
}

/// Whether a dense device tier is tried at all: asked for, and the container
/// routes nothing.
pub fn dense_tier_wanted(value: Option<&str>, has_experts: bool) -> (b: bool)
    ensures
        b == (knobs::says_on(knobs::setting(value)) && !has_experts),
{
    knobs::opted_in(value) && !has_experts
}

/// Whether the tier is kept: it holds at least one fused feed-forward or one
/// projection.
pub fn dense_tier_kept(fused: usize, projections: usize) -> (b: bool)
    ensures
        b == (fused + projections > 0),
{
    fused > 0 || projections > 0
}

/// The matrices of one layer's attention, each with its layer.
pub open spec fn layer_offers(li: int, attn: Attn) -> Seq<(int, Seq<char>)> {
    Seq::new(
        layers::projection_names(attn).len(),
        |k: int| (li, layers::projection_names(attn)[k]),
    )
}

/// The attention matrices of the first `n` layers that are offered to the
/// device, layer by layer. A layer past the pin offers none.
pub open spec fn projection_offers(attn: Seq<Attn>, pinned: Option<usize>, n: int) -> Seq<
    (int, Seq<char>),
>
    decreases n,
{
    if n <= 0 {
        Seq::empty()
    } else {
        projection_offers(attn, pinned, n - 1) + if within_pin(pinned, n - 1) {
            layer_offers(n - 1, attn[n - 1])
        } else {
            Seq::empty()
        }
    }
}

/// Offers as layers and names.
pub open spec fn offer_list(offers: Seq<(usize, &'static str)>) -> Seq<(int, Seq<char>)> {
    Seq::new(offers.len(), |i: int| (offers[i].0 as int, offers[i].1@))
}

/// Lists the attention matrices to offer to the device.
pub fn projections_to_offer(attn: &Vec<Attn>, pinned: Option<usize>) -> (offers: Vec<
    (usize, &'static str),
>)
    ensures
        offer_list(offers@) == projection_offers(attn@, pinned, attn@.len() as int),
        forall|i: int|
            0 <= i < offers@.len() ==> within_pin(pinned, (#[trigger] offers@[i]).0 as int),
{
    let mut offers: Vec<(usize, &'static str)> = Vec::new();
    let mut li: usize = 0;
    assert(offer_list(offers@) =~= Seq::empty());
    while li < attn.len()
        invariant
            li <= attn@.len(),
            offer_list(offers@) == projection_offers(attn@, pinned, li as int),
            forall|i: int|
                0 <= i < offers@.len() ==> within_pin(pinned, (#[trigger] offers@[i]).0 as int),
        decreases attn@.len() - li,
    {
        if may_place(pinned, li) {
            let names = layers::attn_weights(attn[li]);
            let ghost before = offer_list(offers@);
            let ghost here = layer_offers(li as int, attn@[li as int]);
            let mut k: usize = 0;
            assert(offer_list(offers@) =~= before + here.take(0));
            while k < names.len()
                invariant
                    k <= names@.len(),
                    li < attn@.len(),
                    within_pin(pinned, li as int),
                    here == layer_offers(li as int, attn@[li as int]),
                    names@.len() == here.len(),
                    forall|i: int|
                        0 <= i < names@.len() ==> (#[trigger] names@[i])@ == here[i].1,
                    offer_list(offers@) == before + here.take(k as int),
                    forall|i: int|
                        0 <= i < offers@.len() ==> within_pin(
                            pinned,
                            (#[trigger] offers@[i]).0 as int,
                        ),
                decreases names@.len() - k,
            {
                let ghost held = offers@;
                offers.push((li, names[k]));
                proof {
                    assert(offer_list(offers@) =~= offer_list(held).push(here[k as int]));
                    assert(here.take(k + 1) =~= here.take(k as int).push(here[k as int]));
                    assert((before + here.take(k as int)).push(here[k as int]) =~= before
                        + here.take(k + 1));
                }
                k = k + 1;
            }
            assert(here.take(here.len() as int) =~= here);
        } else {
            assert(offer_list(offers@) + Seq::empty() =~= offer_list(offers@));
        }
        li = li + 1;
    }
    offers
}

/// What to offer to the device next.
#[derive(Clone, Copy, Debug)]
pub enum PlaceAsk {
    /// The whole feed-forward of a layer.
    Fused(usize),
    /// One attention matrix of a layer, by its short name.
    Projection(usize, &'static str),
    /// Nothing is left to offer.
    Done,
}

/// A dense device tier being filled: whole feed-forwards first, layer by layer
/// until one does not go in, then the attention matrices one at a time.
pub struct DensePlacement {
    /// Which layers have a dense feed-forward.
    pub dense: Vec<bool>,
    /// How many layers may be placed, `None` for as many as fit.
    pub pinned: Option<usize>,
    /// The attention matrices to offer.
    pub offers: Vec<(usize, &'static str)>,
    /// Feed-forwards are still being offered.
    pub fusing: bool,
    /// Where to look for the next feed-forward.
    pub from: usize,
    /// Layers whose feed-forward is placed.
    pub fused: Vec<usize>,
    /// How many attention matrices have been offered.
    pub offered: usize,
    /// What became of them.
    pub tally: PlacementTally,
}

impl DensePlacement {
    /// What is placed lies within the pin, feed-forwards in ascending order,
    /// and every attention matrix offered so far is accounted for.
    pub open spec fn wf(&self) -> bool {
        &&& self.from <= self.dense@.len()
        &&& forall|i: int|
            0 <= i < self.fused@.len() ==> {
                &&& (#[trigger] self.fused@[i]) < self.from
                &&& self.dense@[self.fused@[i] as int]
                &&& within_pin(self.pinned, self.fused@[i] as int)
            }
        &&& forall|i: int, j: int|
            0 <= i < j < self.fused@.len() ==> self.fused@[i] < self.fused@[j]
        &&& forall|i: int|
            0 <= i < self.offers@.len() ==> within_pin(
                self.pinned,
                (#[trigger] self.offers@[i]).0 as int,
            )
        &&& self.offered <= self.offers@.len()
        &&& self.tally.placed@.len() + self.tally.skipped@.len() == self.offered
        &&& forall|i: int|
            0 <= i < self.tally.placed@.len() ==> within_pin(
                self.pinned,
                (#[trigger] self.tally.placed@[i]).0 as int,
            )
    }

    /// What is offered next.
    pub open spec fn due(&self) -> PlaceAsk {
        if self.fusing && dense_from(self.dense@, self.pinned, self.from as int) is Some {
            PlaceAsk::Fused(dense_from(self.dense@, self.pinned, self.from as int)->0 as usize)
        } else if self.offered < self.offers@.len() {
            PlaceAsk::Projection(
                self.offers@[self.offered as int].0,
                self.offers@[self.offered as int].1,
            )
        } else {
            PlaceAsk::Done
        }
    }

    /// How much may still be offered.
    pub open spec fn left(&self) -> int {
        self.offers@.len() - self.offered + if self.fusing {
            self.dense@.len() - self.from
        } else {
            0
        }
    }

    /// A tier about to be filled. `attn` is each layer's attention and `bytes`
    /// what the matrices of each layer weigh, attention and dense feed-forward
    /// together, whether or not a pin lets them be placed.
    pub fn new(dense: Vec<bool>, attn: &Vec<Attn>, bytes: &Vec<usize>, pinned: Option<usize>) -> (d:
        DensePlacement)
        requires
            model::sum_of(bytes@, bytes@.len()) <= usize::MAX,
        ensures
            d.wf(),
            d.dense@ == dense@,
            d.pinned == pinned,
            offer_list(d.offers@) == projection_offers(attn@, pinned, attn@.len() as int),
            d.fusing,
            d.from == 0,
            d.fused@.len() == 0,
            d.offered == 0,
            d.tally.placed@.len() == 0,
            d.tally.skipped@.len() == 0,
            d.tally.device_bytes == 0,
            d.tally.matmul_total == model::sum_of(bytes@, bytes@.len()),
    {
        let mut tally = PlacementTally::new();
        let mut i: usize = 0;
        while i < bytes.len()
            invariant
                i <= bytes@.len(),
                model::sum_of(bytes@, bytes@.len()) <= usize::MAX,
                tally.matmul_total == model::sum_of(bytes@, i as nat),
                tally.placed@.len() == 0,
                tally.skipped@.len() == 0,
                tally.device_bytes == 0,
            decreases bytes@.len() - i,
        {
            proof {
                model::lemma_sum_of_grows(bytes@, (i + 1) as nat, bytes@.len());
            }
            tally.saw(bytes[i]);
            i = i + 1;
        }
        let offers = projections_to_offer(attn, pinned);
        DensePlacement {
            dense,
            pinned,
            offers,
            fusing: true,
            from: 0,
            fused: Vec::new(),
            offered: 0,
            tally,
        }
    }

    /// Tells what to offer next.
    pub fn ask(&self) -> (a: PlaceAsk)
        requires
            self.wf(),
        ensures
            a == self.due(),
            a matches PlaceAsk::Fused(li) ==> {
                &&& self.from <= li < self.dense@.len()
                &&& self.dense@[li as int]
                &&& within_pin(self.pinned, li as int)
            },
    {
        if self.fusing {
            match next_dense_layer(&self.dense, self.pinned, self.from) {
                Some(li) => return PlaceAsk::Fused(li),
                None => {},
            }
        }
        if self.offered < self.offers.len() {
            let (li, name) = self.offers[self.offered];
            PlaceAsk::Projection(li, name)
        } else {
            PlaceAsk::Done
        }
    }

    /// Takes in what became of the last offer. A feed-forward that did not go in
    /// ends the offers of feed-forwards; an attention matrix that did not go in
    /// ends nothing.
    pub fn heard(&mut self, upload: Upload)
        requires
            old(self).wf(),
            old(self).due() is Projection ==> (upload matches Upload::Placed(b) ==> old(
                self,
            ).tally.device_bytes + b <= usize::MAX),
        ensures
            final(self).wf(),
            final(self).dense@ == old(self).dense@,
            final(self).pinned == old(self).pinned,
            final(self).offers@ == old(self).offers@,
            final(self).tally.matmul_total == old(self).tally.matmul_total,
            old(self).due() matches PlaceAsk::Fused(li) ==> {
                &&& final(self).fused@ == if upload is Placed {
                    old(self).fused@.push(li)
                } else {
                    old(self).fused@
                }
                &&& final(self).fusing == (upload is Placed)
                &&& upload is Placed ==> final(self).from == li + 1
                &&& final(self).offered == old(self).offered
                &&& final(self).tally == old(self).tally
            },
            old(self).due() matches PlaceAsk::Projection(li, name) ==> {
                &&& final(self).fused@ == old(self).fused@
                &&& final(self).fusing == old(self).fusing
                &&& final(self).from == old(self).from
                &&& final(self).offered == old(self).offered + 1
                &&& final(self).tally.noted(old(self).tally, li, name@, upload)
            },
            old(self).due() is Done ==> *final(self) == *old(self),
            !(old(self).due() is Done) ==> 0 <= final(self).left() < old(self).left(),
    {
        match self.ask() {
            PlaceAsk::Fused(li) => {
                if keep_placing(upload) {
                    assert(li < self.dense.len());
                    self.fused.push(li);
                    self.from = li + 1;
                } else {
                    self.fusing = false;
                }
            },
            PlaceAsk::Projection(li, name) => {
                assert(self.offered < self.offers.len());
                self.tally.record(li, name.to_owned(), upload);
                self.offered = self.offered + 1;
                proof {
                    let was = old(self).tally.placed@;
                    assert forall|i: int| 0 <= i < self.tally.placed@.len() implies within_pin(
                        self.pinned,
                        (#[trigger] self.tally.placed@[i]).0 as int,
                    ) by {
                        if i < was.len() {
                            assert(was[i] == self.tally.placed@[i]);
                        }
                    }
                }
            },
            PlaceAsk::Done => {},
        }
    }

    /// Whether the tier is kept, once nothing is left to offer.
    pub fn kept(&self) -> (b: bool)
        ensures
            b == (self.fused@.len() + self.tally.placed@.len() > 0),
    {
        dense_tier_kept(self.fused.len(), self.tally.placed.len())
    }
}

/// Under a pin of no layers a tier offers nothing at all, neither feed-forwards
/// nor attention matrices.
pub proof fn lemma_pin_of_none_places_nothing(d: DensePlacement)
    requires
        d.wf(),
        d.pinned == Some(0usize),
    ensures
        d.due() is Done,
        d.fused@.len() == 0,
        d.tally.placed@.len() == 0,
{
    if d.fused@.len() > 0 {
        assert(within_pin(d.pinned, d.fused@[0] as int));
    }
    if d.tally.placed@.len() > 0 {
        assert(within_pin(d.pinned, d.tally.placed@[0].0 as int));
    }
    if d.offered < d.offers@.len() {
        assert(within_pin(d.pinned, d.offers@[d.offered as int].0 as int));
    }
}

/// What a caller asks of a load, over the settings.
#[derive(Clone, Copy, Debug)]
pub struct LoadAsk {
    /// Stream, or do not.
    pub stream: Option<bool>,
    /// The warm cache's budget.
    pub ecache: Option<usize>,
    /// Bypass the page cache, or do not.
    pub direct: Option<bool>,
}

/// The settings a load reads.
#[derive(Clone, Copy, Debug)]
pub struct LoadSettings<'a> {
    /// Whether to stream.
    pub stream: Option<&'a str>,
    /// How many rings.
    pub rings: Option<&'a str>,
    /// Whether to bypass the page cache.
    pub direct: Option<&'a str>,
}

/// What a load has read of the container and the machine.
pub struct LoadFacts {
    /// The container's headers.
    pub tensors: Vec<TensorHeader>,
    /// Some tensor is compressed.
    pub compressed: bool,
    /// The experts take more than their share of memory.
    pub over_share: bool,
    /// Devices the shards span.
    pub n_devices: usize,
    /// Memory the host reports available, zero when unreadable.
    pub host_avail: u64,
    /// The share of it landing buffers may claim.
    pub ring_budget: u64,
    /// Experts each ring may have landing at once.
    pub experts_per_batch: usize,
    /// Workers computing beside the rings.
    pub workers: usize,
    /// The warm cache the settings ask for before anything is resident.
    pub ecache: usize,
    /// Bytes a sequence of the projected length caches.
    pub kv_pool: u64,
    /// The read engine runs on rings.
    pub engine_rings: bool,
    /// The read engine has aligned buffers.
    pub engine_direct: bool,
    /// Some shard opened for direct reads.
    pub has_direct: bool,
}

/// What a load decides before it reads a weight.
pub struct LoadPlan {
    /// Whether experts stream.
    pub stream: StreamChoice,
    /// The largest single read of an expert.
    pub region: usize,
    /// The ring count, for the projection and the construction alike.
    pub rings: usize,
    /// What the memory projection is computed from.
    pub projection: Projection,
    /// Rings built.
    pub reactors: usize,
    /// Whether reads bypass the page cache.
    pub direct: DirectNote,
}

impl LoadFacts {
    /// Experts are there to be streamed.
    pub open spec fn routes(&self) -> bool {
        exists|i: int|
            0 <= i < self.tensors@.len() && container::is_routed(
                (#[trigger] self.tensors@[i]).name@,
            )
    }

    /// What sizing the rings goes by.
    pub open spec fn sizing(&self, region: usize) -> RingSizing {
        RingSizing {
            n_devices: self.n_devices,
            avail_bytes: self.host_avail,
            budget: self.ring_budget,
            experts_per_batch: self.experts_per_batch,
            workers: self.workers,
            per_expert_bytes: region,
        }
    }

    /// The buffers that many rings hold at once.
    pub open spec fn reserve(&self, rings: int, region: int) -> int {
        ram::transient_reserve(
            rings,
            self.experts_per_batch as int,
            self.workers as int,
            4 * region,
        )
    }

    /// The container's sizes can be added up.
    pub open spec fn countable(&self) -> bool {
        &&& 4 * (container::stored_total(self.tensors@) + container::ASSUMED_REGION + 2
            * container::ALIGN) <= usize::MAX
        &&& container::routed_total(self.tensors@) <= usize::MAX
        &&& container::unpacked_total(self.tensors@) <= usize::MAX
    }
}

/// Whether reads bypass the page cache where the settings alone decide.
pub open spec fn direct_set(value: Option<&str>) -> bool {
    knobs::says_on(knobs::setting(value))
}

/// Decides what a load builds, before the first weight is read: from the
/// container's headers, what the machine has, and what was asked. The stream
/// verdict comes first, because everything after it is sized by it.
pub fn load_inner(ask: &LoadAsk, set: &LoadSettings, f: &LoadFacts) -> (p: LoadPlan)
    requires
        f.countable(),
    ensures
        p.stream.stream == (asked_to_stream(ask.stream, knobs::setting(set.stream), f.over_share)
            && !f.compressed && f.routes()),
        p.stream.note == if !asked_to_stream(
            ask.stream,
            knobs::setting(set.stream),
            f.over_share,
        ) {
            StreamNote::AsAsked
        } else if f.compressed {
            StreamNote::Compressed
        } else if !f.routes() {
            StreamNote::NothingToStream
        } else {
            StreamNote::AsAsked
        },
        container::largest_region(f.tensors@, p.region as int),
        sized_rings(
            p.rings as int,
            p.stream.stream,
            knobs::setting(set.rings),
            f.sizing(p.region),
        ),
        p.reactors == if p.stream.stream && f.engine_rings {
            p.rings
        } else {
            0
        },
        p.projection.stream_experts == p.stream.stream,
        p.projection.expert_disk == container::routed_total(f.tensors@),
        p.projection.dense_disk == if container::unpacked_total(f.tensors@)
            > container::routed_total(f.tensors@) {
            container::unpacked_total(f.tensors@) - container::routed_total(f.tensors@)
        } else {
            0
        },
        p.projection.ecache == f.ecache,
        p.projection.stream_transient == if p.stream.stream {
            f.reserve(p.rings as int, p.region as int)
        } else {
            0
        },
        p.projection.kv_pool == f.kv_pool,
        p.projection.buffered_reads == !direct_set(set.direct),
        p.direct == if !(p.stream.stream && match ask.direct {
            Some(d) => d,
            None => direct_set(set.direct),
        }) {
            DirectNote::NotWanted
        } else if f.has_direct && f.engine_direct {
            DirectNote::Enabled
        } else if !f.engine_direct {
            DirectNote::NoAlignedBuffers
        } else {
            DirectNote::Unavailable
        },
        4 * p.region <= usize::MAX,
{
    let stream = choose_stream(
        ask.stream,
        set.stream,
        f.over_share,
        f.compressed,
        container::has_routed_experts(&f.tensors),
    );
    let region: usize = container::max_expert_region_bytes(&f.tensors);
    proof {
        container::lemma_region_bounded(f.tensors@, region as int);
    }
    let sizing = RingSizing {
        n_devices: f.n_devices,
        avail_bytes: f.host_avail,
        budget: f.ring_budget,
        experts_per_batch: f.experts_per_batch,
        workers: f.workers,
        per_expert_bytes: region,
    };
    let rings: usize = choose_rings(stream.stream, set.rings, &sizing);
    let reserve: usize = ram::stream_transient_reserve(
        rings,
        f.experts_per_batch,
        f.workers,
        4 * region,
    );
    let projection = project(
        container::unpacked_bytes(&f.tensors) as u64,
        container::routed_bytes(&f.tensors) as u64,
        stream.stream,
        f.ecache as u64,
        reserve as u64,
        f.kv_pool,
        knobs::opted_in(set.direct),
    );
    let reactors: usize = if stream.stream && f.engine_rings {
        rings
    } else {
        0
    };
    let direct = choose_direct(ask.direct, set.direct, stream.stream, f.has_direct, f.engine_direct);
    LoadPlan { stream, region, rings, projection, reactors, direct }
}

/// What the settings and the machine say once the weights are in memory.
#[derive(Clone, Copy, Debug)]
pub struct AfterWeights {
    /// The warm cache the settings ask for now.
    pub ecache: usize,
    /// Memory available to this process now, what is resident already taken
    /// from it.
    pub mem_available: usize,
}

/// Sizes the warm cache, after the weights are in memory and before the first
/// forward: what was asked for, as far as it fits beside the buffers of the
/// rings that were built.
pub fn load_cache(ask: &LoadAsk, f: &LoadFacts, p: &LoadPlan, now: &AfterWeights) -> (c: CacheChoice)
    requires
        4 * p.region <= usize::MAX,
    ensures
        c.budget == granted(
            match ask.ecache {
                Some(b) => b,
                None => now.ecache,
            },
            p.stream.stream,
            now.mem_available,
            f.reserve(p.reactors as int, p.region as int),
        ),
        c.build == (p.stream.stream && c.budget > 0),
{
    let held: usize = ram::stream_transient_reserve(
        p.reactors,
        f.experts_per_batch,
        f.workers,
        4 * p.region,
    );
    choose_cache(ask.ecache, now.ecache, p.stream.stream, now.mem_available, held)
}

/// Why a load is refused before a weight is read.
pub enum LoadError {
    /// The machine cannot hold it, in the words of the memory verdict.
    Memory(String),
}

/// Lets a load go on, or refuses it: `refusal` is the memory verdict on the
/// plan's projection, `None` where the machine can hold it. A refused load
/// builds nothing.
pub fn preflight(plan: LoadPlan, refusal: Option<String>) -> (r: Result<LoadPlan, LoadError>)
    ensures
        r is Ok <==> refusal is None,
        r is Ok ==> r->Ok_0 == plan,
        r is Err ==> r->Err_0 == LoadError::Memory(refusal->0),
{
    match refusal {
        None => Ok(plan),
        Some(words) => Err(LoadError::Memory(words)),
    }
}

/// What a load projects for its streaming buffers covers what it then builds: it
/// never passes its own preflight for fewer rings than it opens.
pub proof fn lemma_projection_covers_construction(f: LoadFacts, rings: int, reactors: int, region: int)
    requires
        0 <= reactors <= rings,
        0 <= region,
    ensures
        f.reserve(reactors, region) <= f.reserve(rings, region),
{
    if reactors < rings {
        ram::lemma_reserve_grows_with_rings(
            reactors,
            rings,
            f.experts_per_batch as int,
            f.workers as int,
            4 * region,
        );
    }
}

/// An explicit choice decides whether to stream; without one the setting does,
/// where it spells on or off; otherwise whether the experts take more than their
/// share.
pub proof fn lemma_who_decides_to_stream(choice: bool, v: Seq<char>, over_share: bool)
    ensures
        asked_to_stream(Some(choice), Some(v), over_share) == choice,
        asked_to_stream(Some(choice), None, over_share) == choice,
        v == "1"@ || v == "true"@ ==> asked_to_stream(None, Some(v), over_share),
        v == "0"@ || v == "false"@ ==> !asked_to_stream(None, Some(v), over_share),
        v != "1"@ && v != "true"@ && v != "0"@ && v != "false"@ ==> asked_to_stream(
            None,
            Some(v),
            over_share,
        ) == over_share,
        asked_to_stream(None, None, over_share) == over_share,
        direct_set(Some("1")),
        direct_set(Some("true")),
        !direct_set(None),
{
    knobs::lemma_switch_spellings(v);
}

/// A granted cache is the request where it fits beside the buffers and the margin,
/// and otherwise what exactly fills the memory up to them; where not even the
/// margin fits it is nothing. More memory never grants less. A resident model's
/// request is not cut.
pub proof fn lemma_granted_fills_what_is_left(want: usize, mem: usize, more: usize, reserve: int)
    requires
        0 <= reserve,
        mem <= more,
    ensures
        granted(want, false, mem, reserve) == want,
        0 <= granted(want, true, mem, reserve) <= want,
        granted(want, true, mem, reserve) > 0 ==> granted(want, true, mem, reserve) + reserve
            + CACHE_SAFETY <= mem,
        granted(want, true, mem, reserve) < want && mem >= reserve + CACHE_SAFETY ==> granted(
            want,
            true,
            mem,
            reserve,
        ) + reserve + CACHE_SAFETY == mem,
        want + reserve + CACHE_SAFETY <= mem ==> granted(want, true, mem, reserve) == want,
        granted(want, true, mem, reserve) <= granted(want, true, more, reserve),
{
}

/// The next dense layer is the first from `from` on that has a feed-forward and
/// that the pin lets through; there is none exactly where none is left to find.
pub proof fn lemma_dense_from_is_first(dense: Seq<bool>, pinned: Option<usize>, from: int)
    requires
        0 <= from,
    ensures
        ({
            let r = dense_from(dense, pinned, from);
            &&& r is Some ==> from <= r->0 < dense.len() && dense[r->0]
            &&& r is Some && pinned is Some ==> r->0 < pinned->0
            &&& r is Some ==> forall|k: int| from <= k < r->0 ==> !#[trigger] dense[k]
            &&& r is None ==> forall|k: int|
                from <= k < dense.len() && #[trigger] dense[k] ==> pinned is Some && k >= pinned->0
        }),
    decreases dense.len() - from,
{
    if !(from >= dense.len() || !within_pin(pinned, from)) && !dense[from] {
        lemma_dense_from_is_first(dense, pinned, from + 1);
    }
}

/// Exactly the attention matrices of the layers before the pin are offered, each
/// under its layer, and a layer's come in the order of its names behind those of
/// the layers before it.
pub proof fn lemma_offers_are_the_pinned_layers_matrices(
    attn: Seq<Attn>,
    pinned: Option<usize>,
    n: int,
    li: int,
    name: Seq<char>,
)
    requires
        0 <= n <= attn.len(),
    ensures
        projection_offers(attn, pinned, n).contains((li, name)) <==> 0 <= li < n && (pinned is Some
            ==> li < pinned->0) && layers::projection_names(attn[li]).contains(name),
        forall|i: int, j: int|
            0 <= i < j < projection_offers(attn, pinned, n).len() ==> projection_offers(
                attn,
                pinned,
                n,
            )[i].0 <= projection_offers(attn, pinned, n)[j].0,
        pinned is Some && pinned->0 <= n ==> projection_offers(attn, pinned, n)
            == projection_offers(attn, None, pinned->0 as int),
        pinned is None && n > 0 ==> projection_offers(attn, pinned, n).len() == projection_offers(
            attn,
            pinned,
            n - 1,
        ).len() + layers::projection_names(attn[n - 1]).len(),
    decreases n,
{
    if n > 0 {
        let m = n - 1;
        lemma_offers_are_the_pinned_layers_matrices(attn, pinned, m, li, name);
        let init = projection_offers(attn, pinned, m);
        let last = layer_offers(m, attn[m]);
        let all = projection_offers(attn, pinned, n);
        let names = layers::projection_names(attn[m]);
        assert forall|i: int| 0 <= i < init.len() implies (#[trigger] init[i]).0 < m by {
            lemma_offered_layers(attn, pinned, m, i);
        }
        if within_pin(pinned, m) {
            if all.contains((li, name)) {
                let i = choose|i: int| 0 <= i < all.len() && all[i] == (li, name);
                if i < init.len() {
                    assert(init[i] == (li, name));
                    assert(init.contains((li, name)));
                } else {
                    assert(last[i - init.len()] == (li, name));
                    assert(names[i - init.len()] == name);
                    assert(names.contains(name));
                }
            }
            if init.contains((li, name)) {
                let i = choose|i: int| 0 <= i < init.len() && init[i] == (li, name);
                assert(all[i] == (li, name));
            }
            if li == m && names.contains(name) {
                let k = choose|k: int| 0 <= k < names.len() && names[k] == name;
                assert(last[k] == (li, name));
                assert(all[init.len() + k] == (li, name));
            }
            assert forall|i: int, j: int| 0 <= i < j < all.len() implies all[i].0 <= all[j].0 by {
                if j < init.len() {
                    assert(init[i].0 <= init[j].0);
                } else if i < init.len() {
                    assert(all[i] == init[i]);
                }
            }
        } else {
            assert(all =~= init);
        }
        if pinned is Some && pinned->0 == n {
            lemma_pin_past_the_end(attn, pinned, n);
        }
    }
}

proof fn lemma_offered_layers(attn: Seq<Attn>, pinned: Option<usize>, n: int, i: int)
    requires
        0 <= n <= attn.len(),
        0 <= i < projection_offers(attn, pinned, n).len(),
    ensures
        0 <= projection_offers(attn, pinned, n)[i].0 < n,
    decreases n,
{
    if n > 0 {
        let init = projection_offers(attn, pinned, n - 1);
        if i < init.len() {
            lemma_offered_layers(attn, pinned, n - 1, i);
        }
    }
}

proof fn lemma_pin_past_the_end(attn: Seq<Attn>, pinned: Option<usize>, n: int)
    requires
        pinned is Some,
        0 <= n <= pinned->0,
    ensures
        projection_offers(attn, pinned, n) == projection_offers(attn, None, n),
    decreases n,
{
    if n > 0 {
        lemma_pin_past_the_end(attn, pinned, n - 1);
    }
}

/// Feed-forwards are offered before any attention matrix, as long as none has been
/// turned down; then the matrices, each once and in their order; then nothing.
pub proof fn lemma_what_is_offered_when(d: DensePlacement)
    requires
        d.wf(),
    ensures
        d.due() is Fused ==> {
            let li = d.due()->Fused_0 as int;
            &&& d.fusing
            &&& d.from <= li < d.dense@.len()
            &&& d.dense@[li]
            &&& d.pinned is Some ==> li < d.pinned->0
            &&& forall|k: int| d.from <= k < li ==> !#[trigger] d.dense@[k]
        },
        d.due() is Projection ==> {
            &&& d.offered < d.offers@.len()
            &&& d.due()->Projection_0 == d.offers@[d.offered as int].0
            &&& d.due()->Projection_1 == d.offers@[d.offered as int].1
        },
        !(d.due() is Fused) && d.fusing ==> forall|k: int|
            d.from <= k < d.dense@.len() && #[trigger] d.dense@[k] ==> d.pinned is Some && k
                >= d.pinned->0,
        d.due() is Done ==> d.offered == d.offers@.len(),
{
    lemma_dense_from_is_first(d.dense@, d.pinned, d.from as int);
    assert(d.dense@.len() == d.dense.len());
}

/// The ring count is settled: the explicit one where the setting names one, the
/// default where nothing streams, one per device where memory could not be read,
/// and otherwise the largest that stays within its budget, from the default up.
pub proof fn lemma_rings_are_settled(
    a: int,
    b: int,
    stream: bool,
    value: Option<Seq<char>>,
    sizing: RingSizing,
)
    ensures
        sized_rings(a, stream, value, sizing) && sized_rings(b, stream, value, sizing) ==> a == b,
        sized_rings(a, stream, value, sizing) && ram::explicit_rings(value) is Some ==> a
            == ram::explicit_rings(value)->0,
        sized_rings(a, stream, value, sizing) && ram::explicit_rings(value) is None && !stream ==> a
            == 4,
        sized_rings(a, stream, value, sizing) && ram::explicit_rings(value) is None && stream
            ==> 4 <= a <= sizing.wanted(),
        sized_rings(a, stream, value, sizing) && ram::explicit_rings(value) is None && stream && (
        sizing.avail_bytes == 0 || sizing.fits(sizing.wanted())) ==> a == sizing.wanted(),
        sized_rings(a, stream, value, sizing) && ram::explicit_rings(value) is None && stream && a
            > 4 && sizing.avail_bytes > 0 ==> sizing.fits(a),
        sized_rings(a, stream, value, sizing) && ram::explicit_rings(value) is None && stream && a
            < b <= sizing.wanted() && sizing.avail_bytes > 0 ==> !sizing.fits(b),
{
    ram::lemma_ring_sizing(sizing, 0, 0);
}

/// Every attempt is noted once, under its layer and name: as placed, with the
/// bytes it took, or as skipped, with no bytes. What was noted before stays.
pub proof fn lemma_every_attempt_is_noted_once(
    before: PlacementTally,
    after: PlacementTally,
    li: usize,
    name: Seq<char>,
    upload: Upload,
)
    requires
        after.noted(before, li, name, upload),
    ensures
        after.placed@.len() + after.skipped@.len() == before.placed@.len() + before.skipped@.len()
            + 1,
        before.placed@.is_prefix_of(after.placed@),
        before.skipped@.is_prefix_of(after.skipped@),
        upload is Placed <==> after.placed@.len() > before.placed@.len(),
        upload matches Upload::Placed(b) ==> after.device_bytes - before.device_bytes == b
            && after.placed@.last().0 == li && after.placed@.last().1@ == name,
        !(upload is Placed) ==> after.device_bytes == before.device_bytes && after.skipped@.last().0
            == li && after.skipped@.last().1@ == name,
        upload == Upload::Failed ==> after.skipped@.last().2,
        upload == Upload::NoRoom ==> !after.skipped@.last().2,
        after.matmul_total == before.matmul_total,
{
    if upload is Placed {
        assert(after.placed@ =~= after.placed@.drop_last().push(after.placed@.last()));
    } else {
        assert(after.skipped@ =~= after.skipped@.drop_last().push(after.skipped@.last()));
    }
}

/// A pin of `n` layers covers the first `n` and no other; without a pin every
/// layer is covered.
pub proof fn lemma_what_a_pin_covers(n: usize, li: int)
    ensures
        within_pin(Some(n), li) <==> li < n,
        within_pin(None, li),
{
}

} // verus!
