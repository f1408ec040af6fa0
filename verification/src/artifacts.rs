//! The files beside a checkpoint that carry what earlier runs learned: what of
//! them is believed, and what of it is used. None can change a token; each only
//! changes which reads happen when.

use vstd::prelude::*;

use crate::cfg;
use crate::cfg::Cfg;
use crate::json;
use crate::json::Doc;
use crate::json::Json;
use crate::knobs;
use crate::prefetch::ExpertKey;
use crate::prefetch::WarmBatch;
use crate::text;

verus! {

/// What reading an optional file came to.
pub enum ArtifactRead {
    /// There is no such file.
    Absent,
    /// There is one and it cannot be read.
    Unreadable,
    /// Its bytes.
    Bytes(Vec<u8>),
}

/// What to tell the operator of an optional file.
#[derive(Clone, Copy, Debug, PartialEq, Eq, Structural)]
pub enum ArtifactNote {
    /// It is there and cannot be read.
    Unreadable,
    /// It is there and is no document.
    Malformed,
}

/// An optional file's document, and what to say when there is none.
pub struct Artifact {
    /// Its document.
    pub doc: Option<Json>,
    /// What to tell the operator.
    pub note: Option<ArtifactNote>,
}

/// Reads an optional file. An absent one is the normal case and passes in
/// silence; one that is there and of no use is ignored too, but said to be.
pub fn read_optional_artifact(read: ArtifactRead) -> (a: Artifact)
    ensures
        a.doc is Some <==> read is Bytes && json::parsed(read->Bytes_0@) is Some,
        a.doc is Some ==> (a.doc->0).doc() == json::parsed(read->Bytes_0@)->0,
        a.note == match read {
            ArtifactRead::Absent => None,
            ArtifactRead::Unreadable => Some(ArtifactNote::Unreadable),
            ArtifactRead::Bytes(b) => if json::parsed(b@) is Some {
                None
            } else {
                Some(ArtifactNote::Malformed)
            },
        },
{
    match read {
        ArtifactRead::Absent => Artifact { doc: None, note: None },
        ArtifactRead::Unreadable => Artifact { doc: None, note: Some(ArtifactNote::Unreadable) },
        ArtifactRead::Bytes(b) => match json::parse_document(b.as_slice()) {
            Some(doc) => Artifact { doc: Some(doc), note: None },
            None => Artifact { doc: None, note: Some(ArtifactNote::Malformed) },
        },
    }
}

/// A document says it was written for a model of this shape.
pub open spec fn written_for(d: Doc, tag: Seq<char>) -> bool {
    json::member_of(d, "tag"@) == Some(Doc::Text(tag))
}

fn is_written_for(doc: &Json, tag: &str) -> (b: bool)
    ensures
        b == written_for(doc.doc(), tag@),
{
    match doc.member("tag") {
        Some(t) => t.is_text(tag),
        None => false,
    }
}

/// Whether a table that carries its own fingerprint is taken up.
pub fn adopts(table_tag: Option<&str>, c: &Cfg) -> (b: bool)
    ensures
        b == (knobs::setting(table_tag) == Some(cfg::tag_of(*c))),
{
    match table_tag {
        Some(t) => text::same_text(t, cfg::config_tag(c).as_str()),
        None => false,
    }
}

/// The counts among the first `n` entries, in order; what is no count is left
/// out, and a count keeps its low 32 bits.
pub open spec fn counts(v: Seq<Doc>, n: nat) -> Seq<u32>
    decreases n,
{
    if n == 0 {
        seq![]
    } else {
        let head = counts(v, (n - 1) as nat);
        match json::unsigned_of(v[n - 1]) {
            Some(u) => head.push(u as u32),
            None => head,
        }
    }
}

fn read_counts(v: &Vec<Json>) -> (out: Vec<u32>)
    ensures
        out@ == counts(Seq::new(v@.len(), |i: int| v@[i].doc()), v@.len()),
{
    let ghost ds = Seq::new(v@.len(), |i: int| v@[i].doc());
    let mut out: Vec<u32> = Vec::new();
    let mut i: usize = 0;
    while i < v.len()
        invariant
            i <= v@.len(),
            ds == Seq::new(v@.len(), |k: int| v@[k].doc()),
            out@ == counts(ds, i as nat),
        decreases v@.len() - i,
    {
        assert(ds[i as int] == v@[i as int].doc());
        match v[i].as_u64() {
            Some(u) => {
                out.push(#[verifier::truncate] (u as u32));
            },
            None => {},
        }
        i = i + 1;
    }
    out
}

/// Counts a model's heat table holds: a row of experts for every layer, and one
/// for the draft head, which routes a full set of its own.
pub open spec fn heat_slots(c: Cfg) -> int {
    (c.n_layers + 1) * c.n_experts
}

/// The heat a document restores for a model: none unless it was written for that
/// shape and fills the model's table exactly, since any other would put every
/// count on the wrong expert.
pub open spec fn heat_of(d: Doc, c: Cfg) -> Seq<u32> {
    if !written_for(d, cfg::tag_of(c)) {
        seq![]
    } else {
        match json::member_of(d, "heat"@) {
            Some(Doc::List(v)) => if counts(v, v.len()).len() == heat_slots(c) {
                counts(v, v.len())
            } else {
                seq![]
            },
            _ => seq![],
        }
    }
}

/// Whether `n` counts fill a model's heat table. A table too large to count is
/// filled by none.
fn fills_table(n: usize, c: &Cfg) -> (b: bool)
    ensures
        b ==> n == heat_slots(*c),
        !b && n > 0 ==> n != heat_slots(*c),
{
    match c.n_layers.checked_add(1) {
        Some(rows) => match rows.checked_mul(c.n_experts) {
            Some(slots) => n == slots,
            None => false,
        },
        None => {
            proof {
                if c.n_experts > 0 {
                    assert(heat_slots(*c) >= c.n_layers + 1) by (nonlinear_arith)
                        requires
                            heat_slots(*c) == (c.n_layers + 1) * c.n_experts,
                            c.n_experts >= 1,
                    ;
                } else {
                    assert(heat_slots(*c) == 0) by (nonlinear_arith)
                        requires
                            heat_slots(*c) == (c.n_layers + 1) * c.n_experts,
                            c.n_experts == 0,
                    ;
                }
            }
            false
        },
    }
}

/// The heat an earlier run left, before there is a model: it decides what lands
/// on a device first. Nothing where persistence is off or there is no document.
/// Expert `e` of layer `l` is entry `l * n_experts + e`; the draft head's row is
/// the last.
pub fn peek_persisted_heat(persist: bool, doc: Option<&Json>, c: &Cfg) -> (heat: Vec<u32>)
    ensures
        !persist || doc is None ==> heat@.len() == 0,
        persist && doc is Some ==> heat@ == heat_of((*doc->0).doc(), *c),
{
    let doc: &Json = match doc {
        Some(d) => d,
        None => {
            return Vec::new();
        },
    };
    if !persist || !is_written_for(doc, cfg::config_tag(c).as_str()) {
        return Vec::new();
    }
    match doc.member("heat") {
        Some(h) => match h.as_array() {
            Some(v) => {
                let snap = read_counts(v);
                if fills_table(snap.len(), c) {
                    snap
                } else {
                    assert(snap@.len() == 0 ==> snap@ =~= Seq::<u32>::empty());
                    Vec::new()
                }
            },
            None => Vec::new(),
        },
        None => Vec::new(),
    }
}

/// What to do with a document's heat.
pub enum HeatRestore {
    /// Nothing: there is none, or nothing to put it in.
    Leave,
    /// Restore these counts.
    Restore(Vec<u32>),
    /// Say that it has another shape than the table.
    Misshapen,
}

/// What of an earlier run's statistics is restored.
pub struct StatsRestore {
    /// The document was written for another model: say so.
    pub foreign: bool,
    /// Offer its routing history.
    pub hist: bool,
    /// Its heat.
    pub heat: HeatRestore,
    /// Offer its co-activation counts.
    pub coact: bool,
    /// Offer its learned policy.
    pub learn: bool,
}

/// A document has a member of that name.
pub open spec fn has_member(d: Doc, key: Seq<char>) -> bool {
    json::member_of(d, key) is Some
}

/// A document's heat counts, where it has a list of them.
pub open spec fn listed_heat(d: Doc) -> Option<Seq<u32>> {
    match json::member_of(d, "heat"@) {
        Some(Doc::List(v)) => Some(counts(v, v.len())),
        _ => None,
    }
}

/// Decides what of an earlier run's statistics is restored. One gate for the
/// whole document: a model of another shape starts cold. `slots` is the size of
/// the heat table, where there is one.
pub fn try_load_route_stats(
    persist: bool,
    doc: Option<&Json>,
    c: &Cfg,
    history: bool,
    slots: Option<usize>,
    learner: bool,
) -> (r: StatsRestore)
    ensures
        !persist || doc is None ==> !r.foreign && !r.hist && r.heat is Leave && !r.coact && !r.learn,
        persist && doc is Some ==> {
            let d = (*doc->0).doc();
            let ours = written_for(d, cfg::tag_of(*c));
            &&& r.foreign == (!ours && has_member(d, "tag"@))
            &&& r.hist == (ours && history && has_member(d, "hist"@))
            &&& r.coact == (ours && has_member(d, "coact"@))
            &&& r.learn == (ours && learner && has_member(d, "learn"@) && json::member_of(d, "learn"@)
                != Some(Doc::Null))
            &&& r.heat is Leave <==> !ours || slots is None || listed_heat(d) is None
            &&& r.heat is Restore <==> ours && slots is Some && listed_heat(d) is Some
                && listed_heat(d)->0.len() == slots->0
            &&& r.heat is Restore ==> r.heat->Restore_0@ == listed_heat(d)->0
        },
{
    let off = StatsRestore {
        foreign: false,
        hist: false,
        heat: HeatRestore::Leave,
        coact: false,
        learn: false,
    };
    let doc: &Json = match doc {
        Some(d) => d,
        None => {
            return off;
        },
    };
    if !persist {
        return off;
    }
    if !is_written_for(doc, cfg::config_tag(c).as_str()) {
        return StatsRestore { foreign: doc.member("tag").is_some(), ..off };
    }
    let heat = match (slots, doc.member("heat")) {
        (Some(n), Some(h)) => match h.as_array() {
            Some(v) => {
                let snap = read_counts(v);
                if snap.len() == n {
                    HeatRestore::Restore(snap)
                } else {
                    HeatRestore::Misshapen
                }
            },
            None => HeatRestore::Leave,
        },
        _ => HeatRestore::Leave,
    };
    let learn = match doc.member("learn") {
        Some(l) => learner && !l.is_null(),
        None => false,
    };
    StatsRestore {
        foreign: false,
        hist: history && doc.member("hist").is_some(),
        heat,
        coact: doc.member("coact").is_some(),
        learn,
    }
}

/// The statistics a run leaves for the next, part by part. Each part that an
/// outside structure renders is of type `T`.
pub struct RouteStats<T> {
    /// The fingerprint of the model's shape.
    pub tag: String,
    /// The routing history.
    pub hist: T,
    /// The heat counts, where heat is kept.
    pub heat: Option<Vec<u32>>,
    /// The co-activation counts.
    pub coact: T,
    /// The learned policy, where one is learned.
    pub learn: Option<T>,
}

/// Assembles what a run leaves for the next: nothing where persistence is off or
/// no history is kept.
pub fn save_route_stats<T>(
    persist: bool,
    hist: Option<T>,
    c: &Cfg,
    heat: Option<Vec<u32>>,
    coact: T,
    learn: Option<T>,
) -> (s: Option<RouteStats<T>>)
    ensures
        s is Some <==> persist && hist is Some,
        s is Some ==> {
            let st = s->0;
            &&& st.tag@ == cfg::tag_of(*c)
            &&& st.hist == hist->0
            &&& st.heat == heat
            &&& st.coact == coact
            &&& st.learn == learn
        },
{
    match hist {
        Some(h) => if persist {
            Some(RouteStats { tag: cfg::config_tag(c), hist: h, heat, coact, learn })
        } else {
            None
        },
        None => None,
    }
}

/// A part that may be missing, as a document.
pub open spec fn part_doc(part: Option<serde_json::Value>) -> Doc {
    match part {
        Some(v) => json::document(v),
        None => Doc::Null,
    }
}

/// Counts that may be missing, as a document.
pub open spec fn heat_doc(heat: Option<Vec<u32>>) -> Doc {
    match heat {
        Some(h) => Doc::List(Seq::new(h@.len(), |i: int| json::count_doc(h@[i]))),
        None => Doc::Null,
    }
}

/// The document holds these statistics, each part under its name.
pub open spec fn renders(d: Doc, s: RouteStats<serde_json::Value>) -> bool {
    &&& json::member_of(d, "tag"@) == Some(Doc::Text(s.tag@))
    &&& json::member_of(d, "hist"@) == Some(json::document(s.hist))
    &&& json::member_of(d, "heat"@) == Some(heat_doc(s.heat))
    &&& json::member_of(d, "coact"@) == Some(json::document(s.coact))
    &&& json::member_of(d, "learn"@) == Some(part_doc(s.learn))
}

/// The bytes spell these statistics: no other document is read from them.
pub open spec fn spells(bytes: Seq<u8>, s: RouteStats<serde_json::Value>) -> bool {
    json::parsed(bytes) is Some ==> renders(json::parsed(bytes)->0, s)
}

/// The parts that outside structures rendered are read back whatever they hold.
pub open spec fn plain_parts(s: RouteStats<serde_json::Value>) -> bool {
    let room = (json::DEPTH - 1) as nat;
    &&& json::plain(json::document(s.hist), room)
    &&& json::plain(json::document(s.coact), room)
    &&& json::plain(part_doc(s.learn), room)
}

/// Writes what a run leaves for the next, as bytes.
pub fn stats_json(s: RouteStats<serde_json::Value>) -> (bytes: Vec<u8>)
    ensures
        spells(bytes@, s),
        plain_parts(s) ==> json::parsed(bytes@) is Some,
{
    let ghost all = s;
    let RouteStats { tag, hist, heat, coact, learn } = s;
    let heat_part = match heat {
        Some(h) => json::counts_value(h),
        None => json::null_value(),
    };
    let learn_part = match learn {
        Some(v) => v,
        None => json::null_value(),
    };
    let mut m: Vec<(String, serde_json::Value)> = Vec::new();
    m.push(("tag".to_owned(), json::text_value(tag)));
    m.push(("hist".to_owned(), hist));
    m.push(("heat".to_owned(), heat_part));
    m.push(("coact".to_owned(), coact));
    m.push(("learn".to_owned(), learn_part));
    let ghost names = json::named(m@);
    proof {
        reveal_strlit("tag");
        reveal_strlit("hist");
        reveal_strlit("heat");
        reveal_strlit("coact");
        reveal_strlit("learn");
        assert("hist"@[1] != "heat"@[1]);
        assert("coact"@[0] != "learn"@[0]);
        assert(json::distinct_names(names));
    }
    let v = json::object_value(m);
    proof {
        let d = json::document(v);
        let ds = d->Object_0;
        json::lemma_members_found(ds, names);
        assert(names[0] == ("tag"@, Doc::Text(all.tag@)));
        assert(names[1] == ("hist"@, json::document(all.hist)));
        assert(names[2] == ("heat"@, heat_doc(all.heat)));
        assert(names[3] == ("coact"@, json::document(all.coact)));
        assert(names[4] == ("learn"@, part_doc(all.learn)));
        assert(renders(d, all));
        if plain_parts(all) {
            let room = (json::DEPTH - 1) as nat;
            assert(json::plain(Doc::Text(all.tag@), room));
            assert(json::plain(heat_doc(all.heat), room)) by {
                reveal_with_fuel(json::plain, 2);
            }
            assert forall|k: int| 0 <= k < ds.len() implies json::plain(
                (#[trigger] ds[k]).1,
                room,
            ) by {
                assert(names.contains(ds[k]));
                let j = choose|j: int| 0 <= j < names.len() && names[j] == ds[k];
                assert(j == 0 || j == 1 || j == 2 || j == 3 || j == 4);
            }
            assert(json::plain(d, json::DEPTH as nat));
        }
    }
    json::render(&v)
}

proof fn lemma_counts_of_numbers(h: Seq<u32>, n: nat)
    requires
        n <= h.len(),
    ensures
        counts(Seq::new(h.len(), |i: int| json::count_doc(h[i])), n) == h.subrange(0, n as int),
    decreases n,
{
    if n > 0 {
        lemma_counts_of_numbers(h, (n - 1) as nat);
    }
    assert(counts(Seq::new(h.len(), |i: int| json::count_doc(h[i])), n) =~= h.subrange(0, n as int));
}

/// The heat a run wrote is the heat the next run of the same shape starts from,
/// count by count, and the same bytes restore the whole table of that run.
pub proof fn lemma_saved_heat_reads_back(bytes: Seq<u8>, s: RouteStats<serde_json::Value>, c: Cfg)
    requires
        spells(bytes, s),
        s.tag@ == cfg::tag_of(c),
        s.heat is Some,
        s.heat->0@.len() == heat_slots(c),
    ensures
        json::parsed(bytes) is Some ==> heat_of(json::parsed(bytes)->0, c) == s.heat->0@,
        json::parsed(bytes) is Some ==> listed_heat(json::parsed(bytes)->0) == Some(s.heat->0@),
{
    let h = s.heat->0@;
    lemma_counts_of_numbers(h, h.len());
    assert(h.subrange(0, h.len() as int) =~= h);
}

/// A model of another shape never starts from it.
pub proof fn lemma_foreign_heat_is_ignored(
    bytes: Seq<u8>,
    s: RouteStats<serde_json::Value>,
    a: Cfg,
    b: Cfg,
)
    requires
        spells(bytes, s),
        s.tag@ == cfg::tag_of(a),
        (a.n_layers, a.n_experts, a.hidden, a.moe_inter, a.first_dense, a.vocab) != (
            b.n_layers,
            b.n_experts,
            b.hidden,
            b.moe_inter,
            b.first_dense,
            b.vocab,
        ),
    ensures
        json::parsed(bytes) is Some ==> heat_of(json::parsed(bytes)->0, b).len() == 0,
{
    if cfg::tag_of(a) == cfg::tag_of(b) {
        cfg::lemma_tag_identifies_shape(a, b);
    }
}

/// The expert ids among the first `n` entries of a schedule's row; negative ones
/// are left out, and anything but an integer makes the row unreadable.
pub open spec fn row_of(ids: Seq<Doc>, n: nat) -> Option<Seq<u32>>
    decreases n,
{
    if n == 0 {
        Some(seq![])
    } else {
        match (row_of(ids, (n - 1) as nat), json::signed_of(ids[n - 1])) {
            (Some(row), Some(id)) => if id < 0 {
                Some(row)
            } else {
                Some(row.push(id as u32))
            },
            _ => None,
        }
    }
}

/// The first `n` rows of a schedule, if they can be read.
pub open spec fn rows_of(rows: Seq<Doc>, n: nat) -> Option<Seq<Seq<u32>>>
    decreases n,
{
    if n == 0 {
        Some(seq![])
    } else {
        match (rows_of(rows, (n - 1) as nat), rows[n - 1]) {
            (Some(head), Doc::List(ids)) => match row_of(ids, ids.len()) {
                Some(row) => Some(head.push(row)),
                None => None,
            },
            _ => None,
        }
    }
}

/// The schedule a document holds: version one, every row readable.
pub open spec fn schedule_of(d: Doc) -> Option<Seq<Seq<u32>>> {
    match (json::member_of(d, "version"@), json::member_of(d, "order"@)) {
        (Some(version), Some(Doc::List(rows))) => if json::unsigned_of(version) == Some(1u64) {
            rows_of(rows, rows.len())
        } else {
            None
        },
        _ => None,
    }
}

proof fn lemma_row_stays_unreadable(ids: Seq<Doc>, k: nat, n: nat)
    requires
        row_of(ids, k) is None,
        k <= n,
    ensures
        row_of(ids, n) is None,
    decreases n,
{
    if k < n {
        lemma_row_stays_unreadable(ids, k, (n - 1) as nat);
    }
}

proof fn lemma_rows_stay_unreadable(rows: Seq<Doc>, k: nat, n: nat)
    requires
        rows_of(rows, k) is None,
        k <= n,
    ensures
        rows_of(rows, n) is None,
    decreases n,
{
    if k < n {
        lemma_rows_stay_unreadable(rows, k, (n - 1) as nat);
    }
}

fn parse_row(v: &Vec<Json>) -> (row: Option<Vec<u32>>)
    ensures
        ({
            let ds = Seq::new(v@.len(), |i: int| v@[i].doc());
            &&& row is Some <==> row_of(ds, ds.len()) is Some
            &&& row is Some ==> (row->0)@ == row_of(ds, ds.len())->0
        }),
{
    let ghost ds = Seq::new(v@.len(), |i: int| v@[i].doc());
    let mut row: Vec<u32> = Vec::new();
    let mut i: usize = 0;
    while i < v.len()
        invariant
            i <= v@.len(),
            ds == Seq::new(v@.len(), |k: int| v@[k].doc()),
            row_of(ds, i as nat) == Some(row@),
        decreases v@.len() - i,
    {
        assert(ds[i as int] == v@[i as int].doc());
        match v[i].as_i64() {
            Some(id) => {
                if id >= 0 {
                    row.push(#[verifier::truncate] (id as u32));
                }
            },
            None => {
                proof {
                    lemma_row_stays_unreadable(ds, (i + 1) as nat, ds.len());
                }
                return None;
            },
        }
        i = i + 1;
    }
    Some(row)
}

/// Rows of ids as sequences.
pub open spec fn id_rows(v: Seq<Vec<u32>>) -> Seq<Seq<u32>> {
    Seq::new(v.len(), |i: int| v[i]@)
}

/// Reads the order in which each layer's experts lie on disk. Anything off makes
/// the whole document unusable, and experts then go in their own order.
pub fn parse_schedule_value(doc: &Json) -> (order: Option<Vec<Vec<u32>>>)
    ensures
        order is Some <==> schedule_of(doc.doc()) is Some,
        order is Some ==> id_rows((order->0)@) == schedule_of(doc.doc())->0,
{
    let one = match doc.member("version") {
        Some(v) => match v.as_u64() {
            Some(n) => n == 1,
            None => false,
        },
        None => false,
    };
    if !one {
        return None;
    }
    let rows: &Vec<Json> = match doc.member("order") {
        Some(o) => match o.as_array() {
            Some(v) => v,
            None => {
                return None;
            },
        },
        None => {
            return None;
        },
    };
    let ghost ds = Seq::new(rows@.len(), |k: int| rows@[k].doc());
    let mut out: Vec<Vec<u32>> = Vec::new();
    let mut i: usize = 0;
    assert(id_rows(out@) =~= seq![]);
    while i < rows.len()
        invariant
            i <= rows@.len(),
            ds == Seq::new(rows@.len(), |k: int| rows@[k].doc()),
            schedule_of(doc.doc()) == rows_of(ds, ds.len()),
            rows_of(ds, i as nat) == Some(id_rows(out@)),
        decreases rows@.len() - i,
    {
        assert(ds[i as int] == rows@[i as int].doc());
        let row: Option<Vec<u32>> = match rows[i].as_array() {
            Some(ids) => parse_row(ids),
            None => None,
        };
        match row {
            Some(row) => {
                let ghost before = id_rows(out@);
                let ghost r = row@;
                out.push(row);
                assert(id_rows(out@) =~= before.push(r));
            },
            None => {
                proof {
                    lemma_rows_stay_unreadable(ds, (i + 1) as nat, ds.len());
                }
                return None;
            },
        }
        i = i + 1;
    }
    Some(out)
}

/// Reads the layout schedule beside a checkpoint. Unless the setting turns it
/// off; a missing or unusable file passes in silence.
pub fn load_layout_schedule(value: Option<&str>, read: ArtifactRead) -> (order: Option<Vec<Vec<u32>>>)
    ensures
        ({
            let usable = !knobs::says_off(knobs::setting(value)) && read is Bytes && json::parsed(
                read->Bytes_0@,
            ) is Some;
            &&& order is Some <==> usable && schedule_of(json::parsed(read->Bytes_0@)->0) is Some
            &&& order is Some ==> id_rows((order->0)@) == schedule_of(
                json::parsed(read->Bytes_0@)->0,
            )->0
        }),
{
    if !knobs::not_opted_out(value) {
        return None;
    }
    match read_optional_artifact(read).doc {
        Some(doc) => parse_schedule_value(&doc),
        None => None,
    }
}

/// How many experts of a tier are warmed at most, so a large plan cannot hold up
/// a load.
pub const TIER_SEED_MAX: usize = 256;

/// The experts among the first `n` entries of a tier, in order: each the first
/// two counts of a list, and whatever is no such list is left out.
pub open spec fn tier_of(v: Seq<Doc>, n: nat) -> Seq<(u64, u64)>
    decreases n,
{
    if n == 0 {
        seq![]
    } else {
        let head = tier_of(v, (n - 1) as nat);
        match v[n - 1] {
            Doc::List(pair) => if pair.len() >= 2 && json::unsigned_of(pair[0]) is Some
                && json::unsigned_of(pair[1]) is Some {
                head.push((json::unsigned_of(pair[0])->0, json::unsigned_of(pair[1])->0))
            } else {
                head
            },
            _ => head,
        }
    }
}

/// The experts of the memory tier a document plans.
pub open spec fn seeded(d: Doc) -> Seq<(u64, u64)> {
    match json::member_of(d, "ram"@) {
        Some(Doc::List(v)) => tier_of(
            v,
            (if v.len() < 256 {
                v.len() as int
            } else {
                256
            }) as nat,
        ),
        _ => seq![],
    }
}

/// The experts, as layer and expert, to warm before the first token: those of
/// the planned memory tier, where there is a lane to read them and a cache to
/// keep them, unless the setting turns it off.
pub fn seed_tiers_from_value(doc: &Json, value: Option<&str>, lane: bool, cache: bool) -> (out: Vec<
    (u64, u64),
>)
    ensures
        out@ == if !knobs::says_off(knobs::setting(value)) && lane && cache {
            seeded(doc.doc())
        } else {
            seq![]
        },
{
    let mut out: Vec<(u64, u64)> = Vec::new();
    if !knobs::not_opted_out(value) || !lane || !cache {
        return out;
    }
    let ram: &Vec<Json> = match doc.member("ram") {
        Some(r) => match r.as_array() {
            Some(v) => v,
            None => {
                return out;
            },
        },
        None => {
            return out;
        },
    };
    let n: usize = if ram.len() < TIER_SEED_MAX {
        ram.len()
    } else {
        TIER_SEED_MAX
    };
    let ghost ds = Seq::new(ram@.len(), |k: int| ram@[k].doc());
    let mut i: usize = 0;
    while i < n
        invariant
            i <= n <= ram@.len(),
            ds == Seq::new(ram@.len(), |k: int| ram@[k].doc()),
            out@ == tier_of(ds, i as nat),
        decreases n - i,
    {
        assert(ds[i as int] == ram@[i as int].doc());
        match ram[i].as_array() {
            Some(pair) => {
                if pair.len() >= 2 {
                    match (pair[0].as_u64(), pair[1].as_u64()) {
                        (Some(l), Some(e)) => {
                            out.push((l, e));
                        },
                        _ => {},
                    }
                }
            },
            None => {},
        }
        i = i + 1;
    }
    out
}

/// The first `n` seeds as experts. No model has an expert whose layer or number
/// needs more than 32 bits: such a seed names nothing and is left out.
pub open spec fn seed_keys(seeds: Seq<(u64, u64)>, n: nat) -> Seq<(u32, u32)>
    decreases n,
{
    if n == 0 {
        seq![]
    } else {
        let head = seed_keys(seeds, (n - 1) as nat);
        let (l, e) = seeds[n - 1];
        if l <= u32::MAX && e <= u32::MAX {
            head.push((l as u32, e as u32))
        } else {
            head
        }
    }
}

/// The reads that warm a planned tier. They are deliberate: none goes stale.
pub fn seed_batch(seeds: &Vec<(u64, u64)>) -> (b: WarmBatch)
    ensures
        b.wf(),
        b.left() == seed_keys(seeds@, seeds@.len()),
        b.stamped() == u64::MAX,
{
    let mut items: Vec<ExpertKey> = Vec::new();
    let mut i: usize = 0;
    while i < seeds.len()
        invariant
            i <= seeds@.len(),
            items@ == seed_keys(seeds@, i as nat),
        decreases seeds@.len() - i,
    {
        let (l, e): (u64, u64) = seeds[i];
        if l <= u32::MAX as u64 && e <= u32::MAX as u64 {
            items.push((l as u32, e as u32));
        }
        i = i + 1;
    }
    WarmBatch::deliberate(items)
}

/// What of a compiled plan is taken up, in this order.
pub struct PlanParts {
    /// Offer its transition automaton.
    pub automaton: bool,
    /// Offer its macro-states.
    pub macrostates: bool,
    /// Its layout schedule, which replaces the standing one.
    pub schedule: Option<Vec<Vec<u32>>>,
    /// Offer its learned policy.
    pub learn: bool,
    /// The experts to warm.
    pub seeds: Vec<(u64, u64)>,
}

/// The schedule a plan holds.
pub open spec fn planned_schedule(d: Doc) -> Option<Seq<Seq<u32>>> {
    match json::member_of(d, "schedule"@) {
        Some(s) => schedule_of(s),
        None => None,
    }
}

/// Reads a compiled plan: its parts are optional, and each is held to what its
/// own file would be held to.
pub fn try_load_plan(doc: &Json, learner: bool, tier_seed: Option<&str>, lane: bool, cache: bool) -> (p: PlanParts)
    ensures
        p.automaton == has_member(doc.doc(), "automaton"@),
        p.macrostates == has_member(doc.doc(), "macrostates"@),
        p.schedule is Some <==> planned_schedule(doc.doc()) is Some,
        p.schedule is Some ==> id_rows((p.schedule->0)@) == planned_schedule(doc.doc())->0,
        p.learn == (learner && has_member(doc.doc(), "learn"@) && json::member_of(
            doc.doc(),
            "learn"@,
        ) != Some(Doc::Null)),
        p.seeds@ == if has_member(doc.doc(), "tiers"@) && !knobs::says_off(
            knobs::setting(tier_seed),
        ) && lane && cache {
            seeded(json::member_of(doc.doc(), "tiers"@)->0)
        } else {
            seq![]
        },
{
    let schedule = match doc.member("schedule") {
        Some(s) => parse_schedule_value(s),
        None => None,
    };
    let learn = match doc.member("learn") {
        Some(l) => learner && !l.is_null(),
        None => false,
    };
    let seeds = match doc.member("tiers") {
        Some(t) => seed_tiers_from_value(t, tier_seed, lane, cache),
        None => Vec::new(),
    };
    PlanParts {
        automaton: doc.member("automaton").is_some(),
        macrostates: doc.member("macrostates").is_some(),
        schedule,
        learn,
        seeds,
    }
}

/// The elements of a list that are counts are read in order, and what is no count
/// is passed over: a count stands after exactly the counts before it.
pub proof fn lemma_counts_by_rank(v: Seq<Doc>, n: nat, i: int)
    requires
        n <= v.len(),
        0 <= i < n,
    ensures
        ({
            let kept = v.take(n as int).filter(|d: Doc| json::unsigned_of(d) is Some);
            let before = v.take(i).filter(|d: Doc| json::unsigned_of(d) is Some).len() as int;
            &&& counts(v, n).len() == kept.len()
            &&& json::unsigned_of(v[i]) matches Some(u) ==> before < counts(v, n).len() && counts(
                v,
                n,
            )[before] == u as u32
        }),
    decreases n,
{
    reveal(Seq::filter);
    let m = (n - 1) as nat;
    assert(v.take(n as int).drop_last() =~= v.take(m as int));
    if m > 0 {
        lemma_counts_by_rank(v, m, if i < m {
            i
        } else {
            0
        });
    } else {
        assert(counts(v, 0).len() == 0);
        assert(v.take(0).filter(|d: Doc| json::unsigned_of(d) is Some).len() == 0);
    }
}

/// Every expert of every layer has a slot of its own in a heat table, the draft
/// layer's included, and there is none beyond them.
pub proof fn lemma_heat_slots_cover_every_expert(c: Cfg, l: int, e: int)
    requires
        0 <= l <= c.n_layers,
        0 <= e < c.n_experts,
    ensures
        0 <= l * c.n_experts + e < heat_slots(c),
        l == c.n_layers && e == c.n_experts - 1 ==> l * c.n_experts + e == heat_slots(c) - 1,
{
    let n = c.n_experts as int;
    let k = c.n_layers as int;
    assert(l * n <= k * n) by (nonlinear_arith)
        requires
            0 <= l <= k,
            0 <= n,
    ;
    assert((k + 1) * n == k * n + n) by (nonlinear_arith);
    assert(0 <= l * n) by (nonlinear_arith)
        requires
            0 <= l,
            0 <= n,
    ;
}

/// Heat is taken from a document written for this model, of a list of counts with
/// a slot for every expert; any other document gives none.
pub proof fn lemma_which_heat_is_taken(d: Doc, c: Cfg, v: Seq<Doc>)
    ensures
        json::member_of(d, "tag"@) != Some(Doc::Text(cfg::tag_of(c))) ==> heat_of(d, c).len() == 0,
        json::member_of(d, "heat"@) is None ==> heat_of(d, c).len() == 0,
        heat_of(d, c).len() == 0 || heat_of(d, c).len() == (c.n_layers + 1) * c.n_experts,
        json::member_of(d, "tag"@) == Some(Doc::Text(cfg::tag_of(c))) && json::member_of(
            d,
            "heat"@,
        ) == Some(Doc::List(v)) && v.len() == (c.n_layers + 1) * c.n_experts && (forall|i: int|
            0 <= i < v.len() ==> json::unsigned_of(#[trigger] v[i]) is Some) ==> {
            &&& heat_of(d, c).len() == v.len()
            &&& forall|i: int|
                0 <= i < v.len() ==> #[trigger] heat_of(d, c)[i] == json::unsigned_of(v[i])->0 as u32
        },
{
    if forall|i: int| 0 <= i < v.len() ==> json::unsigned_of(#[trigger] v[i]) is Some {
        lemma_counts_of_a_full_list(v, v.len());
    }
}

proof fn lemma_counts_of_a_full_list(v: Seq<Doc>, n: nat)
    requires
        n <= v.len(),
        forall|i: int| 0 <= i < v.len() ==> json::unsigned_of(#[trigger] v[i]) is Some,
    ensures
        counts(v, n).len() == n,
        forall|i: int|
            0 <= i < n ==> #[trigger] counts(v, n)[i] == json::unsigned_of(v[i])->0 as u32,
    decreases n,
{
    if n > 0 {
        lemma_counts_of_a_full_list(v, (n - 1) as nat);
    }
}

/// A row of a schedule is read where all of it are numbers, and its negative
/// entries are left out: an expert stands after exactly those before it.
pub proof fn lemma_rows_of_a_schedule(ids: Seq<Doc>, n: nat, i: int)
    requires
        n <= ids.len(),
        0 <= i < n,
    ensures
        row_of(ids, n) is Some <==> forall|k: int|
            0 <= k < n ==> json::signed_of(#[trigger] ids[k]) is Some,
        row_of(ids, n) matches Some(row) ==> {
            let before = ids.take(i).filter(|d: Doc| json::signed_of(d)->0 >= 0).len() as int;
            &&& row.len() == ids.take(n as int).filter(|d: Doc| json::signed_of(d)->0 >= 0).len()
            &&& json::signed_of(ids[i])->0 >= 0 ==> before < row.len() && row[before]
                == json::signed_of(ids[i])->0 as u32
        },
    decreases n,
{
    reveal(Seq::filter);
    let m = (n - 1) as nat;
    assert(ids.take(n as int).drop_last() =~= ids.take(m as int));
    if m > 0 {
        lemma_rows_of_a_schedule(ids, m, if i < m {
            i
        } else {
            0
        });
    } else {
        assert(row_of(ids, 0) == Some(Seq::<u32>::empty()));
        assert(ids.take(0).filter(|d: Doc| json::signed_of(d)->0 >= 0).len() == 0);
    }
    if forall|k: int| 0 <= k < n ==> json::signed_of(#[trigger] ids[k]) is Some {
        assert(json::signed_of(ids[n - 1]) is Some);
    }
    if row_of(ids, n) is Some {
        assert(row_of(ids, m) is Some);
        assert forall|k: int| 0 <= k < n implies json::signed_of(#[trigger] ids[k]) is Some by {
            assert(json::signed_of(ids[n - 1]) is Some);
        }
    }
}

/// A schedule is read row by row, in order, and only where every row is a list
/// that reads.
pub proof fn lemma_schedule_row_by_row(rows: Seq<Doc>, n: nat)
    requires
        n <= rows.len(),
    ensures
        rows_of(rows, n) is Some <==> forall|k: int|
            0 <= k < n ==> (#[trigger] rows[k] matches Doc::List(ids) && row_of(
                ids,
                ids.len(),
            ) is Some),
        rows_of(rows, n) matches Some(all) ==> {
            &&& all.len() == n
            &&& forall|k: int|
                0 <= k < n ==> (#[trigger] rows[k] matches Doc::List(ids) && row_of(ids, ids.len())
                    == Some(all[k]))
        },
    decreases n,
{
    if n > 0 {
        lemma_schedule_row_by_row(rows, (n - 1) as nat);
        if forall|k: int|
            0 <= k < n ==> (#[trigger] rows[k] matches Doc::List(ids) && row_of(
                ids,
                ids.len(),
            ) is Some) {
            assert(rows[n - 1] is List);
        }
    }
}

/// A schedule counts where its version is one and its order is a list; a plan
/// without one has none.
pub proof fn lemma_which_schedule_counts(d: Doc, rows: Seq<Doc>)
    ensures
        schedule_of(d) is Some ==> {
            &&& json::member_of(d, "version"@) is Some
            &&& json::unsigned_of(json::member_of(d, "version"@)->0) == Some(1u64)
            &&& json::member_of(d, "order"@) is Some
            &&& json::member_of(d, "order"@)->0 is List
        },
        json::member_of(d, "version"@) == Some(Doc::Number(Some(1u64), Some(1i64)))
            && json::member_of(d, "order"@) == Some(Doc::List(rows)) ==> schedule_of(d) == rows_of(
            rows,
            rows.len(),
        ),
        json::member_of(d, "schedule"@) is None ==> planned_schedule(d) is None,
        json::member_of(d, "schedule"@) is Some ==> planned_schedule(d) == schedule_of(
            json::member_of(d, "schedule"@)->0,
        ),
{
}

/// The entry is a pair of counts.
pub open spec fn is_pair(d: Doc) -> bool {
    &&& d is List
    &&& d->List_0.len() >= 2
    &&& d->List_0[0] is Number
    &&& d->List_0[0]->Number_0 is Some
    &&& d->List_0[1] is Number
    &&& d->List_0[1]->Number_0 is Some
}

/// The pairs of a tier are read in order, layer first and then expert, and what
/// is no pair is passed over.
pub proof fn lemma_tier_by_rank(v: Seq<Doc>, n: nat, i: int)
    requires
        n <= v.len(),
        0 <= i < n,
    ensures
        ({
            let before = v.take(i).filter(|d: Doc| is_pair(d)).len() as int;
            &&& tier_of(v, n).len() == v.take(n as int).filter(|d: Doc| is_pair(d)).len()
            &&& is_pair(v[i]) ==> {
                &&& before < tier_of(v, n).len()
                &&& v[i]->List_0[0]->Number_0 == Some(tier_of(v, n)[before].0)
                &&& v[i]->List_0[1]->Number_0 == Some(tier_of(v, n)[before].1)
            }
        }),
    decreases n,
{
    reveal(Seq::filter);
    let m = (n - 1) as nat;
    assert(v.take(n as int).drop_last() =~= v.take(m as int));
    if m > 0 {
        lemma_tier_by_rank(v, m, if i < m {
            i
        } else {
            0
        });
    } else {
        assert(tier_of(v, 0).len() == 0);
        assert(v.take(0).filter(|d: Doc| is_pair(d)).len() == 0);
    }
}

/// A plan seeds memory with the pairs among the first 256 entries of its tier.
pub proof fn lemma_seeds_are_the_leading_pairs(d: Doc, v: Seq<Doc>)
    ensures
        json::member_of(d, "ram"@) is None ==> seeded(d).len() == 0,
        seeded(d).len() <= 256,
        json::member_of(d, "ram"@) == Some(Doc::List(v)) && v.len() <= 256 ==> seeded(d) == tier_of(
            v,
            v.len(),
        ),
        json::member_of(d, "ram"@) == Some(Doc::List(v)) && v.len() >= 256 ==> seeded(d) == tier_of(
            v,
            256,
        ),
{
    if json::member_of(d, "ram"@) is Some && json::member_of(d, "ram"@)->0 is List {
        let w = json::member_of(d, "ram"@)->0->List_0;
        lemma_tier_is_no_longer(w, (if w.len() < 256 {
            w.len() as int
        } else {
            256
        }) as nat);
    }
}

proof fn lemma_tier_is_no_longer(v: Seq<Doc>, n: nat)
    ensures
        tier_of(v, n).len() <= n,
    decreases n,
{
    if n > 0 {
        lemma_tier_is_no_longer(v, (n - 1) as nat);
    }
}

/// Seeds become keys in order, layer first; a seed that no key can hold is left
/// out.
pub proof fn lemma_seed_keys_by_rank(seeds: Seq<(u64, u64)>, n: nat, i: int)
    requires
        n <= seeds.len(),
        0 <= i < n,
    ensures
        ({
            let before = seeds.take(i).filter(
                |s: (u64, u64)| s.0 <= u32::MAX && s.1 <= u32::MAX,
            ).len() as int;
            &&& seed_keys(seeds, n).len() == seeds.take(n as int).filter(
                |s: (u64, u64)| s.0 <= u32::MAX && s.1 <= u32::MAX,
            ).len()
            &&& seeds[i].0 <= u32::MAX && seeds[i].1 <= u32::MAX ==> {
                &&& before < seed_keys(seeds, n).len()
                &&& seed_keys(seeds, n)[before].0 == seeds[i].0
                &&& seed_keys(seeds, n)[before].1 == seeds[i].1
            }
        }),
    decreases n,
{
    reveal(Seq::filter);
    let m = (n - 1) as nat;
    assert(seeds.take(n as int).drop_last() =~= seeds.take(m as int));
    if m > 0 {
        lemma_seed_keys_by_rank(seeds, m, if i < m {
            i
        } else {
            0
        });
    } else {
        assert(seed_keys(seeds, 0).len() == 0);
        assert(seeds.take(0).filter(|s: (u64, u64)| s.0 <= u32::MAX && s.1 <= u32::MAX).len() == 0);
    }
}

} // verus!
