//! JSON documents as plain values, how the bytes of one become them, and how one
//! becomes bytes.

use vstd::prelude::*;

use crate::text;

verus! {

/// A JSON document.
pub enum Doc {
    /// The null value.
    Null,
    /// A truth value.
    Bool(bool),
    /// A number: as an unsigned and as a signed 64-bit integer, where it is one.
    Number(Option<u64>, Option<i64>),
    /// A string.
    Text(Seq<char>),
    /// An array.
    List(Seq<Doc>),
    /// An object's members.
    Object(Seq<(Seq<char>, Doc)>),
}

/// A JSON document held in memory.
pub enum Json {
    /// The null value.
    Null,
    /// A truth value.
    Bool(bool),
    /// A number: as an unsigned and as a signed 64-bit integer, where it is one.
    Number(Option<u64>, Option<i64>),
    /// A string.
    Text(String),
    /// An array.
    List(Vec<Json>),
    /// An object's members.
    Object(Vec<(String, Json)>),
}

impl Json {
    /// The document this holds.
    pub open spec fn doc(self) -> Doc
        decreases self, 0nat,
    {
        match self {
            Json::Null => Doc::Null,
            Json::Bool(b) => Doc::Bool(b),
            Json::Number(u, i) => Doc::Number(u, i),
            Json::Text(s) => Doc::Text(s@),
            Json::List(v) => Doc::List(docs(v@, v@.len())),
            Json::Object(m) => Doc::Object(members(m@, m@.len())),
        }
    }
}

/// The documents of the first `n` entries.
pub open spec fn docs(v: Seq<Json>, n: nat) -> Seq<Doc>
    decreases v, n,
{
    if n == 0 || n > v.len() {
        seq![]
    } else {
        docs(v, (n - 1) as nat).push(v[n - 1].doc())
    }
}

/// The documents of the first `n` members.
pub open spec fn members(m: Seq<(String, Json)>, n: nat) -> Seq<(Seq<char>, Doc)>
    decreases m, n,
{
    if n == 0 || n > m.len() {
        seq![]
    } else {
        members(m, (n - 1) as nat).push((m[n - 1].0@, m[n - 1].1.doc()))
    }
}

/// What a document's outermost value is, its parts still unopened.
pub enum Node {
    /// The null value.
    Null,
    /// A truth value.
    Bool(bool),
    /// A number.
    Number(Option<u64>, Option<i64>),
    /// A string.
    Text(String),
    /// An array.
    List(Vec<serde_json::Value>),
    /// An object's members.
    Object(Vec<(String, serde_json::Value)>),
}

/// `serde_json::Value`: a parsed document.
#[verifier::external_type_specification]
#[verifier::external_body]
pub struct ExValue(serde_json::Value);

/// The document a `serde_json::Value` holds.
pub uninterp spec fn document(v: serde_json::Value) -> Doc;

/// The document that `serde_json::from_slice` reads from bytes, if they spell
/// one.
pub uninterp spec fn parsed(bytes: Seq<u8>) -> Option<Doc>;

impl Node {
    /// The document this opens.
    pub open spec fn doc(self) -> Doc {
        match self {
            Node::Null => Doc::Null,
            Node::Bool(b) => Doc::Bool(b),
            Node::Number(u, i) => Doc::Number(u, i),
            Node::Text(s) => Doc::Text(s@),
            Node::List(v) => Doc::List(Seq::new(v@.len(), |i: int| document(v@[i]))),
            Node::Object(m) => Doc::Object(
                Seq::new(m@.len(), |i: int| (m@[i].0@, document(m@[i].1))),
            ),
        }
    }
}

/// `serde_json::from_slice` into a `serde_json::Value`: the document the bytes
/// spell, and nothing where they spell none.
#[verifier::external_body]
fn parse_value(bytes: &[u8]) -> (v: Option<serde_json::Value>)
    ensures
        v is Some <==> parsed(bytes@) is Some,
        v is Some ==> document(v->0) == parsed(bytes@)->0,
{
    serde_json::from_slice::<serde_json::Value>(bytes).ok()
}

/// The variant of a `serde_json::Value` with what it holds: a number as
/// `Number::as_u64` and `Number::as_i64` give it, an array's values in order, an
/// object's members in the order its map walks them.
#[verifier::external_body]
fn open_value(v: serde_json::Value) -> (node: Node)
    ensures
        node.doc() == document(v),
{
    match v {
        serde_json::Value::Null => Node::Null,
        serde_json::Value::Bool(b) => Node::Bool(b),
        serde_json::Value::Number(n) => Node::Number(n.as_u64(), n.as_i64()),
        serde_json::Value::String(s) => Node::Text(s),
        serde_json::Value::Array(a) => Node::List(a),
        serde_json::Value::Object(o) => Node::Object(o.into_iter().collect()),
    }
}

proof fn lemma_docs(v: Seq<Json>, n: nat)
    requires
        n <= v.len(),
    ensures
        docs(v, n) == Seq::new(n, |i: int| v[i].doc()),
    decreases n,
{
    if n > 0 {
        lemma_docs(v, (n - 1) as nat);
    }
    assert(docs(v, n) =~= Seq::new(n, |i: int| v[i].doc()));
}

proof fn lemma_members(m: Seq<(String, Json)>, n: nat)
    requires
        n <= m.len(),
    ensures
        members(m, n) == Seq::new(n, |i: int| (m[i].0@, m[i].1.doc())),
    decreases n,
{
    if n > 0 {
        lemma_members(m, (n - 1) as nat);
    }
    assert(members(m, n) =~= Seq::new(n, |i: int| (m[i].0@, m[i].1.doc())));
}

/// The entries of `v` back to front.
fn reversed<T>(v: Vec<T>) -> (r: Vec<T>)
    ensures
        r@ == v@.reverse(),
{
    let ghost all = v@;
    let mut v = v;
    let mut r: Vec<T> = Vec::new();
    let n: usize = v.len();
    let mut k: usize = 0;
    while k < n
        invariant
            k <= n == all.len(),
            v@ == all.subrange(0, n - k),
            r@ == all.subrange(n - k, n as int).reverse(),
        decreases n - k,
    {
        match v.pop() {
            Some(x) => {
                r.push(x);
            },
            None => {},
        }
        k = k + 1;
        assert(v@ =~= all.subrange(0, n - k));
        assert(r@ =~= all.subrange(n - k, n as int).reverse());
    }
    assert(all.subrange(0, n as int) =~= all);
    r
}

/// Opens a parsed document throughout.
fn json_of(v: serde_json::Value) -> (j: Json)
    ensures
        j.doc() == document(v),
    decreases document(v),
{
    let ghost d = document(v);
    match open_value(v) {
        Node::Null => Json::Null,
        Node::Bool(b) => Json::Bool(b),
        Node::Number(u, i) => Json::Number(u, i),
        Node::Text(s) => Json::Text(s),
        Node::List(parts) => {
            let ghost all = parts@;
            let ghost ds = d->List_0;
            let mut out: Vec<Json> = Vec::new();
            let n: usize = parts.len();
            let mut parts = reversed(parts);
            assert(parts@ =~= all.subrange(0, n as int).reverse());
            let mut k: usize = 0;
            while k < n
                invariant
                    k <= n,
                    n == all.len(),
                    d == Doc::List(ds),
                    document(v) == d,
                    ds == Seq::new(all.len(), |i: int| document(all[i])),
                    parts@ == all.subrange(k as int, n as int).reverse(),
                    out@.len() == k,
                    forall|i: int| 0 <= i < k ==> (#[trigger] out@[i]).doc() == ds[i],
                decreases n - k,
            {
                match parts.pop() {
                    Some(part) => {
                        assert(part == all[k as int]);
                        assert(document(part) == ds[k as int]);
                        assert(decreases_to!(d => d->List_0));
                        assert(decreases_to!(ds => ds[k as int]));
                        out.push(json_of(part));
                    },
                    None => {},
                }
                k = k + 1;
                assert(parts@ =~= all.subrange(k as int, n as int).reverse());
            }
            proof {
                lemma_docs(out@, out@.len());
                assert(docs(out@, out@.len()) =~= ds);
            }
            Json::List(out)
        },
        Node::Object(parts) => {
            let ghost all = parts@;
            let ghost ds = d->Object_0;
            let mut out: Vec<(String, Json)> = Vec::new();
            let n: usize = parts.len();
            let mut parts = reversed(parts);
            assert(parts@ =~= all.subrange(0, n as int).reverse());
            let mut k: usize = 0;
            while k < n
                invariant
                    k <= n,
                    n == all.len(),
                    d == Doc::Object(ds),
                    document(v) == d,
                    ds == Seq::new(all.len(), |i: int| (all[i].0@, document(all[i].1))),
                    parts@ == all.subrange(k as int, n as int).reverse(),
                    out@.len() == k,
                    forall|i: int|
                        0 <= i < k ==> ((#[trigger] out@[i]).0@, out@[i].1.doc()) == ds[i],
                decreases n - k,
            {
                match parts.pop() {
                    Some(part) => {
                        assert(part == all[k as int]);
                        assert((part.0@, document(part.1)) == ds[k as int]);
                        assert(decreases_to!(d => d->Object_0));
                        assert(decreases_to!(ds => ds[k as int]));
                        assert(decreases_to!(ds[k as int] => ds[k as int].1));
                        out.push((part.0, json_of(part.1)));
                    },
                    None => {},
                }
                k = k + 1;
                assert(parts@ =~= all.subrange(k as int, n as int).reverse());
            }
            proof {
                lemma_members(out@, out@.len());
                assert(members(out@, out@.len()) =~= ds);
            }
            Json::Object(out)
        },
    }
}

/// Reads a document from bytes.
pub fn parse_document(bytes: &[u8]) -> (j: Option<Json>)
    ensures
        j is Some <==> parsed(bytes@) is Some,
        j is Some ==> (j->0).doc() == parsed(bytes@)->0,
{
    match parse_value(bytes) {
        Some(v) => Some(json_of(v)),
        None => None,
    }
}

/// The first member named `key` from the `i`-th on.
pub open spec fn member_from(m: Seq<(Seq<char>, Doc)>, key: Seq<char>, i: int) -> Option<Doc>
    decreases m.len() - i,
{
    if i < 0 || i >= m.len() {
        None
    } else if m[i].0 == key {
        Some(m[i].1)
    } else {
        member_from(m, key, i + 1)
    }
}

/// An object's member named `key`.
pub open spec fn member_of(d: Doc, key: Seq<char>) -> Option<Doc> {
    match d {
        Doc::Object(m) => member_from(m, key, 0),
        _ => None,
    }
}

/// `Value::from` on a string.
#[verifier::external_body]
pub(crate) fn text_value(s: String) -> (v: serde_json::Value)
    ensures
        document(v) == Doc::Text(s@),
{
    serde_json::Value::from(s)
}

/// A count as a document.
pub open spec fn count_doc(n: u32) -> Doc {
    Doc::Number(Some(n as u64), Some(n as i64))
}

/// `Value::from` on a vector of counts: an array of numbers in their order.
#[verifier::external_body]
pub(crate) fn counts_value(counts: Vec<u32>) -> (v: serde_json::Value)
    ensures
        document(v) == Doc::List(Seq::new(counts@.len(), |i: int| count_doc(counts@[i]))),
{
    serde_json::Value::from(counts)
}

/// `Value::default`: the null value.
#[verifier::external_body]
pub(crate) fn null_value() -> (v: serde_json::Value)
    ensures
        document(v) == Doc::Null,
{
    serde_json::Value::default()
}

/// Members as names and documents.
pub open spec fn named(m: Seq<(String, serde_json::Value)>) -> Seq<(Seq<char>, Doc)> {
    Seq::new(m.len(), |i: int| (m[i].0@, document(m[i].1)))
}

/// No name occurs twice.
pub open spec fn distinct_names(m: Seq<(Seq<char>, Doc)>) -> bool {
    forall|i: int, j: int| 0 <= i < j < m.len() ==> m[i].0 != m[j].0
}

/// `Value::from_iter` on named values: an object with these members, in an order
/// of its own. Nothing is claimed where a name occurs twice.
#[verifier::external_body]
pub(crate) fn object_value(m: Vec<(String, serde_json::Value)>) -> (v: serde_json::Value)
    ensures
        distinct_names(named(m@)) ==> document(v) is Object,
        distinct_names(named(m@)) ==> (document(v)->Object_0).to_multiset() == named(
            m@,
        ).to_multiset(),
{
    serde_json::Value::from_iter(m)
}

/// A document that is read back whatever it holds: its numbers are integers, and
/// its arrays and objects are nested at most `room` deep.
pub open spec fn plain(d: Doc, room: nat) -> bool
    decreases room,
{
    match d {
        Doc::Number(u, i) => u is Some || i is Some,
        Doc::List(v) => room > 0 && forall|k: int|
            0 <= k < v.len() ==> plain(#[trigger] v[k], (room - 1) as nat),
        Doc::Object(m) => room > 0 && forall|k: int|
            0 <= k < m.len() ==> plain((#[trigger] m[k]).1, (room - 1) as nat),
        _ => true,
    }
}

/// Levels of arrays and objects that reading goes down.
pub const DEPTH: usize = 127;

/// `serde_json::to_vec` on a `serde_json::Value`: bytes that spell its document.
/// It fails only where a value's own `Serialize` does or a map has keys that are
/// no strings, and a `Value` is neither.
///
/// `serde_json::from_slice` reads no other document from these bytes. It refuses
/// them where arrays and objects are nested deeper than it goes down, and may
/// refuse a number with a fraction or an exponent at the edge of its range;
/// nothing is claimed of whether such a document is read.
#[verifier::external_body]
pub(crate) fn value_to_vec(v: &serde_json::Value) -> (bytes: Option<Vec<u8>>)
    ensures
        bytes is Some,
        parsed((bytes->0)@) is Some ==> parsed((bytes->0)@)->0 == document(*v),
        plain(document(*v), DEPTH as nat) ==> parsed((bytes->0)@) is Some,
{
    serde_json::to_vec(v).ok()
}

/// Renders a document as bytes.
pub fn render(v: &serde_json::Value) -> (bytes: Vec<u8>)
    ensures
        parsed(bytes@) is Some ==> parsed(bytes@)->0 == document(*v),
        plain(document(*v), DEPTH as nat) ==> parsed(bytes@) is Some,
{
    match value_to_vec(v) {
        Some(bytes) => bytes,
        None => Vec::new(),
    }
}

proof fn lemma_member_found(ds: Seq<(Seq<char>, Doc)>, key: Seq<char>, d: Doc, i: int, from: int)
    requires
        0 <= from <= i < ds.len(),
        ds[i] == (key, d),
        forall|k: int| 0 <= k < ds.len() && (#[trigger] ds[k]).0 == key ==> ds[k].1 == d,
    ensures
        member_from(ds, key, from) == Some(d),
    decreases i - from,
{
    if ds[from].0 != key {
        lemma_member_found(ds, key, d, i, from + 1);
    }
}

/// Whatever the order of an object's members, each is found by its name, and
/// there are no others.
pub proof fn lemma_members_found(ds: Seq<(Seq<char>, Doc)>, m: Seq<(Seq<char>, Doc)>)
    requires
        ds.to_multiset() == m.to_multiset(),
        distinct_names(m),
    ensures
        forall|i: int|
            0 <= i < m.len() ==> member_of(Doc::Object(ds), (#[trigger] m[i]).0) == Some(m[i].1),
        forall|k: int| 0 <= k < ds.len() ==> m.contains(#[trigger] ds[k]),
{
    assert forall|k: int| 0 <= k < ds.len() implies m.contains(#[trigger] ds[k]) by {
        vstd::seq_lib::to_multiset_contains(ds, ds[k]);
        vstd::seq_lib::to_multiset_contains(m, ds[k]);
        assert(ds.contains(ds[k]));
        assert(ds.to_multiset().count(ds[k]) > 0);
    }
    assert forall|i: int| 0 <= i < m.len() implies member_of(
        Doc::Object(ds),
        (#[trigger] m[i]).0,
    ) == Some(m[i].1) by {
        vstd::seq_lib::to_multiset_contains(ds, m[i]);
        vstd::seq_lib::to_multiset_contains(m, m[i]);
        assert(m.contains(m[i]));
        assert(m.to_multiset().count(m[i]) > 0);
        let at = choose|at: int| 0 <= at < ds.len() && ds[at] == m[i];
        assert forall|k: int| 0 <= k < ds.len() && (#[trigger] ds[k]).0 == m[i].0 implies ds[k].1
            == m[i].1 by {
            assert(m.contains(ds[k]));
            let j = choose|j: int| 0 <= j < m.len() && m[j] == ds[k];
            if j != i {
                assert(m[if i < j { i } else { j }].0 != m[if i < j { j } else { i }].0);
            }
        }
        lemma_member_found(ds, m[i].0, m[i].1, at, 0);
    }
}

/// The unsigned integer a document is.
pub open spec fn unsigned_of(d: Doc) -> Option<u64> {
    match d {
        Doc::Number(u, _) => u,
        _ => None,
    }
}

/// The signed integer a document is.
pub open spec fn signed_of(d: Doc) -> Option<i64> {
    match d {
        Doc::Number(_, i) => i,
        _ => None,
    }
}

impl Json {
    /// An object's member named `key`.
    pub fn member(&self, key: &str) -> (j: Option<&Json>)
        ensures
            j is Some <==> member_of(self.doc(), key@) is Some,
            j is Some ==> (*j->0).doc() == member_of(self.doc(), key@)->0,
    {
        match self {
            Json::Object(m) => {
                proof {
                    lemma_members(m@, m@.len());
                }
                let ghost ds = members(m@, m@.len());
                assert(self.doc() == Doc::Object(ds));
                let mut i: usize = 0;
                while i < m.len()
                    invariant
                        i <= m@.len(),
                        ds == Seq::new(m@.len(), |k: int| (m@[k].0@, m@[k].1.doc())),
                        self.doc() == Doc::Object(ds),
                        member_from(ds, key@, 0) == member_from(ds, key@, i as int),
                    decreases m@.len() - i,
                {
                    assert(ds[i as int] == (m@[i as int].0@, m@[i as int].1.doc()));
                    if text::same_text(m[i].0.as_str(), key) {
                        return Some(&m[i].1);
                    }
                    i = i + 1;
                }
                None
            },
            _ => None,
        }
    }

    /// The unsigned integer this is.
    pub fn as_u64(&self) -> (n: Option<u64>)
        ensures
            n == unsigned_of(self.doc()),
    {
        match self {
            Json::Number(u, _) => *u,
            _ => None,
        }
    }

    /// The signed integer this is.
    pub fn as_i64(&self) -> (n: Option<i64>)
        ensures
            n == signed_of(self.doc()),
    {
        match self {
            Json::Number(_, i) => *i,
            _ => None,
        }
    }

    /// Whether this is the string `s`.
    pub fn is_text(&self, s: &str) -> (b: bool)
        ensures
            b == (self.doc() == Doc::Text(s@)),
    {
        match self {
            Json::Text(t) => text::same_text(t.as_str(), s),
            _ => false,
        }
    }

    /// Whether this is the null value.
    pub fn is_null(&self) -> (b: bool)
        ensures
            b == (self.doc() == Doc::Null),
    {
        match self {
            Json::Null => true,
            _ => false,
        }
    }

    /// The entries of the array this is.
    pub fn as_array(&self) -> (v: Option<&Vec<Json>>)
        ensures
            v is Some <==> self.doc() is List,
            v is Some ==> self.doc() == Doc::List(
                Seq::new((*v->0)@.len(), |i: int| (*v->0)@[i].doc()),
            ),
    {
        match self {
            Json::List(v) => {
                proof {
                    lemma_docs(v@, v@.len());
                }
                Some(v)
            },
            _ => None,
        }
    }
}

/// A member is looked up by its name: the first of that name is found, and
/// nothing is where no member has it or where the document is no object.
pub proof fn lemma_lookup_finds_the_first(m: Seq<(Seq<char>, Doc)>, key: Seq<char>, i: int)
    ensures
        0 <= i < m.len() && m[i].0 == key && (forall|k: int| 0 <= k < i ==> (#[trigger] m[k]).0
            != key) ==> member_of(Doc::Object(m), key) == Some(m[i].1),
        member_of(Doc::Object(m), key) is None <==> forall|k: int|
            0 <= k < m.len() ==> (#[trigger] m[k]).0 != key,
        member_of(Doc::List(seq![]), key) is None,
        member_of(Doc::Null, key) is None,
        member_of(Doc::Text(key), key) is None,
{
    lemma_lookup_from(m, key, 0);
}

proof fn lemma_lookup_from(m: Seq<(Seq<char>, Doc)>, key: Seq<char>, from: int)
    requires
        0 <= from <= m.len(),
    ensures
        member_from(m, key, from) is None <==> forall|k: int|
            from <= k < m.len() ==> (#[trigger] m[k]).0 != key,
        forall|i: int|
            from <= i < m.len() && (#[trigger] m[i]).0 == key && (forall|k: int|
                from <= k < i ==> (#[trigger] m[k]).0 != key) ==> member_from(m, key, from) == Some(
                m[i].1,
            ),
    decreases m.len() - from,
{
    if from < m.len() && m[from].0 != key {
        lemma_lookup_from(m, key, from + 1);
    }
}

/// A list keeps its elements and an object its members, in order.
pub proof fn lemma_documents_keep_their_parts(v: Vec<Json>, m: Vec<(String, Json)>, i: int)
    ensures
        Json::List(v).doc() matches Doc::List(d) && d.len() == v@.len() && (0 <= i < v@.len()
            ==> d[i] == v@[i].doc()),
        Json::Object(m).doc() matches Doc::Object(d) && d.len() == m@.len() && (0 <= i < m@.len()
            ==> d[i].0 == m@[i].0@ && d[i].1 == m@[i].1.doc()),
{
    lemma_docs(v@, v@.len());
    lemma_members(m@, m@.len());
}

/// A count is read back as the number it is, signed or not, and what is no number
/// is read as neither.
pub proof fn lemma_counts_read_back(n: u32, s: Seq<char>, v: Seq<Doc>)
    ensures
        unsigned_of(count_doc(n)) == Some(n as u64),
        signed_of(count_doc(n)) == Some(n as i64),
        unsigned_of(Doc::Text(s)) is None && signed_of(Doc::Text(s)) is None,
        unsigned_of(Doc::List(v)) is None && signed_of(Doc::List(v)) is None,
        unsigned_of(Doc::Null) is None && signed_of(Doc::Null) is None,
{
}

} // verus!
