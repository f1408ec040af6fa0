//! What a checkpoint's headers say: which tensors belong to routed experts, how
//! large the largest read of one expert is, what one expert weighs on disk.

use vstd::prelude::*;

use crate::text;

verus! {

/// Block alignment of direct reads.
pub const ALIGN: usize = 4096;

/// The read size assumed of a container that names no routed expert.
pub const ASSUMED_REGION: usize = 0x200_0000;

/// One tensor's header.
pub struct TensorHeader {
    /// Its name.
    pub name: String,
    /// Its bytes as stored.
    pub nbytes: usize,
    /// Its bytes once unpacked.
    pub unpacked: usize,
}

/// A routed expert's tensor.
pub open spec fn is_routed(name: Seq<char>) -> bool {
    text::contains(name, ".mlp.experts."@)
}

/// Whether the container carries any routed-expert tensor. One without has
/// nothing the streaming lane could ever read.
pub fn has_routed_experts(tensors: &Vec<TensorHeader>) -> (b: bool)
    ensures
        b == exists|i: int| 0 <= i < tensors@.len() && is_routed((#[trigger] tensors@[i]).name@),
{
    let mut i: usize = 0;
    while i < tensors.len()
        invariant
            i <= tensors@.len(),
            forall|j: int| 0 <= j < i ==> !is_routed((#[trigger] tensors@[j]).name@),
        decreases tensors@.len() - i,
    {
        if text::has_text(tensors[i].name.as_str(), ".mlp.experts.") {
            assert(is_routed(tensors@[i as int].name@));
            return true;
        }
        i = i + 1;
    }
    false
}

/// The stored bytes of the routed experts.
pub open spec fn routed_total(tensors: Seq<TensorHeader>) -> int
    decreases tensors.len(),
{
    if tensors.len() == 0 {
        0
    } else {
        routed_total(tensors.drop_last()) + if is_routed(tensors.last().name@) {
            tensors.last().nbytes as int
        } else {
            0
        }
    }
}

/// The stored bytes of every tensor.
pub open spec fn stored_total(tensors: Seq<TensorHeader>) -> int
    decreases tensors.len(),
{
    if tensors.len() == 0 {
        0
    } else {
        stored_total(tensors.drop_last()) + tensors.last().nbytes
    }
}

/// The unpacked bytes of every tensor: what the process holds.
pub open spec fn unpacked_total(tensors: Seq<TensorHeader>) -> int
    decreases tensors.len(),
{
    if tensors.len() == 0 {
        0
    } else {
        unpacked_total(tensors.drop_last()) + tensors.last().unpacked
    }
}

/// No prefix of a list of sizes totals more than the whole list.
proof fn lemma_totals_grow(t: Seq<TensorHeader>, i: int)
    requires
        0 <= i <= t.len(),
    ensures
        0 <= routed_total(t.take(i)) <= routed_total(t),
        0 <= stored_total(t.take(i)) <= stored_total(t),
        0 <= unpacked_total(t.take(i)) <= unpacked_total(t),
    decreases t.len(),
{
    if i == t.len() {
        assert(t.take(i) =~= t);
        if t.len() > 0 {
            lemma_totals_grow(t.drop_last(), t.len() - 1);
            assert(t.drop_last().take(t.len() - 1) =~= t.drop_last());
        }
    } else {
        lemma_totals_grow(t.drop_last(), i);
        assert(t.drop_last().take(i) =~= t.take(i));
    }
}

/// Sums the stored bytes of the routed experts.
pub fn routed_bytes(tensors: &Vec<TensorHeader>) -> (bytes: usize)
    requires
        routed_total(tensors@) <= usize::MAX,
    ensures
        bytes == routed_total(tensors@),
{
    let mut sum: usize = 0;
    let mut i: usize = 0;
    assert(tensors@.take(0) =~= Seq::empty());
    while i < tensors.len()
        invariant
            i <= tensors@.len(),
            routed_total(tensors@) <= usize::MAX,
            sum == routed_total(tensors@.take(i as int)),
        decreases tensors@.len() - i,
    {
        proof {
            assert(tensors@.take(i + 1).drop_last() =~= tensors@.take(i as int));
            lemma_totals_grow(tensors@, i + 1);
        }
        if text::has_text(tensors[i].name.as_str(), ".mlp.experts.") {
            sum = sum + tensors[i].nbytes;
        }
        i = i + 1;
    }
    assert(tensors@.take(tensors@.len() as int) =~= tensors@);
    sum
}

/// Sums the unpacked bytes of every tensor.
pub fn unpacked_bytes(tensors: &Vec<TensorHeader>) -> (bytes: usize)
    requires
        unpacked_total(tensors@) <= usize::MAX,
    ensures
        bytes == unpacked_total(tensors@),
{
    let mut sum: usize = 0;
    let mut i: usize = 0;
    assert(tensors@.take(0) =~= Seq::empty());
    while i < tensors.len()
        invariant
            i <= tensors@.len(),
            unpacked_total(tensors@) <= usize::MAX,
            sum == unpacked_total(tensors@.take(i as int)),
        decreases tensors@.len() - i,
    {
        proof {
            assert(tensors@.take(i + 1).drop_last() =~= tensors@.take(i as int));
            lemma_totals_grow(tensors@, i + 1);
        }
        sum = sum + tensors[i].unpacked;
        i = i + 1;
    }
    assert(tensors@.take(tensors@.len() as int) =~= tensors@);
    sum
}

/// The name up to and with the expert number ends at `end`: the expert marker
/// stands at `at` first, and the first dot after it at `end`.
pub open spec fn expert_ends(name: Seq<char>, at: int, end: int) -> bool {
    let from = at + ".mlp.experts."@.len();
    text::first_at(name, ".mlp.experts."@, 0, at) && text::first_at(name, "."@, from, end)
}

/// The group a tensor is read with: its expert, and whether it is a scale.
pub open spec fn in_group(name: Seq<char>, expert: Seq<char>, scale: bool) -> bool {
    (exists|at: int, end: int| #[trigger] expert_ends(name, at, end) && expert == name.take(end))
        && scale == is_scale(name)
}

/// A tensor of quantisation scales.
pub open spec fn is_scale(name: Seq<char>) -> bool {
    text::stands_at(name, ".qs"@, name.len() - ".qs"@.len())
}

/// The stored bytes of one group.
pub open spec fn group_total(tensors: Seq<TensorHeader>, expert: Seq<char>, scale: bool) -> int
    decreases tensors.len(),
{
    if tensors.len() == 0 {
        0
    } else {
        group_total(tensors.drop_last(), expert, scale) + if in_group(
            tensors.last().name@,
            expert,
            scale,
        ) {
            tensors.last().nbytes as int
        } else {
            0
        }
    }
}

/// The expert part of a tensor's name is determined by the name.
proof fn lemma_expert_unique(name: Seq<char>, at: int, end: int, at2: int, end2: int)
    requires
        expert_ends(name, at, end),
        expert_ends(name, at2, end2),
    ensures
        at == at2,
        end == end2,
{
    if at < at2 {
        assert(!text::stands_at(name, ".mlp.experts."@, at));
    }
    if at2 < at {
        assert(!text::stands_at(name, ".mlp.experts."@, at2));
    }
    if end < end2 {
        assert(!text::stands_at(name, "."@, end));
    }
    if end2 < end {
        assert(!text::stands_at(name, "."@, end2));
    }
}

/// Finds the expert part of a tensor's name.
fn expert_part(name: &str) -> (part: Option<String>)
    ensures
        part is Some ==> exists|at: int, end: int| #[trigger]
            expert_ends(name@, at, end) && part->0@ == name@.take(end),
        part is None ==> forall|at: int, end: int| !#[trigger] expert_ends(name@, at, end),
{
    let v = text::chars_of(name);
    let marker = text::chars_of(".mlp.experts.");
    let dot = text::chars_of(".");
    match text::find_in(&v, &marker, 0) {
        None => {
            assert forall|at: int, end: int| !#[trigger] expert_ends(name@, at, end) by {
                assert(!text::stands_at(v@, marker@, at));
            }
            None
        },
        Some(at) => {
            assert(at + marker@.len() <= v.len());
            let from: usize = at + marker.len();
            match text::find_in(&v, &dot, from) {
                None => {
                    assert forall|at2: int, end: int| !#[trigger] expert_ends(name@, at2, end) by {
                        if expert_ends(name@, at2, end) {
                            if at < at2 {
                                assert(!text::stands_at(name@, ".mlp.experts."@, at as int));
                            }
                            if at2 < at {
                                assert(!text::stands_at(name@, ".mlp.experts."@, at2));
                            }
                            assert(!text::stands_at(v@, dot@, end));
                        }
                    }
                    None
                },
                Some(end) => {
                    assert(expert_ends(name@, at as int, end as int));
                    let part = name.substring_char(0, end).to_owned();
                    assert(part@ =~= name@.take(end as int));
                    Some(part)
                },
            }
        },
    }
}

/// The table's key for a group.
spec fn group_key(expert: Seq<char>, scale: bool) -> Seq<char> {
    expert + if scale {
        "s"@
    } else {
        "w"@
    }
}

proof fn lemma_group_key_injective(a: Seq<char>, s: bool, b: Seq<char>, t: bool)
    requires
        group_key(a, s) == group_key(b, t),
    ensures
        a == b,
        s == t,
{
    reveal_strlit("s");
    reveal_strlit("w");
    let x = group_key(a, s);
    let y = group_key(b, t);
    assert(x.last() == if s { 's' } else { 'w' });
    assert(y.last() == if t { 's' } else { 'w' });
    assert(x.drop_last() =~= a);
    assert(y.drop_last() =~= b);
}

proof fn lemma_group_within(t: Seq<TensorHeader>, expert: Seq<char>, scale: bool)
    ensures
        0 <= group_total(t, expert, scale) <= stored_total(t),
    decreases t.len(),
{
    if t.len() > 0 {
        lemma_group_within(t.drop_last(), expert, scale);
    }
}

/// Some tensor belongs to a group.
pub open spec fn grouped(tensors: Seq<TensorHeader>, expert: Seq<char>, scale: bool) -> bool {
    exists|i: int| 0 <= i < tensors.len() && in_group((#[trigger] tensors[i]).name@, expert, scale)
}

/// `bytes` is what the largest group takes with its slack, or the assumed size
/// where no tensor belongs to one.
pub open spec fn largest_region(tensors: Seq<TensorHeader>, bytes: int) -> bool {
    &&& forall|expert: Seq<char>, scale: bool|
        #[trigger] grouped(tensors, expert, scale) ==> group_total(tensors, expert, scale) + 2
            * ALIGN <= bytes
    &&& (exists|expert: Seq<char>, scale: bool| #[trigger]
        grouped(tensors, expert, scale) && bytes == group_total(tensors, expert, scale) + 2
            * ALIGN) || (bytes == ASSUMED_REGION + 2 * ALIGN && forall|
        expert: Seq<char>,
        scale: bool,
    | !#[trigger] grouped(tensors, expert, scale))
}

/// No region is larger than the whole container or the assumed size, slack
/// included.
pub proof fn lemma_region_bounded(tensors: Seq<TensorHeader>, bytes: int)
    requires
        largest_region(tensors, bytes),
    ensures
        0 <= bytes <= stored_total(tensors) + ASSUMED_REGION + 2 * ALIGN,
{
    lemma_totals_grow(tensors, 0);
    if exists|expert: Seq<char>, scale: bool| #[trigger]
        grouped(tensors, expert, scale) && bytes == group_total(tensors, expert, scale) + 2 * ALIGN {
        let (expert, scale) = choose|expert: Seq<char>, scale: bool| #[trigger]
            grouped(tensors, expert, scale) && bytes == group_total(tensors, expert, scale) + 2
                * ALIGN;
        lemma_group_within(tensors, expert, scale);
    }
}

/// The largest single read the streaming lane issues for a routed expert, with
/// slack for alignment: the largest group, whose tensors lie side by side and
/// are read as one extent.
pub fn max_expert_region_bytes(tensors: &Vec<TensorHeader>) -> (bytes: usize)
    requires
        stored_total(tensors@) + 2 * ALIGN <= usize::MAX,
    ensures
        largest_region(tensors@, bytes as int),
{
    let ghost t = tensors@;
    let mut runs: vstd::hash_map::StringHashMap<usize> = vstd::hash_map::StringHashMap::new();
    let mut best: Option<usize> = None;
    let ghost mut top: (Seq<char>, bool) = (Seq::empty(), false);
    let mut i: usize = 0;
    assert(t.take(0) =~= Seq::empty());
    while i < tensors.len()
        invariant
            t == tensors@,
            stored_total(t) + 2 * ALIGN <= usize::MAX,
            i <= t.len(),
            forall|x: Seq<char>, s: bool|
                #![trigger group_key(x, s)]
                (runs@.contains_key(group_key(x, s)) <==> grouped(t.take(i as int), x, s)) && (
                runs@.contains_key(group_key(x, s)) ==> runs@[group_key(x, s)] == group_total(
                    t.take(i as int),
                    x,
                    s,
                )),
            best is None ==> forall|x: Seq<char>, s: bool|
                !#[trigger] grouped(t.take(i as int), x, s),
            best is Some ==> grouped(t.take(i as int), top.0, top.1) && best->0 == group_total(
                t.take(i as int),
                top.0,
                top.1,
            ),
            best is Some ==> forall|x: Seq<char>, s: bool|
                #[trigger] grouped(t.take(i as int), x, s) ==> group_total(t.take(i as int), x, s)
                    <= best->0,
        decreases t.len() - i,
    {
        let ghost here = t.take(i as int);
        let ghost next = t.take(i + 1);
        let ghost name = t[i as int].name@;
        proof {
            assert(next.drop_last() =~= here);
            assert(next.last() == t[i as int]);
            assert forall|x: Seq<char>, s: bool| #[trigger] grouped(next, x, s) <==> grouped(
                here,
                x,
                s,
            ) || in_group(name, x, s) by {
                if grouped(here, x, s) {
                    let j = choose|j: int|
                        0 <= j < here.len() && in_group((#[trigger] here[j]).name@, x, s);
                    assert(next[j] == here[j]);
                }
                if in_group(name, x, s) {
                    assert(in_group(next[i as int].name@, x, s));
                }
                if grouped(next, x, s) {
                    let j = choose|j: int|
                        0 <= j < next.len() && in_group((#[trigger] next[j]).name@, x, s);
                    if j < i {
                        assert(here[j] == next[j]);
                    }
                }
            }
        }
        match expert_part(tensors[i].name.as_str()) {
            None => {
                proof {
                    assert forall|x: Seq<char>, s: bool| !#[trigger] in_group(name, x, s) by {}
                }
            },
            Some(part) => {
                let scale = text::ends_with(tensors[i].name.as_str(), ".qs");
                let ghost e = part@;
                proof {
                    assert(in_group(name, e, scale));
                    assert forall|x: Seq<char>, s: bool| #[trigger] in_group(
                        name,
                        x,
                        s,
                    ) implies x == e && s == scale by {
                        let (a, b) = choose|a: int, b: int| #[trigger]
                            expert_ends(name, a, b) && x == name.take(b);
                        let (c, d) = choose|c: int, d: int| #[trigger]
                            expert_ends(name, c, d) && e == name.take(d);
                        lemma_expert_unique(name, a, b, c, d);
                    }
                }
                let key = if scale {
                    part.concat("s")
                } else {
                    part.concat("w")
                };
                assert(key@ == group_key(e, scale));
                let had: usize = match runs.get(key.as_str()) {
                    Some(n) => *n,
                    None => 0,
                };
                proof {
                    if !grouped(here, e, scale) {
                        lemma_not_grouped_is_nothing(here, e, scale);
                    }
                    assert(had == group_total(here, e, scale));
                    lemma_group_within(next, e, scale);
                    lemma_totals_grow(t, i + 1);
                }
                let sum: usize = had + tensors[i].nbytes;
                let ghost before = runs@;
                runs.insert(key, sum);
                proof {
                    assert forall|x: Seq<char>, s: bool|
                        #![trigger group_key(x, s)]
                        (runs@.contains_key(group_key(x, s)) <==> grouped(next, x, s)) && (
                        runs@.contains_key(group_key(x, s)) ==> runs@[group_key(x, s)]
                            == group_total(next, x, s)) by {
                        if group_key(x, s) == group_key(e, scale) {
                            lemma_group_key_injective(x, s, e, scale);
                        } else {
                            assert(before.contains_key(group_key(x, s)) == runs@.contains_key(
                                group_key(x, s),
                            ));
                        }
                    }
                }
                let ghost old_top = top;
                let old_best = best;
                match best {
                    Some(b) => if sum >= b {
                        best = Some(sum);
                        proof {
                            top = (e, scale);
                        }
                    },
                    None => {
                        best = Some(sum);
                        proof {
                            top = (e, scale);
                        }
                    },
                }
                proof {
                    assert forall|x: Seq<char>, s: bool| #[trigger]
                        grouped(next, x, s) implies group_total(next, x, s) <= best->0 by {
                        if !(x == e && s == scale) {
                            assert(grouped(here, x, s));
                        }
                    }
                    assert(grouped(next, e, scale));
                    if top == old_top && old_best is Some && best == old_best {
                        assert(grouped(here, top.0, top.1) || top == (e, scale));
                    }
                }
            },
        }
        i = i + 1;
    }
    assert(t.take(t.len() as int) =~= t);
    match best {
        Some(b) => {
            proof {
                lemma_group_within(t, top.0, top.1);
            }
            b + 2 * ALIGN
        },
        None => ASSUMED_REGION + 2 * ALIGN,
    }
}

proof fn lemma_not_grouped_is_nothing(t: Seq<TensorHeader>, expert: Seq<char>, scale: bool)
    requires
        !grouped(t, expert, scale),
    ensures
        group_total(t, expert, scale) == 0,
    decreases t.len(),
{
    if t.len() > 0 {
        assert(!in_group(t[t.len() - 1].name@, expert, scale));
        assert forall|i: int| 0 <= i < t.len() - 1 implies !in_group(
            (#[trigger] t.drop_last()[i]).name@,
            expert,
            scale,
        ) by {
            assert(t.drop_last()[i] == t[i]);
            assert(!in_group(t[i].name@, expert, scale));
        }
        lemma_not_grouped_is_nothing(t.drop_last(), expert, scale);
    }
}

/// The three matrices of one expert, by the end of their names.
pub open spec fn expert_parts() -> Seq<Seq<char>> {
    seq!["gate_proj.weight"@, "up_proj.weight"@, "down_proj.weight"@]
}

/// The name of one matrix of an expert.
pub open spec fn expert_tensor(layer: nat, expert: nat, part: Seq<char>) -> Seq<char> {
    "model.layers."@ + text::decimal(layer) + ".mlp.experts."@ + text::decimal(expert) + "."@ + part
}

/// Names the matrices of one expert, gate first.
pub fn expert_tensor_names(layer: usize, expert: usize) -> (names: Vec<String>)
    ensures
        names@.len() == 3,
        forall|k: int|
            0 <= k < 3 ==> (#[trigger] names@[k])@ == expert_tensor(
                layer as nat,
                expert as nat,
                expert_parts()[k],
            ),
{
    let mut names: Vec<String> = Vec::new();
    names.push(expert_tensor_name(layer, expert, "gate_proj.weight"));
    names.push(expert_tensor_name(layer, expert, "up_proj.weight"));
    names.push(expert_tensor_name(layer, expert, "down_proj.weight"));
    names
}

fn expert_tensor_name(layer: usize, expert: usize, part: &str) -> (name: String)
    ensures
        name@ == expert_tensor(layer as nat, expert as nat, part@),
{
    "model.layers.".to_owned().concat(text::decimal_text(layer).as_str()).concat(
        ".mlp.experts.",
    ).concat(text::decimal_text(expert).as_str()).concat(".").concat(part)
}

/// The unpacked bytes of the tensor called `name`, looked for from header `i`
/// on; `None` when there is none.
pub open spec fn unpacked_from(tensors: Seq<TensorHeader>, name: Seq<char>, i: int) -> Option<usize>
    decreases tensors.len() - i,
{
    if i < 0 || i >= tensors.len() {
        None
    } else if tensors[i].name@ == name {
        Some(tensors[i].unpacked)
    } else {
        unpacked_from(tensors, name, i + 1)
    }
}

/// The unpacked bytes of the tensor called `name`.
pub fn unpacked_nbytes(tensors: &Vec<TensorHeader>, name: &str) -> (bytes: Option<usize>)
    ensures
        bytes == unpacked_from(tensors@, name@, 0),
{
    let mut i: usize = 0;
    while i < tensors.len()
        invariant
            i <= tensors@.len(),
            unpacked_from(tensors@, name@, 0) == unpacked_from(tensors@, name@, i as int),
        decreases tensors@.len() - i,
    {
        if text::same_text(tensors[i].name.as_str(), name) {
            return Some(tensors[i].unpacked);
        }
        i = i + 1;
    }
    None
}

/// What one named matrix weighs, its scales counted where it has any.
pub open spec fn part_bytes(tensors: Seq<TensorHeader>, name: Seq<char>) -> int {
    unpacked_from(tensors, name, 0)->0 + match unpacked_from(tensors, name + ".qs"@, 0) {
        Some(b) => b as int,
        None => 0,
    }
}

/// Every one of the names is a tensor of the container.
pub open spec fn all_there(tensors: Seq<TensorHeader>, names: Seq<String>) -> bool {
    forall|k: int|
        0 <= k < names.len() ==> unpacked_from(tensors, (#[trigger] names[k])@, 0) is Some
}

/// What the first `n` of the named matrices weigh together.
pub open spec fn parts_total(tensors: Seq<TensorHeader>, names: Seq<String>, n: nat) -> int
    decreases n,
{
    if n == 0 {
        0
    } else {
        parts_total(tensors, names, (n - 1) as nat) + part_bytes(tensors, names[n - 1]@)
    }
}

/// What one expert weighs with its three matrices and their scales.
pub open spec fn expert_total(tensors: Seq<TensorHeader>, layer: nat, expert: nat) -> int {
    part_bytes(tensors, expert_tensor(layer, expert, expert_parts()[0])) + part_bytes(
        tensors,
        expert_tensor(layer, expert, expert_parts()[1]),
    ) + part_bytes(tensors, expert_tensor(layer, expert, expert_parts()[2]))
}

/// What one expert weighs as its container stores it, weights and scales
/// together, cut to what a `u64` holds; `None` when any of its three matrices is
/// absent.
pub fn expert_bytes_on_disk(tensors: &Vec<TensorHeader>, layer: usize, expert: usize) -> (bytes:
    Option<u64>)
    ensures
        bytes is Some <==> forall|k: int|
            0 <= k < 3 ==> unpacked_from(
                tensors@,
                expert_tensor(layer as nat, expert as nat, #[trigger] expert_parts()[k]),
                0,
            ) is Some,
        bytes is Some ==> bytes->0 == if expert_total(tensors@, layer as nat, expert as nat)
            > u64::MAX {
            u64::MAX as int
        } else {
            expert_total(tensors@, layer as nat, expert as nat)
        },
{
    let names = expert_tensor_names(layer, expert);
    let mut total: u64 = 0;
    let mut i: usize = 0;
    while i < names.len()
        invariant
            i <= names@.len(),
            all_there(tensors@, names@.take(i as int)),
            total == if parts_total(tensors@, names@, i as nat) > u64::MAX {
                u64::MAX as int
            } else {
                parts_total(tensors@, names@, i as nat)
            },
            names@.len() == 3,
            forall|k: int|
                0 <= k < 3 ==> (#[trigger] names@[k])@ == expert_tensor(
                    layer as nat,
                    expert as nat,
                    expert_parts()[k],
                ),
        decreases names@.len() - i,
    {
        let name: &str = names[i].as_str();
        let w: usize = match unpacked_nbytes(tensors, name) {
            Some(w) => w,
            None => {
                proof {
                    let part = expert_parts()[i as int];
                    assert(names@[i as int]@ == expert_tensor(layer as nat, expert as nat, part));
                }
                return None;
            },
        };
        let scales = name.to_owned().concat(".qs");
        let s: usize = match unpacked_nbytes(tensors, scales.as_str()) {
            Some(s) => s,
            None => 0,
        };
        total = total.saturating_add(w as u64).saturating_add(s as u64);
        proof {
            assert forall|k: int| 0 <= k < i + 1 implies unpacked_from(
                tensors@,
                (#[trigger] names@.take(i + 1)[k])@,
                0,
            ) is Some by {
                if k < i {
                    assert(names@.take(i as int)[k] == names@[k]);
                }
            }
        }
        i = i + 1;
    }
    proof {
        reveal_with_fuel(parts_total, 4);
        assert forall|k: int| 0 <= k < 3 implies unpacked_from(
            tensors@,
            expert_tensor(layer as nat, expert as nat, #[trigger] expert_parts()[k]),
            0,
        ) is Some by {
            assert(names@.take(3)[k] == names@[k]);
        }
        assert(names@[0]@ == expert_tensor(layer as nat, expert as nat, expert_parts()[0]));
        assert(names@[1]@ == expert_tensor(layer as nat, expert as nat, expert_parts()[1]));
        assert(names@[2]@ == expert_tensor(layer as nat, expert as nat, expert_parts()[2]));
    }
    Some(total)
}

/// Every tensor's bytes enter a total once: those of the whole container with
/// every tensor, the routed ones with a tensor under `.mlp.experts.` only, and a
/// group's with a tensor of that group only.
pub proof fn lemma_totals_count_each_tensor_once(
    tensors: Seq<TensorHeader>,
    t: TensorHeader,
    expert: Seq<char>,
    scale: bool,
    at: int,
)
    ensures
        stored_total(seq![]) == 0 && routed_total(seq![]) == 0 && unpacked_total(seq![]) == 0
            && group_total(seq![], expert, scale) == 0,
        stored_total(tensors.push(t)) == stored_total(tensors) + t.nbytes,
        unpacked_total(tensors.push(t)) == unpacked_total(tensors) + t.unpacked,
        text::stands_at(t.name@, ".mlp.experts."@, at) ==> routed_total(tensors.push(t))
            == routed_total(tensors) + t.nbytes,
        (forall|k: int| !#[trigger] text::stands_at(t.name@, ".mlp.experts."@, k)) ==> routed_total(
            tensors.push(t),
        ) == routed_total(tensors),
        in_group(t.name@, expert, scale) ==> group_total(tensors.push(t), expert, scale)
            == group_total(tensors, expert, scale) + t.nbytes,
        !in_group(t.name@, expert, scale) ==> group_total(tensors.push(t), expert, scale)
            == group_total(tensors, expert, scale),
{
    assert(tensors.push(t).drop_last() =~= tensors);
    assert(tensors.push(t).last() == t);
}

/// A tensor's size is that of the first tensor of its name, and there is none
/// where no tensor has it.
pub proof fn lemma_size_is_of_the_first_of_its_name(
    tensors: Seq<TensorHeader>,
    name: Seq<char>,
    from: int,
)
    requires
        0 <= from <= tensors.len(),
    ensures
        unpacked_from(tensors, name, from) is None <==> forall|k: int|
            from <= k < tensors.len() ==> (#[trigger] tensors[k]).name@ != name,
        forall|i: int|
            from <= i < tensors.len() && (#[trigger] tensors[i]).name@ == name && (forall|k: int|
                from <= k < i ==> (#[trigger] tensors[k]).name@ != name) ==> unpacked_from(
                tensors,
                name,
                from,
            ) == Some(tensors[i].unpacked),
    decreases tensors.len() - from,
{
    if from < tensors.len() && tensors[from].name@ != name {
        lemma_size_is_of_the_first_of_its_name(tensors, name, from + 1);
    }
}

/// An expert's matrix takes up its weights and, where it has them, its scales. An
/// expert takes up its gate, up and down matrices.
pub proof fn lemma_expert_is_its_three_matrices(
    tensors: Seq<TensorHeader>,
    layer: nat,
    expert: nat,
    part: Seq<char>,
    w: int,
    q: int,
)
    ensures
        ({
            let name = expert_tensor(layer, expert, part);
            &&& 0 <= w < tensors.len() && tensors[w].name@ == name && (forall|k: int|
                0 <= k < w ==> (#[trigger] tensors[k]).name@ != name) && (forall|k: int|
                0 <= k < tensors.len() ==> (#[trigger] tensors[k]).name@ != name + ".qs"@)
                ==> part_bytes(tensors, name) == tensors[w].unpacked
            &&& 0 <= w < tensors.len() && tensors[w].name@ == name && (forall|k: int|
                0 <= k < w ==> (#[trigger] tensors[k]).name@ != name) && 0 <= q < tensors.len()
                && tensors[q].name@ == name + ".qs"@ && (forall|k: int|
                0 <= k < q ==> (#[trigger] tensors[k]).name@ != name + ".qs"@) ==> part_bytes(
                tensors,
                name,
            ) == tensors[w].unpacked + tensors[q].unpacked
        }),
        expert_total(tensors, layer, expert) == part_bytes(
            tensors,
            expert_tensor(layer, expert, "gate_proj.weight"@),
        ) + part_bytes(tensors, expert_tensor(layer, expert, "up_proj.weight"@)) + part_bytes(
            tensors,
            expert_tensor(layer, expert, "down_proj.weight"@),
        ),
{
    let name = expert_tensor(layer, expert, part);
    lemma_size_is_of_the_first_of_its_name(tensors, name, 0);
    lemma_size_is_of_the_first_of_its_name(tensors, name + ".qs"@, 0);
}

/// The text an expert's tensors start with.
pub open spec fn expert_lead(layer: nat, expert: nat) -> Seq<char> {
    "model.layers."@ + text::decimal(layer) + ".mlp.experts."@ + text::decimal(expert)
}

/// An expert's tensors are routed ones, and all weights of one expert are one
/// group, as are all its scales: they lie side by side and are read in one go.
pub proof fn lemma_an_experts_tensors_are_one_group(layer: nat, expert: nat, part: Seq<char>)
    ensures
        is_routed(expert_tensor(layer, expert, part)),
        in_group(
            expert_tensor(layer, expert, part),
            expert_lead(layer, expert),
            is_scale(expert_tensor(layer, expert, part)),
        ),
        is_scale(expert_tensor(layer, expert, part) + ".qs"@),
        in_group(
            expert_tensor(layer, expert, part) + ".qs"@,
            expert_lead(layer, expert),
            true,
        ),
        !is_scale(expert_tensor(layer, expert, "gate_proj.weight"@)),
        !is_scale(expert_tensor(layer, expert, "up_proj.weight"@)),
        !is_scale(expert_tensor(layer, expert, "down_proj.weight"@)),
{
    reveal_strlit(".qs");
    lemma_expert_name(layer, expert, part);
    let name = expert_tensor(layer, expert, part);
    let scales = name + ".qs"@;
    lemma_expert_name(layer, expert, part + ".qs"@);
    assert(expert_tensor(layer, expert, part + ".qs"@) =~= scales);
    assert(scales.subrange(scales.len() - 3, scales.len() as int) =~= ".qs"@);
    assert(text::stands_at(scales, ".qs"@, scales.len() - 3));
    lemma_weights_are_no_scales(layer, expert, "gate_proj.weight"@);
    lemma_weights_are_no_scales(layer, expert, "up_proj.weight"@);
    lemma_weights_are_no_scales(layer, expert, "down_proj.weight"@);
}

proof fn lemma_weights_are_no_scales(layer: nat, expert: nat, part: Seq<char>)
    requires
        part == "gate_proj.weight"@ || part == "up_proj.weight"@ || part == "down_proj.weight"@,
    ensures
        !is_scale(expert_tensor(layer, expert, part)),
{
    reveal_strlit(".qs");
    reveal_strlit("gate_proj.weight");
    reveal_strlit("up_proj.weight");
    reveal_strlit("down_proj.weight");
    let name = expert_tensor(layer, expert, part);
    assert(part[part.len() - 1] == 't');
    assert(name[name.len() - 1] == part[part.len() - 1]);
    if is_scale(name) {
        let tail = name.subrange(name.len() - 3, name.len() as int);
        assert(tail[2] == name[name.len() - 1]);
        assert(".qs"@[2] == 's');
        assert(tail == ".qs"@);
    }
}

proof fn lemma_expert_name(layer: nat, expert: nat, part: Seq<char>)
    ensures
        is_routed(expert_tensor(layer, expert, part)),
        in_group(
            expert_tensor(layer, expert, part),
            expert_lead(layer, expert),
            is_scale(expert_tensor(layer, expert, part)),
        ),
{
    reveal_strlit("model.layers.");
    reveal_strlit(".mlp.experts.");
    reveal_strlit(".");
    text::lemma_decimal_reads_back(layer);
    text::lemma_decimal_reads_back(expert);
    let (l, e) = (text::decimal(layer), text::decimal(expert));
    let name = expert_tensor(layer, expert, part);
    let lead = expert_lead(layer, expert);
    let at = 13 + l.len();
    let from = at + 13;
    let end = from + e.len();
    assert(lead.len() == end);
    assert(name =~= lead + "."@ + part);
    assert(name.subrange(at as int, from as int) =~= ".mlp.experts."@);
    assert(text::stands_at(name, ".mlp.experts."@, at as int));
    assert(name.subrange(end as int, end as int + 1) =~= "."@);
    assert(text::stands_at(name, "."@, end as int));
    assert(name.take(end as int) =~= lead);
    assert forall|b: int| 0 <= b < at implies !#[trigger] text::stands_at(
        name,
        ".mlp.experts."@,
        b,
    ) by {
        if text::stands_at(name, ".mlp.experts."@, b) {
            let here = name.subrange(b, b + 13);
            assert(here[0] == name[b] && here[1] == name[b + 1]);
            assert(here[0] == '.' && here[1] == 'm');
            if b < 13 {
                assert(name[b] == "model.layers."@[b]);
                assert(b == 5 || b == 12);
                if b == 5 {
                    assert(name[6] == "model.layers."@[6]);
                } else {
                    assert(name[13] == l[0]);
                    assert(text::is_digit(l[0]));
                }
            } else {
                assert(name[b] == l[b - 13]);
                assert(text::is_digit(l[b - 13]));
            }
        }
    }
    assert forall|b: int| from <= b < end implies !#[trigger] text::stands_at(name, "."@, b) by {
        assert(name[b] == e[b - from]);
        assert(text::is_digit(e[b - from]));
        if text::stands_at(name, "."@, b) {
            assert(name.subrange(b, b + 1)[0] == '.');
        }
    }
    assert(expert_ends(name, at as int, end as int));
}

/// A container without experts has room kept for 32 MiB, and one with experts for
/// its largest group; a page on either side is added for alignment.
pub proof fn lemma_room_for_a_read(tensors: Seq<TensorHeader>, bytes: int)
    requires
        largest_region(tensors, bytes),
    ensures
        (forall|i: int|
            0 <= i < tensors.len() ==> !is_routed((#[trigger] tensors[i]).name@)) ==> bytes
            == 32 * 1024 * 1024 + 2 * 4096,
        forall|i: int, expert: Seq<char>, scale: bool|
            0 <= i < tensors.len() && #[trigger] in_group(tensors[i].name@, expert, scale) ==> bytes
                >= tensors[i].nbytes + 2 * 4096,
{
    if forall|i: int| 0 <= i < tensors.len() ==> !is_routed((#[trigger] tensors[i]).name@) {
        assert forall|expert: Seq<char>, scale: bool| !#[trigger] grouped(
            tensors,
            expert,
            scale,
        ) by {
            if grouped(tensors, expert, scale) {
                let i = choose|i: int|
                    0 <= i < tensors.len() && in_group((#[trigger] tensors[i]).name@, expert, scale);
                assert(!is_routed(tensors[i].name@));
            }
        }
    }
    assert forall|i: int, expert: Seq<char>, scale: bool|
        0 <= i < tensors.len() && #[trigger] in_group(
            tensors[i].name@,
            expert,
            scale,
        ) implies bytes >= tensors[i].nbytes + 2 * 4096 by {
        assert(in_group(tensors[i].name@, expert, scale));
        assert(grouped(tensors, expert, scale));
        lemma_group_holds_its_tensors(tensors, expert, scale, i);
    }
}

proof fn lemma_group_holds_its_tensors(
    tensors: Seq<TensorHeader>,
    expert: Seq<char>,
    scale: bool,
    i: int,
)
    requires
        0 <= i < tensors.len(),
        in_group(tensors[i].name@, expert, scale),
    ensures
        group_total(tensors, expert, scale) >= tensors[i].nbytes,
    decreases tensors.len(),
{
    lemma_group_is_no_debt(tensors.drop_last(), expert, scale);
    if i < tensors.len() - 1 {
        lemma_group_holds_its_tensors(tensors.drop_last(), expert, scale, i);
    }
}

proof fn lemma_group_is_no_debt(tensors: Seq<TensorHeader>, expert: Seq<char>, scale: bool)
    ensures
        group_total(tensors, expert, scale) >= 0,
    decreases tensors.len(),
{
    if tensors.len() > 0 {
        lemma_group_is_no_debt(tensors.drop_last(), expert, scale);
    }
}

} // verus!
