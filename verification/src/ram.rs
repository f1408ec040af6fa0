//! Memory accounting: what the host and the control group leave, and how much
//! of it the warm cache and the streaming lanes may claim.

use vstd::prelude::*;

use crate::knobs;
use crate::text;

verus! {

/// The ring count used when nothing asks for another, and the floor the
/// device-aware sizing starts from.
pub const DEFAULT_IO_RINGS: usize = 4;

/// No configuration runs more rings than this.
pub const MAX_IO_RINGS: usize = 16;

/// `x` cut to what a `usize` holds.
pub open spec fn saturated(x: int) -> int {
    if x > usize::MAX {
        usize::MAX as int
    } else {
        x
    }
}

fn saturating_product(a: usize, b: usize) -> (p: usize)
    ensures
        p == saturated(a * b),
{
    match a.checked_mul(b) {
        Some(p) => p,
        None => usize::MAX,
    }
}

/// The figure on the `MemAvailable:` line of a `/proc/meminfo` dump, in
/// kibibytes; zero when the line or its number is missing.
pub open spec fn meminfo_kib(dump: Seq<char>) -> int {
    match text::tagged_line_of(dump, "MemAvailable:"@) {
        Some(rest) => match text::bounded_value(text::first_word(rest), u64::MAX as int) {
            Some(n) => n,
            None => 0,
        },
        None => 0,
    }
}

/// Reads the `MemAvailable:` figure of a `/proc/meminfo` dump, in kibibytes.
pub fn meminfo_available_kib(dump: &str) -> (kib: u64)
    ensures
        kib == meminfo_kib(dump@),
{
    match text::tagged_line(dump, "MemAvailable:") {
        Some(rest) => match text::parse_u64(text::take_first_word(rest)) {
            Some(n) => n,
            None => 0,
        },
        None => 0,
    }
}

/// `MemAvailable` of a `/proc/meminfo` dump in bytes, zero when it is missing.
/// The host's view, whatever control group the process runs in.
pub fn host_mem_available_bytes(dump: &str) -> (bytes: u64)
    requires
        meminfo_kib(dump@) * 1024 <= u64::MAX,
    ensures
        bytes == meminfo_kib(dump@) * 1024,
{
    meminfo_available_kib(dump) * 1024
}

/// The process's own path in the unified hierarchy: what follows `0::` in a
/// `/proc/self/cgroup` dump, whatever other controllers it lists.
pub fn self_cgroup_v2_rel<'a>(contents: &'a str) -> (rel: Option<&'a str>)
    ensures
        rel is Some <==> text::tagged_line_of(contents@, "0::"@) is Some,
        rel is Some ==> rel->0@ == text::trimmed(text::tagged_line_of(contents@, "0::"@)->0),
{
    match text::tagged_line(contents, "0::") {
        Some(rest) => Some(text::trim(rest)),
        None => None,
    }
}

/// The names a path consists of: what stands between its slashes, leaving out
/// the empty and the `.` ones, which name no directory of their own.
pub open spec fn components(path: Seq<char>) -> Seq<Seq<char>>
    decreases path.len(),
{
    if path.len() == 0 {
        Seq::empty()
    } else {
        let n = name_end(path, 0);
        proof {
            lemma_name_end(path, 0);
        }
        let rest = if n < path.len() {
            path.subrange(n + 1, path.len() as int)
        } else {
            Seq::empty()
        };
        let name = path.subrange(0, n);
        if name.len() == 0 || name == seq!['.'] {
            components(rest)
        } else {
            seq![name] + components(rest)
        }
    }
}

/// Where the name that starts at `a` ends.
pub open spec fn name_end(path: Seq<char>, a: int) -> int
    decreases path.len() - a,
{
    if a >= path.len() || path[a] == '/' {
        a
    } else {
        name_end(path, a + 1)
    }
}

/// A name ends at or after its start, and before the path does.
pub proof fn lemma_name_end(path: Seq<char>, a: int)
    requires
        0 <= a <= path.len(),
    ensures
        a <= name_end(path, a) <= path.len(),
    decreases path.len() - a,
{
    if a < path.len() && path[a] != '/' {
        lemma_name_end(path, a + 1);
    }
}

proof fn lemma_name_end_shift(path: Seq<char>, a: int, k: int)
    requires
        0 <= a <= path.len(),
        0 <= k <= path.len() - a,
    ensures
        name_end(path.subrange(a, path.len() as int), k) == name_end(path, a + k) - a,
    decreases path.len() - a - k,
{
    if a + k < path.len() && path[a + k] != '/' {
        lemma_name_end_shift(path, a, k + 1);
    }
}

/// `root` followed by each of `names` with a slash before it.
pub open spec fn joined(root: Seq<char>, names: Seq<Seq<char>>) -> Seq<char>
    decreases names.len(),
{
    if names.len() == 0 {
        root
    } else {
        joined(root, names.drop_last()) + "/"@ + names.last()
    }
}

/// Splits a path into its names.
fn split_components(path: &str) -> (names: Vec<String>)
    ensures
        names@.len() == components(path@).len(),
        forall|i: int| 0 <= i < names@.len() ==> (#[trigger] names@[i])@ == components(path@)[i],
{
    let v = text::chars_of(path);
    let ghost whole = components(path@);
    let mut names: Vec<String> = Vec::new();
    let mut a: usize = 0;
    assert(path@ =~= path@.subrange(0, path@.len() as int));
    assert(Seq::<Seq<char>>::empty() + whole =~= whole);
    while a < v.len()
        invariant
            v@ == path@,
            a <= v@.len(),
            whole == components(path@),
            names@.len() <= whole.len(),
            forall|i: int| 0 <= i < names@.len() ==> (#[trigger] names@[i])@ == whole[i],
            whole.subrange(names@.len() as int, whole.len() as int) == components(
                path@.subrange(a as int, path@.len() as int),
            ),
        decreases v@.len() - a,
    {
        let ghost here = path@.subrange(a as int, path@.len() as int);
        let mut e: usize = a;
        while e < v.len() && v[e] != '/'
            invariant
                v@ == path@,
                a <= e <= v@.len(),
                name_end(path@, a as int) == name_end(path@, e as int),
            decreases v@.len() - e,
        {
            e = e + 1;
        }
        proof {
            lemma_name_end_shift(path@, a as int, 0);
            assert(name_end(here, 0) == e - a);
            assert(here.subrange(0, e - a) =~= path@.subrange(a as int, e as int));
        }
        let name = path.substring_char(a, e);
        let ghost next = if e < path@.len() {
            path@.subrange(e + 1, path@.len() as int)
        } else {
            Seq::empty()
        };
        proof {
            assert(next =~= if e - a < here.len() {
                here.subrange(e - a + 1, here.len() as int)
            } else {
                Seq::empty()
            });
            reveal_strlit(".");
            assert("."@ =~= seq!['.']);
        }
        let ghost before = names@.len() as int;
        if e > a && !text::same_text(name, ".") {
            assert(components(here) == seq![name@] + components(next));
            names.push(name.to_owned());
            proof {
                let tail = whole.subrange(before, whole.len() as int);
                assert(tail[0] == name@);
                assert(whole[before] == name@);
                assert(whole.subrange(before + 1, whole.len() as int) =~= tail.subrange(
                    1,
                    tail.len() as int,
                ));
                assert(tail.subrange(1, tail.len() as int) =~= components(next));
            }
        }
        if e < v.len() {
            a = e + 1;
        } else {
            a = e;
            assert(path@.subrange(a as int, path@.len() as int) =~= Seq::empty());
        }
    }
    assert(path@.subrange(a as int, path@.len() as int) =~= Seq::empty());
    names
}

/// Every directory from the one `rel` names up to the root of the hierarchy,
/// leaf first. The tightest limit on this path is the one that is enforced.
pub fn cgroup_walk_dirs(rel: &str) -> (dirs: Vec<String>)
    ensures
        dirs@.len() == components(rel@).len() + 1,
        forall|i: int|
            0 <= i < dirs@.len() ==> (#[trigger] dirs@[i])@ == joined(
                "/sys/fs/cgroup"@,
                components(rel@).take(components(rel@).len() - i),
            ),
{
    let names = split_components(rel);
    let ghost all = components(rel@);
    let mut up: Vec<String> = Vec::new();
    let mut dir: String = "/sys/fs/cgroup".to_owned();
    up.push(dir.clone());
    let mut k: usize = 0;
    while k < names.len()
        invariant
            all == components(rel@),
            names@.len() == all.len(),
            forall|i: int| 0 <= i < names@.len() ==> (#[trigger] names@[i])@ == all[i],
            k <= names@.len(),
            up@.len() == k + 1,
            dir@ == joined("/sys/fs/cgroup"@, all.take(k as int)),
            forall|i: int|
                0 <= i < up@.len() ==> (#[trigger] up@[i])@ == joined(
                    "/sys/fs/cgroup"@,
                    all.take(i),
                ),
        decreases names@.len() - k,
    {
        dir.append("/");
        dir.append(names[k].as_str());
        proof {
            assert(all.take(k + 1).drop_last() =~= all.take(k as int));
            assert(all.take(k + 1).last() == all[k as int]);
        }
        up.push(dir.clone());
        k = k + 1;
    }
    let ghost rising = up@;
    let mut dirs: Vec<String> = Vec::new();
    while up.len() > 0
        invariant
            rising.len() == all.len() + 1,
            forall|i: int|
                0 <= i < rising.len() ==> (#[trigger] rising[i])@ == joined(
                    "/sys/fs/cgroup"@,
                    all.take(i),
                ),
            up@.len() + dirs@.len() == rising.len(),
            up@ == rising.take(up@.len() as int),
            forall|i: int|
                0 <= i < dirs@.len() ==> (#[trigger] dirs@[i])@ == joined(
                    "/sys/fs/cgroup"@,
                    all.take(all.len() - i),
                ),
        decreases up@.len(),
    {
        let ghost n = up@.len() as int;
        match up.pop() {
            Some(d) => {
                assert(d == rising[n - 1]);
                dirs.push(d);
                assert(up@ =~= rising.take(n - 1));
            },
            None => {},
        }
    }
    dirs
}

/// Visiting the directories of a path ends at the root of the hierarchy, and
/// each directory visited is the parent of the one before.
pub proof fn lemma_walk_rises_to_the_root(root: Seq<char>, names: Seq<Seq<char>>, i: int)
    requires
        0 <= i < names.len(),
    ensures
        joined(root, names.take(0)) == root,
        joined(root, names.take(names.len() - i)) == joined(root, names.take(names.len() - i - 1))
            + "/"@ + names[names.len() - i - 1],
{
    let here = names.take(names.len() - i);
    assert(here.drop_last() =~= names.take(names.len() - i - 1));
    assert(here.last() == names[names.len() - i - 1]);
}

/// What a `memory.max` and a `memory.current` file leave, `None` when there is
/// no limit or either is unreadable.
pub open spec fn v2_left(limit: Seq<char>, used: Seq<char>) -> Option<int> {
    match (
        text::bounded_value(text::trimmed(limit), u64::MAX as int),
        text::bounded_value(text::trimmed(used), u64::MAX as int),
    ) {
        (Some(l), Some(u)) => Some(if l > u {
            l - u
        } else {
            0
        }),
        _ => None,
    }
}

/// Reads what a limit file and a usage file leave. The word `max` in the limit
/// file is no number and so no limit.
pub fn left_of(limit: &str, used: &str) -> (left: Option<u64>)
    ensures
        left is Some <==> v2_left(limit@, used@) is Some,
        left is Some ==> v2_left(limit@, used@) == Some(left->0 as int),
{
    match (text::parse_u64(text::trim(limit)), text::parse_u64(text::trim(used))) {
        (Some(l), Some(u)) => Some(l.saturating_sub(u)),
        _ => None,
    }
}

/// One level's two control files, `None` for one that could not be read.
pub struct Readings {
    /// The limit in force at this level.
    pub limit: Option<String>,
    /// What is used at this level.
    pub used: Option<String>,
}

/// What one level leaves.
pub open spec fn level_left(r: Readings) -> Option<int> {
    match (r.limit, r.used) {
        (Some(l), Some(u)) => v2_left(l@, u@),
        _ => None,
    }
}

/// The smallest figure any level leaves, `None` when no level limits.
pub open spec fn tightest(levels: Seq<Readings>) -> Option<int>
    decreases levels.len(),
{
    if levels.len() == 0 {
        None
    } else {
        let rest = tightest(levels.drop_last());
        match (rest, level_left(levels.last())) {
            (Some(a), Some(b)) => Some(if b < a {
                b
            } else {
                a
            }),
            (Some(a), None) => Some(a),
            (None, left) => left,
        }
    }
}

/// What the flat hierarchy leaves: its limit less its usage, an unreadable
/// usage counting as nothing used.
pub open spec fn v1_left(r: Readings) -> Option<int> {
    match r.limit {
        None => None,
        Some(l) => match r.used {
            Some(u) => v2_left(l@, u@),
            None => v2_left(l@, "0"@),
        },
    }
}

/// Bytes left inside this process's control group, `None` when nothing limits
/// it. `levels` are the readings along the unified hierarchy and at its root;
/// the flat hierarchy counts only where none of those limits.
pub fn cgroup_available_bytes(levels: &Vec<Readings>, flat: &Readings) -> (left: Option<u64>)
    ensures
        left is Some <==> (tightest(levels@) is Some || v1_left(*flat) is Some),
        left is Some ==> Some(left->0 as int) == if tightest(levels@) is Some {
            tightest(levels@)
        } else {
            v1_left(*flat)
        },
{
    let mut best: Option<u64> = None;
    let mut i: usize = 0;
    assert(levels@.take(0) =~= Seq::empty());
    while i < levels.len()
        invariant
            i <= levels@.len(),
            best is Some <==> tightest(levels@.take(i as int)) is Some,
            best is Some ==> tightest(levels@.take(i as int)) == Some(best->0 as int),
        decreases levels@.len() - i,
    {
        assert(levels@.take(i + 1).drop_last() =~= levels@.take(i as int));
        match (&levels[i].limit, &levels[i].used) {
            (Some(l), Some(u)) => {
                match left_of(l.as_str(), u.as_str()) {
                    Some(v) => {
                        best = match best {
                            Some(b) => Some(if v < b {
                                v
                            } else {
                                b
                            }),
                            None => Some(v),
                        };
                    },
                    None => {},
                }
            },
            _ => {},
        }
        i = i + 1;
    }
    assert(levels@.take(levels@.len() as int) =~= levels@);
    if best.is_some() {
        return best;
    }
    match &flat.limit {
        None => None,
        Some(l) => match &flat.used {
            Some(u) => left_of(l.as_str(), u.as_str()),
            None => left_of(l.as_str(), "0"),
        },
    }
}

/// No level leaves less than the tightest figure: a limit anywhere on the path
/// is seen.
pub proof fn lemma_tightest_is_least(levels: Seq<Readings>, i: int)
    requires
        0 <= i < levels.len(),
        level_left(levels[i]) is Some,
    ensures
        tightest(levels) is Some,
        tightest(levels)->0 <= level_left(levels[i])->0,
    decreases levels.len(),
{
    if i < levels.len() - 1 {
        lemma_tightest_is_least(levels.drop_last(), i);
    }
}

/// The tightest figure is one that some level leaves.
pub proof fn lemma_tightest_is_some_level(levels: Seq<Readings>) -> (i: int)
    requires
        tightest(levels) is Some,
    ensures
        0 <= i < levels.len(),
        level_left(levels[i]) == tightest(levels),
    decreases levels.len(),
{
    if level_left(levels.last()) == tightest(levels) {
        levels.len() - 1
    } else {
        lemma_tightest_is_some_level(levels.drop_last())
    }
}

/// Memory this process may use: the smaller of what the host has and what its
/// control group leaves.
pub fn mem_available_bytes(host: u64, cgroup: Option<u64>) -> (bytes: u64)
    ensures
        bytes == match cgroup {
            Some(c) => if c < host {
                c
            } else {
                host
            },
            None => host,
        },
{
    match cgroup {
        Some(c) => if c < host {
            c
        } else {
            host
        },
        None => host,
    }
}

/// Peak transient memory of the streaming lanes: the experts every ring may
/// have landing plus those being computed, each one full expert.
pub open spec fn transient_reserve(
    io_rings: int,
    experts_per_batch: int,
    workers: int,
    per_expert_bytes: int,
) -> int {
    saturated(saturated(saturated(io_rings * experts_per_batch) + workers) * per_expert_bytes)
}

/// Computes the peak transient memory of the streaming lanes.
pub fn stream_transient_reserve(
    io_rings: usize,
    experts_per_batch: usize,
    workers: usize,
    per_expert_bytes: usize,
) -> (bytes: usize)
    ensures
        bytes == transient_reserve(
            io_rings as int,
            experts_per_batch as int,
            workers as int,
            per_expert_bytes as int,
        ),
{
    let landing: usize = saturating_product(io_rings, experts_per_batch);
    let in_flight: usize = landing.saturating_add(workers);
    saturating_product(in_flight, per_expert_bytes)
}

/// More rings never cost less, and cost strictly more wherever a landing
/// expert has a size and the total is still exact.
pub proof fn lemma_reserve_grows_with_rings(
    rings: int,
    more: int,
    batch: int,
    workers: int,
    per_expert: int,
)
    requires
        0 <= rings < more,
        batch >= 0,
        workers >= 0,
        per_expert >= 0,
    ensures
        transient_reserve(rings, batch, workers, per_expert) <= transient_reserve(
            more,
            batch,
            workers,
            per_expert,
        ),
        batch > 0 && per_expert > 0 && (more * batch + workers) * per_expert <= usize::MAX
            ==> transient_reserve(rings, batch, workers, per_expert) < transient_reserve(
            more,
            batch,
            workers,
            per_expert,
        ),
{
    let a = saturated(saturated(rings * batch) + workers);
    let b = saturated(saturated(more * batch) + workers);
    assert(rings * batch <= more * batch) by (nonlinear_arith)
        requires
            rings < more,
            batch >= 0,
    ;
    assert(a * per_expert <= b * per_expert) by (nonlinear_arith)
        requires
            a <= b,
            per_expert >= 0,
    ;
    if batch > 0 && per_expert > 0 && (more * batch + workers) * per_expert <= usize::MAX {
        let x = rings * batch + workers;
        let y = more * batch + workers;
        assert(rings * batch < more * batch) by (nonlinear_arith)
            requires
                rings < more,
                batch > 0,
        ;
        assert(0 <= rings * batch) by (nonlinear_arith)
            requires
                rings >= 0,
                batch >= 0,
        ;
        assert(y <= y * per_expert) by (nonlinear_arith)
            requires
                y >= 0,
                per_expert >= 1,
        ;
        assert(x * per_expert < y * per_expert) by (nonlinear_arith)
            requires
                x < y,
                per_expert > 0,
        ;
    }
}

/// Cuts a requested warm-cache budget so that the cache, the lanes' transient
/// buffers and a safety margin fit in what is available; zero disables the
/// cache where nothing is left.
pub fn cap_ecache_budget(
    requested: usize,
    mem_available: usize,
    transient_reserve: usize,
    safety: usize,
) -> (budget: usize)
    ensures
        budget == if mem_available <= transient_reserve + safety {
            0
        } else if requested <= mem_available - transient_reserve - safety {
            requested as int
        } else {
            mem_available - transient_reserve - safety
        },
        budget <= requested,
        budget > 0 ==> budget + transient_reserve + safety <= mem_available,
{
    let headroom: usize = mem_available.saturating_sub(transient_reserve.saturating_add(safety));
    if requested < headroom {
        requested
    } else {
        headroom
    }
}

/// The ring count an explicit setting asks for: a positive number, cut to
/// [`MAX_IO_RINGS`].
pub open spec fn explicit_rings(value: Option<Seq<char>>) -> Option<int> {
    match value {
        None => None,
        Some(v) => match text::bounded_value(text::trimmed(v), usize::MAX as int) {
            Some(n) => if n == 0 {
                None
            } else if n < MAX_IO_RINGS {
                Some(n)
            } else {
                Some(MAX_IO_RINGS as int)
            },
            None => None,
        },
    }
}

fn explicit_io_rings(value: Option<&str>) -> (rings: Option<usize>)
    ensures
        rings is Some <==> explicit_rings(knobs::setting(value)) is Some,
        rings is Some ==> explicit_rings(knobs::setting(value)) == Some(rings->0 as int),
{
    match value {
        None => None,
        Some(v) => match text::parse_usize(text::trim(v)) {
            Some(n) => if n == 0 {
                None
            } else if n < MAX_IO_RINGS {
                Some(n)
            } else {
                Some(MAX_IO_RINGS)
            },
            None => None,
        },
    }
}

/// The number of parallel rings of the streaming lane, from the setting alone.
pub fn io_rings(value: Option<&str>) -> (rings: usize)
    ensures
        rings == match explicit_rings(knobs::setting(value)) {
            Some(n) => n,
            None => DEFAULT_IO_RINGS as int,
        },
        1 <= rings <= MAX_IO_RINGS,
{
    match explicit_io_rings(value) {
        Some(n) => n,
        None => DEFAULT_IO_RINGS,
    }
}

/// What sizing the rings for a set of devices goes by.
pub struct RingSizing {
    /// Devices the shards span.
    pub n_devices: usize,
    /// Memory the host reports available, zero when unreadable.
    pub avail_bytes: u64,
    /// The share of it the landing buffers may claim.
    pub budget: u64,
    /// Experts each ring may have landing at once.
    pub experts_per_batch: usize,
    /// Workers computing beside the rings.
    pub workers: usize,
    /// The largest single read of one expert.
    pub per_expert_bytes: usize,
}

impl RingSizing {
    /// One ring per device, within the floor and the cap.
    pub open spec fn wanted(&self) -> int {
        if self.n_devices < DEFAULT_IO_RINGS {
            DEFAULT_IO_RINGS as int
        } else if self.n_devices > MAX_IO_RINGS {
            MAX_IO_RINGS as int
        } else {
            self.n_devices as int
        }
    }

    /// `n` rings keep their landing buffers within the budget.
    pub open spec fn fits(&self, n: int) -> bool {
        transient_reserve(
            n,
            self.experts_per_batch as int,
            self.workers as int,
            4 * self.per_expert_bytes,
        ) <= self.budget
    }
}

/// The ring count when the devices are known: one per device, walked back
/// toward the floor while the landing buffers would claim more than their
/// share. An explicit setting wins outright; an unreadable memory figure is no
/// reason to walk back.
pub fn io_rings_for(value: Option<&str>, s: &RingSizing) -> (rings: usize)
    requires
        4 * s.per_expert_bytes <= usize::MAX,
    ensures
        explicit_rings(knobs::setting(value)) is Some ==> Some(rings as int) == explicit_rings(
            knobs::setting(value),
        ),
        explicit_rings(knobs::setting(value)) is None && s.avail_bytes == 0 ==> rings == s.wanted(),
        explicit_rings(knobs::setting(value)) is None && s.avail_bytes != 0 ==> {
            &&& DEFAULT_IO_RINGS <= rings <= s.wanted()
            &&& rings == DEFAULT_IO_RINGS || s.fits(rings as int)
            &&& forall|n: int| rings < n <= s.wanted() ==> !#[trigger] s.fits(n)
        },
{
    match explicit_io_rings(value) {
        Some(n) => {
            return n;
        },
        None => {},
    }
    let want: usize = if s.n_devices < DEFAULT_IO_RINGS {
        DEFAULT_IO_RINGS
    } else if s.n_devices > MAX_IO_RINGS {
        MAX_IO_RINGS
    } else {
        s.n_devices
    };
    if s.avail_bytes == 0 {
        return want;
    }
    let mut n: usize = want;
    while n > DEFAULT_IO_RINGS && stream_transient_reserve(
        n,
        s.experts_per_batch,
        s.workers,
        4 * s.per_expert_bytes,
    ) as u64 > s.budget
        invariant
            4 * s.per_expert_bytes <= usize::MAX,
            want == s.wanted(),
            DEFAULT_IO_RINGS <= n <= want,
            forall|m: int| n < m <= s.wanted() ==> !#[trigger] s.fits(m),
        decreases n,
    {
        n = n - 1;
    }
    n
}

/// How large a warm cache a setting asks for.
#[derive(Clone, Copy, Debug, PartialEq, Eq, Structural)]
pub enum CacheAsk {
    /// Nothing was set: a tenth of what is available, two gibibytes at most.
    Unset,
    /// A share of what is available.
    Share,
    /// A number of gibibytes; what is no number asks for none.
    Gibibytes,
}

/// Tells what kind of warm cache a setting asks for.
pub fn cache_ask(value: Option<&str>) -> (ask: CacheAsk)
    ensures
        ask == match knobs::setting(value) {
            Some(v) => if text::same_ignoring_case(text::trimmed(v), "auto"@) {
                CacheAsk::Share
            } else {
                CacheAsk::Gibibytes
            },
            None => CacheAsk::Unset,
        },
{
    match value {
        Some(v) => if text::same_text_ignoring_case(text::trim(v), "auto") {
            CacheAsk::Share
        } else {
            CacheAsk::Gibibytes
        },
        None => CacheAsk::Unset,
    }
}

/// Where the ceiling on resident memory comes from.
#[derive(Clone, Copy, Debug, PartialEq, Eq, Structural)]
pub enum GuardAsk {
    /// The peak that the load projected.
    Projected,
    /// A number of gigabytes; what is no number means the projected peak.
    Gigabytes,
}

/// Tells where a setting takes the ceiling on resident memory from. One that is
/// unset or blank leaves it at the projected peak.
pub fn guard_ask(value: Option<&str>) -> (ask: GuardAsk)
    ensures
        ask == match knobs::setting(value) {
            Some(v) => if text::trimmed(v).len() > 0 {
                GuardAsk::Gigabytes
            } else {
                GuardAsk::Projected
            },
            None => GuardAsk::Projected,
        },
{
    match value {
        Some(v) => {
            let word: &str = text::trim(v);
            if text::same_text(word, "") {
                proof {
                    reveal_strlit("");
                }
                GuardAsk::Projected
            } else {
                proof {
                    reveal_strlit("");
                    if word@.len() == 0 {
                        assert(word@ =~= ""@);
                    }
                }
                GuardAsk::Gigabytes
            }
        },
        None => GuardAsk::Projected,
    }
}

/// Whether the guard on resident memory does anything: only a warm cache can be
/// given back, and a ceiling of zero turns the guard off.
pub fn guard_acts(has_cache: bool, limit: u64) -> (b: bool)
    ensures
        b == (has_cache && limit > 0),
{
    has_cache && limit > 0
}

/// The peak is every landing expert of every ring and every expert being computed,
/// each at its full size, as far as that can be counted; where it cannot, no
/// smaller figure is given.
pub proof fn lemma_reserve_is_every_buffer(rings: int, batch: int, workers: int, per_expert: int)
    requires
        0 <= rings,
        0 <= batch,
        0 <= workers,
        0 < per_expert,
    ensures
        (rings * batch + workers) * per_expert <= usize::MAX ==> transient_reserve(
            rings,
            batch,
            workers,
            per_expert,
        ) == (rings * batch + workers) * per_expert,
        (rings * batch + workers) * per_expert > usize::MAX ==> transient_reserve(
            rings,
            batch,
            workers,
            per_expert,
        ) == usize::MAX,
{
    let landing = rings * batch;
    assert(landing >= 0) by (nonlinear_arith)
        requires
            landing == rings * batch,
            rings >= 0,
            batch >= 0,
    ;
    let all = landing + workers;
    assert(all * per_expert >= all) by (nonlinear_arith)
        requires
            all >= 0,
            per_expert >= 1,
    ;
    let max = usize::MAX as int;
    if all > max {
        assert(max * per_expert >= max) by (nonlinear_arith)
            requires
                max >= 0,
                per_expert >= 1,
        ;
    }
}

/// What limits a level is its limit less its use, never below nothing; a limit
/// that is no number limits nothing. Where a flat hierarchy's use cannot be read,
/// its whole limit is left.
pub proof fn lemma_left_is_limit_less_use(limit: String, used: String, l: nat, u: nat)
    requires
        limit@ == text::decimal(l),
        used@ == text::decimal(u),
        l <= u64::MAX,
        u <= u64::MAX,
    ensures
        v2_left(limit@, used@) == Some(
            if l > u {
                l - u
            } else {
                0
            },
        ),
        level_left((Readings { limit: Some(limit), used: Some(used) })) == v2_left(limit@, used@),
        level_left((Readings { limit: None, used: Some(used) })) is None,
        level_left((Readings { limit: Some(limit), used: None })) is None,
        v1_left((Readings { limit: Some(limit), used: Some(used) })) == v2_left(limit@, used@),
        v1_left((Readings { limit: Some(limit), used: None })) == Some(l as int),
        v1_left((Readings { limit: None, used: Some(used) })) is None,
        v2_left("max"@, used@) is None,
{
    let none = Seq::<char>::empty();
    text::lemma_numbers_read_back(none, l, none, u64::MAX as int);
    text::lemma_numbers_read_back(none, u, none, u64::MAX as int);
    assert(none + text::decimal(l) + none =~= text::decimal(l));
    assert(none + text::decimal(u) + none =~= text::decimal(u));
    text::lemma_numbers_read_back(none, 0, none, u64::MAX as int);
    assert(none + text::decimal(0) + none =~= text::decimal(0));
    reveal_strlit("0");
    assert("0"@ =~= text::decimal(0));
    reveal_strlit("max");
    let word = "max"@;
    assert(none + word + none =~= word);
    text::lemma_what_is_white(word[0]);
    text::lemma_what_is_white(word[2]);
    text::lemma_padding_is_trimmed(none, word, none);
    if text::bounded_value(word, u64::MAX as int) is Some {
        text::lemma_only_digits_are_numbers(word, u64::MAX as int, 0);
    }
}

/// An explicit ring count is taken as it is spelled, up to the cap; zero is none.
pub proof fn lemma_explicit_rings(l: Seq<char>, n: nat, r: Seq<char>)
    requires
        forall|i: int| 0 <= i < l.len() ==> text::is_white(#[trigger] l[i]),
        forall|i: int| 0 <= i < r.len() ==> text::is_white(#[trigger] r[i]),
        n <= usize::MAX,
    ensures
        n == 0 ==> explicit_rings(Some(l + text::decimal(n) + r)) is None,
        0 < n <= MAX_IO_RINGS ==> explicit_rings(Some(l + text::decimal(n) + r)) == Some(n as int),
        n > MAX_IO_RINGS ==> explicit_rings(Some(l + text::decimal(n) + r)) == Some(
            MAX_IO_RINGS as int,
        ),
        explicit_rings(None) is None,
{
    text::lemma_numbers_read_back(l, n, r, usize::MAX as int);
}

/// A load wants a ring per device, but no fewer than the default and no more than
/// the cap. Rings that fit their budget fit with fewer of them too, and whether
/// they fit is whether every buffer they may hold, an expert's four reads each,
/// stays within the budget.
pub proof fn lemma_ring_sizing(s: RingSizing, n: int, fewer: int)
    requires
        0 <= fewer <= n,
    ensures
        DEFAULT_IO_RINGS <= s.wanted() <= MAX_IO_RINGS,
        DEFAULT_IO_RINGS <= s.n_devices <= MAX_IO_RINGS ==> s.wanted() == s.n_devices,
        s.n_devices < DEFAULT_IO_RINGS ==> s.wanted() == DEFAULT_IO_RINGS,
        s.n_devices > MAX_IO_RINGS ==> s.wanted() == MAX_IO_RINGS,
        s.fits(n) ==> s.fits(fewer),
        s.per_expert_bytes > 0 && (n * s.experts_per_batch + s.workers) * (4 * s.per_expert_bytes)
            <= usize::MAX ==> (s.fits(n) <==> (n * s.experts_per_batch + s.workers) * (4
            * s.per_expert_bytes) <= s.budget),
{
    if fewer < n {
        lemma_reserve_grows_with_rings(
            fewer,
            n,
            s.experts_per_batch as int,
            s.workers as int,
            4 * s.per_expert_bytes,
        );
    }
    if s.per_expert_bytes > 0 {
        lemma_reserve_is_every_buffer(
            n,
            s.experts_per_batch as int,
            s.workers as int,
            4 * s.per_expert_bytes,
        );
    }
}

/// The figure of a memory dump is the number that follows its tag on the first
/// line that starts with it, whatever white space stands before and whatever unit
/// after; without such a line it is zero.
pub proof fn lemma_meminfo_figure(before: Seq<char>, gap: Seq<char>, n: nat, after: Seq<char>)
    requires
        before.len() > 0 ==> before.last() == '\n',
        forall|a: int|
            text::starts_line(before, a) ==> !#[trigger] text::stands_at(
                before + "MemAvailable:"@ + gap + text::decimal(n) + after,
                "MemAvailable:"@,
                a,
            ),
        forall|i: int| 0 <= i < gap.len() ==> #[trigger] gap[i] == ' ',
        after.len() > 0 ==> after[0] == ' ' || after[0] == '\n',
        n <= u64::MAX,
    ensures
        meminfo_kib(before + "MemAvailable:"@ + gap + text::decimal(n) + after) == n,
{
    let tag = "MemAvailable:"@;
    let d = text::decimal(n);
    let s = before + tag + gap + d + after;
    text::lemma_decimal_reads_back(n);
    reveal_strlit("MemAvailable:");
    let at = text::lemma_tagged_line(s, tag);
    let start = before.len() as int;
    assert(s.subrange(start, start + tag.len()) =~= tag);
    assert(text::stands_at(s, tag, start));
    assert(text::starts_line(s, start)) by {
        if start > 0 {
            assert(s[start - 1] == before.last());
        }
    }
    let rest = text::tagged_line_of(s, tag)->0;
    if at < start {
        assert(text::starts_line(before, at)) by {
            if at > 0 {
                assert(before[at - 1] == s[at - 1]);
            }
        }
        assert(text::stands_at(s, tag, at));
    }
    assert(at == start);
    let from = start + tag.len();
    let end = from + rest.len();
    let digits = from + gap.len();
    let over = digits + d.len();
    assert forall|i: int| from <= i < over implies #[trigger] s[i] != '\n' by {
        if i < digits {
            assert(s[i] == gap[i - from]);
        } else {
            assert(s[i] == d[i - digits]);
            assert(text::is_digit(d[i - digits]));
        }
    }
    assert(end >= over) by {
        if end < over {
            assert(s[end] == '\n');
        }
    }
    let w = text::lemma_first_word(rest);
    let word = text::first_word(rest);
    assert forall|i: int| 0 <= i < gap.len() implies text::is_white(#[trigger] rest[i]) by {
        assert(rest[i] == s[from + i]);
        assert(s[from + i] == gap[i]);
    }
    assert forall|i: int| gap.len() <= i < gap.len() + d.len() implies rest[i] == #[trigger] d[i
        - gap.len()] && !text::is_white(rest[i]) by {
        assert(rest[i] == s[from + i]);
        assert(s[from + i] == d[i - gap.len()]);
        assert(text::is_digit(d[i - gap.len()]));
    }
    let g = gap.len() as int;
    assert(rest[g] == d[0]);
    if w > g {
        assert(text::is_white(rest[g]));
    }
    if w < g {
        assert(text::is_white(rest[w]));
        if word.len() > 0 {
            assert(word[0] == rest[w]);
        }
        assert(false) by {
            // an empty word is followed by white space or the end of the line
            assert(word.len() == 0);
            lemma_no_empty_first_word(rest, g);
        }
    }
    let m = word.len() as int;
    if m < d.len() {
        assert(rest[g + m] == d[m]);
    }
    if m > d.len() {
        let i = d.len() as int;
        assert(word[i] == rest[g + i]);
        assert(rest[g + i] == s[over]);
        assert(s[over] == after[0]);
    }
    assert(word =~= d);
    text::lemma_numbers_read_back(Seq::empty(), n, Seq::empty(), u64::MAX as int);
}

proof fn lemma_no_empty_first_word(s: Seq<char>, i: int)
    requires
        0 <= i < s.len(),
        !text::is_white(s[i]),
    ensures
        text::first_word(s).len() > 0,
    decreases s.len(),
{
    if text::is_white(s[0]) {
        let t = s.subrange(1, s.len() as int);
        assert(t[i - 1] == s[i]);
        lemma_no_empty_first_word(t, i - 1);
        assert(text::first_word(s) == text::first_word(t));
    } else {
        assert(text::leading_word(s).len() > 0);
    }
}

/// A path's names come one after the other: a name that is neither empty nor `.`
/// is the first, what follows its slash gives the others, and slashes and dots
/// between names add none.
pub proof fn lemma_components_of_a_path(name: Seq<char>, rest: Seq<char>)
    requires
        forall|i: int| 0 <= i < name.len() ==> #[trigger] name[i] != '/',
    ensures
        name.len() > 0 && name != seq!['.'] ==> components(name + seq!['/'] + rest) == seq![name]
            + components(rest),
        name.len() > 0 && name != seq!['.'] ==> components(name) == seq![name],
        name.len() == 0 || name == seq!['.'] ==> components(name + seq!['/'] + rest) == components(
            rest,
        ),
        components(Seq::empty()) == Seq::<Seq<char>>::empty(),
{
    let path = name + seq!['/'] + rest;
    let n = name.len() as int;
    lemma_name_runs_to(path, 0, n);
    assert(path[n] == '/');
    assert(name_end(path, n) == n);
    assert(path.subrange(0, n) =~= name);
    assert(path.subrange(n + 1, path.len() as int) =~= rest);
    lemma_name_runs_to(name, 0, n);
    assert(name.subrange(0, n) =~= name);
    assert(components(Seq::empty()) =~= Seq::<Seq<char>>::empty());
    assert(seq![name] + components(Seq::empty()) =~= seq![name]);
}

proof fn lemma_name_runs_to(path: Seq<char>, a: int, n: int)
    requires
        0 <= a <= n <= path.len(),
        forall|i: int| a <= i < n ==> #[trigger] path[i] != '/',
    ensures
        name_end(path, a) == name_end(path, n),
    decreases n - a,
{
    if a < n {
        lemma_name_runs_to(path, a + 1, n);
    }
}

} // verus!
