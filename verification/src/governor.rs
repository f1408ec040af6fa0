//! Pacing between forwards: lane totals, the sensor governors that bound the
//! worker count, the learned knobs within that bound, and the I/O worker cap.

use vstd::prelude::*;

use crate::knobs;
use crate::text;

verus! {

/// Forwards between two sensor reads.
pub const SENSOR_PERIOD: u64 = 16;

/// Forwards between two upward probes of the bandwidth governor.
pub const PROBE_PERIOD: u64 = 256;

/// The temperature limit a setting spells, white space around it aside.
pub open spec fn limit_of(value: Option<Seq<char>>) -> Option<int> {
    match value {
        Some(v) => text::i32_value(text::trimmed(v)),
        None => None,
    }
}

/// Reads a temperature limit in whole degrees.
pub fn thermal_limit(value: Option<&str>) -> (limit: Option<i32>)
    ensures
        limit is Some <==> limit_of(knobs::setting(value)) is Some,
        limit is Some ==> limit_of(knobs::setting(value)) == Some(limit->0 as int),
{
    match value {
        Some(v) => text::parse_i32(text::trim(v)),
        None => None,
    }
}

/// Where measured power stands against its cap.
#[derive(Clone, Copy, Debug, PartialEq, Eq, Structural)]
pub enum Power {
    /// No measurement: no meter, or no time has passed since the last.
    Unread,
    /// Above the cap.
    Over,
    /// Below four fifths of it.
    Low,
    /// In between.
    Steady,
}

/// The governors asked for.
#[derive(Clone, Copy, Debug)]
pub struct GovernorSettings {
    /// The temperature above which to shrink.
    pub thermal: Option<i32>,
    /// Whether there is a power cap.
    pub power: bool,
    /// Whether a bandwidth plateau shrinks.
    pub bandwidth: bool,
}

/// What one forward measured.
#[derive(Clone, Copy, Debug)]
pub struct SensorReading {
    /// Microseconds the CPU lane worked.
    pub cpu_us: u64,
    /// Bytes it moved.
    pub cpu_bytes: u64,
    /// Its bandwidth fell off the smoothed one.
    pub plateau: bool,
    /// The hottest sensor, where one answered.
    pub temp: Option<i32>,
    /// Where power stands.
    pub power: Power,
}

/// The governors' own clock. Which sensors are due and whether an upward probe
/// is depend on it and on nothing else.
pub struct GovernorState {
    /// Forwards stepped.
    pub tick: u64,
    /// The worker count the model was built with.
    pub base_workers: usize,
    /// Tick of the last upward probe.
    pub last_probe: u64,
}

/// Some governor was asked for.
pub open spec fn governed(g: GovernorSettings) -> bool {
    g.thermal is Some || g.power || g.bandwidth
}

/// The bandwidth governor has a measurement to judge.
pub open spec fn measured(g: GovernorSettings, r: SensorReading) -> bool {
    g.bandwidth && r.cpu_us > 0 && r.cpu_bytes > 0
}

/// Tick `t` reads the sensors.
pub open spec fn sensing(t: int) -> bool {
    t % 16 == 0
}

/// Some governor calls for fewer workers at tick `t`.
pub open spec fn calls_to_shrink(g: GovernorSettings, r: SensorReading, t: int, current: int) -> bool {
    ||| measured(g, r) && r.plateau && current > 2
    ||| sensing(t) && g.thermal is Some && r.temp is Some && r.temp->0 > g.thermal->0
    ||| sensing(t) && g.power && r.power == Power::Over
}

/// Some governor calls for more workers at tick `t`: a probe is due, or a
/// sensor stands well below its limit. None does at the full count.
pub open spec fn calls_to_grow(
    g: GovernorSettings,
    r: SensorReading,
    t: int,
    last_probe: int,
    current: int,
    base: int,
) -> bool {
    &&& current < base
    &&& {
        ||| measured(g, r) && t - last_probe >= 256
        ||| sensing(t) && g.thermal is Some && r.temp is Some && r.temp->0 < g.thermal->0 - 8
        ||| sensing(t) && g.power && r.power == Power::Low
    }
}

/// The change in workers the governors call for together at tick `t`.
pub open spec fn called_for(
    g: GovernorSettings,
    r: SensorReading,
    t: int,
    last_probe: int,
    current: int,
    base: int,
) -> int {
    if !governed(g) {
        0
    } else if calls_to_shrink(g, r, t, current) {
        -1
    } else if calls_to_grow(g, r, t, last_probe, current, base) {
        1
    } else {
        0
    }
}

impl GovernorState {
    /// A governor that has seen no forward.
    pub fn new(base_workers: usize) -> (g: GovernorState)
        ensures
            g.tick == 0,
            g.base_workers == base_workers,
            g.last_probe == 0,
    {
        GovernorState { tick: 0, base_workers, last_probe: 0 }
    }

    /// Whether the next step reads the sensors.
    pub fn sensors_due(&self) -> (b: bool)
        requires
            self.tick < u64::MAX,
        ensures
            b == sensing(self.tick + 1),
    {
        (self.tick + 1) % SENSOR_PERIOD == 0
    }

    /// One step: the change in workers, -1, 0 or +1. Any call to shrink wins over
    /// any call to grow. The probe clock restarts whenever its period has passed,
    /// whether or not there was room to probe.
    pub fn step(&mut self, g: &GovernorSettings, r: &SensorReading, current: usize) -> (delta: i32)
        requires
            old(self).tick < u64::MAX,
        ensures
            final(self).tick == old(self).tick + 1,
            final(self).base_workers == old(self).base_workers,
            final(self).last_probe == if measured(*g, *r) && final(self).tick - old(self).last_probe
                >= 256 {
                final(self).tick
            } else {
                old(self).last_probe
            },
            delta == called_for(
                *g,
                *r,
                final(self).tick as int,
                old(self).last_probe as int,
                current as int,
                old(self).base_workers as int,
            ),
    {
        self.tick = self.tick + 1;
        if g.thermal.is_none() && !g.power && !g.bandwidth {
            return 0;
        }
        let mut shrink = false;
        let mut grow = false;
        if g.bandwidth && r.cpu_us > 0 && r.cpu_bytes > 0 {
            if r.plateau && current > 2 {
                shrink = true;
            }
            if self.tick.saturating_sub(self.last_probe) >= PROBE_PERIOD {
                if current < self.base_workers {
                    grow = true;
                }
                self.last_probe = self.tick;
            }
        }
        if self.tick % SENSOR_PERIOD == 0 {
            match (g.thermal, r.temp) {
                (Some(limit), Some(t)) => {
                    if t > limit {
                        shrink = true;
                    } else if (t as i64) < limit as i64 - 8 && current < self.base_workers {
                        grow = true;
                    }
                },
                _ => {},
            }
            if g.power {
                if r.power == Power::Over {
                    shrink = true;
                } else if r.power == Power::Low && current < self.base_workers {
                    grow = true;
                }
            }
        }
        if shrink {
            -1
        } else if grow {
            1
        } else {
            0
        }
    }
}

/// Per-lane times of one forward, in microseconds, and the bytes the CPU moved.
#[derive(Clone, Copy, Debug, PartialEq, Eq, Structural)]
pub struct LaneSample {
    /// Expert reads.
    pub io_us: u64,
    /// CPU compute.
    pub cpu_us: u64,
    /// Device compute.
    pub gpu_us: u64,
    /// Reduction.
    pub reduce_us: u64,
    /// Bytes the CPU lane moved.
    pub cpu_bytes: u64,
    /// Wall time of the lanes together.
    pub lane_wall_us: u64,
    /// Time spent waiting for the cache.
    pub cache_wait_us: u64,
}

/// The sum of two counters, which wrap around.
pub open spec fn wrapped(a: u64, b: u64) -> int {
    if a + b > u64::MAX {
        a + b - 0x1_0000_0000_0000_0000
    } else {
        a + b
    }
}

/// `t` is `a` with `b` added to every counter.
pub open spec fn added(a: LaneSample, b: LaneSample, t: LaneSample) -> bool {
    &&& t.io_us == wrapped(a.io_us, b.io_us)
    &&& t.cpu_us == wrapped(a.cpu_us, b.cpu_us)
    &&& t.gpu_us == wrapped(a.gpu_us, b.gpu_us)
    &&& t.reduce_us == wrapped(a.reduce_us, b.reduce_us)
    &&& t.cpu_bytes == wrapped(a.cpu_bytes, b.cpu_bytes)
    &&& t.lane_wall_us == wrapped(a.lane_wall_us, b.lane_wall_us)
    &&& t.cache_wait_us == wrapped(a.cache_wait_us, b.cache_wait_us)
}

/// A sample of no time spent.
pub open spec fn idle() -> LaneSample {
    LaneSample {
        io_us: 0,
        cpu_us: 0,
        gpu_us: 0,
        reduce_us: 0,
        cpu_bytes: 0,
        lane_wall_us: 0,
        cache_wait_us: 0,
    }
}

impl LaneSample {
    /// No time spent.
    pub fn zero() -> (s: LaneSample)
        ensures
            s == idle(),
    {
        LaneSample {
            io_us: 0,
            cpu_us: 0,
            gpu_us: 0,
            reduce_us: 0,
            cpu_bytes: 0,
            lane_wall_us: 0,
            cache_wait_us: 0,
        }
    }

    /// Adds a forward's sample.
    pub fn plus(&self, b: &LaneSample) -> (t: LaneSample)
        ensures
            added(*self, *b, t),
    {
        LaneSample {
            io_us: self.io_us.wrapping_add(b.io_us),
            cpu_us: self.cpu_us.wrapping_add(b.cpu_us),
            gpu_us: self.gpu_us.wrapping_add(b.gpu_us),
            reduce_us: self.reduce_us.wrapping_add(b.reduce_us),
            cpu_bytes: self.cpu_bytes.wrapping_add(b.cpu_bytes),
            lane_wall_us: self.lane_wall_us.wrapping_add(b.lane_wall_us),
            cache_wait_us: self.cache_wait_us.wrapping_add(b.cache_wait_us),
        }
    }
}

/// The knobs a learned scheduler turns.
#[derive(Clone, Copy, Debug, PartialEq, Eq, Structural)]
pub struct KnobArm {
    /// How far ahead to prefetch.
    pub prefetch_distance: usize,
    /// How many workers to run.
    pub workers: usize,
}

/// A cap on the kernel's I/O workers.
#[derive(Clone, Copy, Debug, PartialEq, Eq, Structural)]
pub struct IowqCap {
    /// Bounded workers.
    pub bounded: u32,
    /// Unbounded workers.
    pub unbounded: u32,
}

/// `n` brought into `lo..=hi`.
pub open spec fn clamped(n: int, lo: int, hi: int) -> int {
    if n < lo {
        lo
    } else if n > hi {
        hi
    } else {
        n
    }
}

/// The smaller of two counts.
pub open spec fn lesser(a: int, b: int) -> int {
    if a < b {
        a
    } else {
        b
    }
}

/// The larger of two counts.
pub open spec fn larger(a: int, b: int) -> int {
    if a > b {
        a
    } else {
        b
    }
}

/// The worker count after a governor's `delta`.
pub open spec fn governed_workers(current: int, delta: int, workers: int) -> int {
    if delta == 0 {
        current
    } else {
        clamped(current + delta, 2, workers)
    }
}

/// The worker count a learned choice may not exceed: what the governor shrank
/// to, or everything.
pub open spec fn ceiling(current: int, delta: int, workers: int) -> int {
    if delta < 0 {
        governed_workers(current, delta, workers)
    } else {
        workers
    }
}

/// The worker count a learned choice gets.
pub open spec fn learned_workers(asked: int, workers: int, ceil: int) -> int {
    clamped(asked, 2, lesser(workers, larger(ceil, 2)))
}

/// What a model carries from one forward to the next to pace itself.
pub struct Pacer {
    workers: usize,
    effective: usize,
    learned_prefetch: usize,
    last: LaneSample,
    totals: LaneSample,
    forwards: u64,
    advanced: bool,
    cap: Option<IowqCap>,
}

impl Pacer {
    /// The worker count the model was built with.
    pub closed spec fn built(&self) -> int {
        self.workers as int
    }

    /// The worker count in force.
    pub closed spec fn in_force(&self) -> int {
        self.effective as int
    }

    /// The learned prefetch distance; zero before there is one.
    pub closed spec fn distance(&self) -> int {
        self.learned_prefetch as int
    }

    /// The last forward's sample.
    pub closed spec fn latest(&self) -> LaneSample {
        self.last
    }

    /// Every forward's sample added up.
    pub closed spec fn sums(&self) -> LaneSample {
        self.totals
    }

    /// Forwards published.
    pub closed spec fn count(&self) -> u64 {
        self.forwards
    }

    /// A forward has logged its routing since the last publication.
    pub closed spec fn fresh(&self) -> bool {
        self.advanced
    }

    /// The I/O worker cap in force.
    pub closed spec fn in_cap(&self) -> Option<IowqCap> {
        self.cap
    }

    /// Never more workers than the model was built with, and at least two unless
    /// it was built with fewer.
    pub open spec fn wf(&self) -> bool {
        &&& 0 <= self.in_force() <= self.built() < i64::MAX
        &&& self.built() >= 2 ==> self.in_force() >= 2
    }

    /// A model that has forwarded nothing.
    pub fn new(workers: usize) -> (p: Pacer)
        requires
            workers < i64::MAX,
        ensures
            p.wf(),
            p.built() == workers,
            p.in_force() == workers,
            p.distance() == 0,
            p.count() == 0,
            !p.fresh(),
            p.in_cap() is None,
            p.latest() == idle(),
            p.sums() == idle(),
    {
        Pacer {
            workers,
            effective: workers,
            learned_prefetch: 0,
            last: LaneSample::zero(),
            totals: LaneSample::zero(),
            forwards: 0,
            advanced: false,
            cap: None,
        }
    }

    /// The worker count for the next forward, at least one.
    pub fn effective_workers(&self) -> (n: usize)
        ensures
            n == larger(self.in_force(), 1),
    {
        if self.effective > 1 {
            self.effective
        } else {
            1
        }
    }

    /// The last forward's sample.
    pub fn last_lane_timings(&self) -> (s: LaneSample)
        ensures
            s == self.latest(),
    {
        self.last
    }

    /// Everything spent so far, and over how many forwards.
    pub fn lane_totals(&self) -> (t: (LaneSample, u64))
        ensures
            t.0 == self.sums(),
            t.1 == self.count(),
    {
        (self.totals, self.forwards)
    }

    /// The I/O worker cap in force.
    pub fn last_iowq(&self) -> (cap: Option<IowqCap>)
        ensures
            cap == self.in_cap(),
    {
        self.cap
    }

    /// Records that this forward logs its routing.
    pub fn note_routing(&mut self)
        requires
            old(self).wf(),
        ensures
            final(self).wf(),
            final(self).fresh(),
            final(self).in_force() == old(self).in_force(),
            final(self).built() == old(self).built(),
            final(self).distance() == old(self).distance(),
            final(self).latest() == old(self).latest(),
            final(self).sums() == old(self).sums(),
            final(self).count() == old(self).count(),
            final(self).in_cap() == old(self).in_cap(),
    {
        self.advanced = true;
    }

    /// Publishes a forward's sample and applies the governor's `delta`. Returns
    /// the ceiling a learned choice has to keep under in this same forward: a
    /// shrink is a hardware limit, not a suggestion. A change needs a model built
    /// with two workers or more.
    pub fn publish(&mut self, sample: LaneSample, delta: i32) -> (ceil: usize)
        requires
            old(self).wf(),
            -1 <= delta <= 1,
            delta != 0 ==> old(self).built() >= 2,
        ensures
            final(self).wf(),
            final(self).latest() == sample,
            added(old(self).sums(), sample, final(self).sums()),
            final(self).count() == wrapped(old(self).count(), 1),
            final(self).in_force() == governed_workers(
                old(self).in_force(),
                delta as int,
                old(self).built(),
            ),
            ceil == ceiling(old(self).in_force(), delta as int, old(self).built()),
            final(self).built() == old(self).built(),
            final(self).distance() == old(self).distance(),
            final(self).fresh() == old(self).fresh(),
            final(self).in_cap() == old(self).in_cap(),
    {
        self.last = sample;
        self.totals = self.totals.plus(&sample);
        self.forwards = self.forwards.wrapping_add(1);
        if delta != 0 {
            let n: i64 = self.effective as i64 + delta as i64;
            self.effective = if n < 2 {
                2
            } else if n > self.workers as i64 {
                self.workers
            } else {
                n as usize
            };
        }
        if delta < 0 {
            self.effective
        } else {
            self.workers
        }
    }

    /// The knobs the learned scheduler chooses from: its own last distance,
    /// verbatim but for a floor of one, and the workers in force.
    pub fn learner_sees(&self) -> (arm: KnobArm)
        requires
            self.wf(),
        ensures
            arm.prefetch_distance == larger(self.distance(), 1),
            arm.workers == self.in_force(),
    {
        KnobArm {
            prefetch_distance: if self.learned_prefetch > 1 {
                self.learned_prefetch
            } else {
                1
            },
            workers: self.effective,
        }
    }

    /// Stages the learned scheduler's choice, within the governor's ceiling, in a
    /// model built with two workers or more.
    pub fn stage(&mut self, next: KnobArm, ceil: usize)
        requires
            old(self).wf(),
            old(self).built() >= 2,
        ensures
            final(self).wf(),
            final(self).distance() == next.prefetch_distance,
            final(self).in_force() == learned_workers(
                next.workers as int,
                old(self).built(),
                ceil as int,
            ),
            final(self).built() == old(self).built(),
            final(self).latest() == old(self).latest(),
            final(self).sums() == old(self).sums(),
            final(self).count() == old(self).count(),
            final(self).fresh() == old(self).fresh(),
            final(self).in_cap() == old(self).in_cap(),
    {
        self.learned_prefetch = next.prefetch_distance;
        let floor: usize = if ceil > 2 {
            ceil
        } else {
            2
        };
        let hi: usize = if self.workers < floor {
            self.workers
        } else {
            floor
        };
        self.effective = if next.workers < 2 {
            2
        } else if next.workers > hi {
            hi
        } else {
            next.workers
        };
    }

    /// Takes the mark that a forward logged its routing. Only then is there a
    /// fresh frame to fold: refolding a frozen one would make every pair in it
    /// look inseparable.
    pub fn take_fresh(&mut self) -> (b: bool)
        requires
            old(self).wf(),
        ensures
            final(self).wf(),
            b == old(self).fresh(),
            !final(self).fresh(),
            final(self).in_force() == old(self).in_force(),
            final(self).built() == old(self).built(),
            final(self).distance() == old(self).distance(),
            final(self).latest() == old(self).latest(),
            final(self).sums() == old(self).sums(),
            final(self).count() == old(self).count(),
            final(self).in_cap() == old(self).in_cap(),
    {
        let b = self.advanced;
        self.advanced = false;
        b
    }

    /// Takes the I/O tuner's recommendation. Returns the cap to set on every
    /// ring, `None` when there is nothing to recommend or nothing changed.
    pub fn recommend(&mut self, rec: Option<IowqCap>) -> (set: Option<IowqCap>)
        requires
            old(self).wf(),
        ensures
            final(self).wf(),
            final(self).in_force() == old(self).in_force(),
            final(self).built() == old(self).built(),
            final(self).distance() == old(self).distance(),
            final(self).latest() == old(self).latest(),
            final(self).sums() == old(self).sums(),
            final(self).count() == old(self).count(),
            final(self).fresh() == old(self).fresh(),
            set == if rec is Some && rec != old(self).in_cap() {
                rec
            } else {
                None
            },
            final(self).in_cap() == if rec is Some {
                rec
            } else {
                old(self).in_cap()
            },
    {
        match rec {
            Some(cap) => {
                let same = match self.cap {
                    Some(c) => c == cap,
                    None => false,
                };
                if same {
                    None
                } else {
                    self.cap = Some(cap);
                    Some(cap)
                }
            },
            None => None,
        }
    }
}

/// Whether the routing-entropy average is kept up to date: asked for, or read by
/// a learned scheduler or by topic profiles.
pub fn entropy_wanted(adapt: bool, learner: bool, topics: bool) -> (b: bool)
    ensures
        b == (adapt || learner || topics),
{
    adapt || learner || topics
}

/// The first `n` counts added up.
pub open spec fn total(v: Seq<u64>, n: nat) -> int
    decreases n,
{
    if n == 0 {
        0
    } else {
        total(v, (n - 1) as nat) + v[n - 1]
    }
}

proof fn lemma_total_grows(v: Seq<u64>, m: nat, n: nat)
    requires
        m <= n <= v.len(),
    ensures
        0 <= total(v, m) <= total(v, n),
    decreases n,
{
    if n > 0 {
        lemma_total_grows(
            v,
            if m < n {
                m
            } else {
                (n - 1) as nat
            },
            (n - 1) as nat,
        );
    }
}

/// What to tell the I/O tuner of a forward: its read time and the submissions
/// its rings rejected. `None` for a forward that read nothing and rejected none.
pub fn reads_to_note(io_us: u64, rejected: &Vec<u64>) -> (note: Option<(u64, u64)>)
    requires
        total(rejected@, rejected@.len()) <= u64::MAX,
    ensures
        note is Some <==> io_us > 0 || total(rejected@, rejected@.len()) > 0,
        note is Some ==> (note->0).0 == io_us && (note->0).1 == total(rejected@, rejected@.len()),
{
    let mut sum: u64 = 0;
    let mut i: usize = 0;
    while i < rejected.len()
        invariant
            i <= rejected@.len(),
            total(rejected@, rejected@.len()) <= u64::MAX,
            sum == total(rejected@, i as nat),
        decreases rejected@.len() - i,
    {
        proof {
            lemma_total_grows(rejected@, (i + 1) as nat, rejected@.len());
        }
        sum = sum + rejected[i];
        i = i + 1;
    }
    if io_us > 0 || sum > 0 {
        Some((io_us, sum))
    } else {
        None
    }
}

/// Safety beats throughput: a sensor above its limit shrinks, whatever the other
/// governors call for, and nothing ever grows past the built count.
pub proof fn lemma_shrink_wins(
    g: GovernorSettings,
    r: SensorReading,
    t: int,
    last_probe: int,
    current: int,
    base: int,
)
    ensures
        sensing(t) && g.thermal is Some && r.temp is Some && r.temp->0 > g.thermal->0 ==> called_for(
            g,
            r,
            t,
            last_probe,
            current,
            base,
        ) == -1,
        sensing(t) && g.power && r.power == Power::Over ==> called_for(
            g,
            r,
            t,
            last_probe,
            current,
            base,
        ) == -1,
        called_for(g, r, t, last_probe, current, base) > 0 ==> current < base,
{
}

/// What a step of the governors can come to, whatever the readings: at most one
/// worker more or fewer; nothing where no governor was asked for; more only below
/// the built count; fewer whenever any governor calls for fewer, whatever calls
/// for more; with the bandwidth governor alone, fewer only above two workers; and
/// temperature and power count at every sixteenth step only.
pub proof fn lemma_governors_agree(
    g: GovernorSettings,
    r: SensorReading,
    s: SensorReading,
    t: int,
    last_probe: int,
    current: int,
    base: int,
)
    requires
        s == (SensorReading { temp: s.temp, power: s.power, ..r }),
    ensures
        -1 <= called_for(g, r, t, last_probe, current, base) <= 1,
        !governed(g) ==> called_for(g, r, t, last_probe, current, base) == 0,
        called_for(g, r, t, last_probe, current, base) == 1 ==> current < base,
        calls_to_shrink(g, r, t, current) ==> called_for(g, r, t, last_probe, current, base)
            == -1,
        g.thermal is None && !g.power && called_for(g, r, t, last_probe, current, base) == -1
            ==> current > 2,
        t % 16 != 0 ==> called_for(g, r, t, last_probe, current, base) == called_for(
            g,
            s,
            t,
            last_probe,
            current,
            base,
        ),
{
}

/// A throttle is not undone by the forward that applied it: a learned choice
/// staged under the ceiling of a shrink runs no more workers than the shrink
/// left, and never fewer than two.
pub proof fn lemma_throttle_holds(current: int, workers: int, asked: int)
    requires
        2 <= current <= workers,
    ensures
        2 <= learned_workers(asked, workers, ceiling(current, -1, workers)) <= governed_workers(
            current,
            -1,
            workers,
        ) <= current,
{
}

/// When the governors shrink and when they grow. Shrinking wins. A worker is
/// taken away where bandwidth has flattened out above two workers, where the
/// temperature is past its limit, or where power is over; one is given back,
/// never past the full count, where a bandwidth probe is due after 256 ticks,
/// the temperature is more than eight degrees below its limit, or power is low.
/// Temperature and power are looked at on every sixteenth tick only.
pub proof fn lemma_when_workers_change(
    g: GovernorSettings,
    r: SensorReading,
    t: int,
    last_probe: int,
    current: int,
    base: int,
)
    ensures
        called_for(g, r, t, last_probe, current, base) == -1 <==> {
            ||| g.bandwidth && r.cpu_us > 0 && r.cpu_bytes > 0 && r.plateau && current > 2
            ||| t % 16 == 0 && g.thermal is Some && r.temp is Some && r.temp->0 > g.thermal->0
            ||| t % 16 == 0 && g.power && r.power == Power::Over
        },
        called_for(g, r, t, last_probe, current, base) == 1 <==> {
            &&& called_for(g, r, t, last_probe, current, base) != -1
            &&& current < base
            &&& {
                ||| g.bandwidth && r.cpu_us > 0 && r.cpu_bytes > 0 && t >= last_probe + 256
                ||| t % 16 == 0 && g.thermal is Some && r.temp is Some && r.temp->0 + 8
                    < g.thermal->0
                ||| t % 16 == 0 && g.power && r.power == Power::Low
            }
        },
        -1 <= called_for(g, r, t, last_probe, current, base) <= 1,
{
}

/// A count that is called for is reached exactly where it lies between two and
/// the full count, and stops at the nearer of the two otherwise. Without a call
/// the count stays.
pub proof fn lemma_worker_count_reached(current: int, delta: int, workers: int)
    requires
        2 <= workers,
        0 <= current <= workers,
    ensures
        governed_workers(current, 0, workers) == current,
        delta != 0 && 2 <= current + delta <= workers ==> governed_workers(current, delta, workers)
            == current + delta,
        delta != 0 && current + delta < 2 ==> governed_workers(current, delta, workers) == 2,
        delta != 0 && current + delta > workers ==> governed_workers(current, delta, workers)
            == workers,
        delta < 0 ==> ceiling(current, delta, workers) == governed_workers(current, delta, workers),
        delta >= 0 ==> ceiling(current, delta, workers) == workers,
{
}

/// A learned choice is taken as it is between two workers and the ceiling, is
/// raised to two below that and lowered to the ceiling above it. The ceiling
/// never stands below two nor above the full count.
pub proof fn lemma_learned_choice(asked: int, workers: int, ceil: int)
    requires
        2 <= workers,
    ensures
        2 <= learned_workers(asked, workers, ceil) <= workers,
        asked <= 2 ==> learned_workers(asked, workers, ceil) == 2,
        2 <= asked <= workers && asked <= ceil ==> learned_workers(asked, workers, ceil) == asked,
        asked >= ceil && 2 <= ceil <= workers ==> learned_workers(asked, workers, ceil) == ceil,
        ceil <= 2 ==> learned_workers(asked, workers, ceil) == 2,
        ceil >= workers && asked >= workers ==> learned_workers(asked, workers, ceil) == workers,
{
}

/// Counters add up modulo two to the power of 64, each with its own kind.
pub proof fn lemma_counters_add(a: LaneSample, b: LaneSample, t: LaneSample)
    ensures
        forall|x: u64, y: u64|
            #![trigger wrapped(x, y)]
            wrapped(x, y) == (x + y) % 0x1_0000_0000_0000_0000,
        added(a, b, t) <==> {
            &&& t.io_us == (a.io_us + b.io_us) % 0x1_0000_0000_0000_0000
            &&& t.cpu_us == (a.cpu_us + b.cpu_us) % 0x1_0000_0000_0000_0000
            &&& t.gpu_us == (a.gpu_us + b.gpu_us) % 0x1_0000_0000_0000_0000
            &&& t.reduce_us == (a.reduce_us + b.reduce_us) % 0x1_0000_0000_0000_0000
            &&& t.cpu_bytes == (a.cpu_bytes + b.cpu_bytes) % 0x1_0000_0000_0000_0000
            &&& t.lane_wall_us == (a.lane_wall_us + b.lane_wall_us) % 0x1_0000_0000_0000_0000
            &&& t.cache_wait_us == (a.cache_wait_us + b.cache_wait_us) % 0x1_0000_0000_0000_0000
        },
        added(a, b, t) ==> added(b, a, t),
        added(a, idle(), a),
{
    assert forall|x: u64, y: u64|
        #![trigger wrapped(x, y)]
        wrapped(x, y) == (x + y) % 0x1_0000_0000_0000_0000 by {
        if x + y > u64::MAX {
            assert((x + y) % 0x1_0000_0000_0000_0000 == x + y - 0x1_0000_0000_0000_0000);
        } else {
            assert((x + y) % 0x1_0000_0000_0000_0000 == x + y);
        }
    }
}

/// Every count enters the total once: a further count adds itself, and counts
/// beyond the first `n` add nothing.
pub proof fn lemma_total_counts_each_once(v: Seq<u64>, x: u64, n: nat)
    requires
        n <= v.len(),
    ensures
        total(v, 0) == 0,
        total(v.push(x), n) == total(v, n),
        total(v.push(x), v.len() + 1) == total(v, v.len()) + x,
    decreases v.len() + n,
{
    lemma_total_of_a_longer_list(v, x, n);
    lemma_total_of_a_longer_list(v, x, v.len());
}

proof fn lemma_total_of_a_longer_list(v: Seq<u64>, x: u64, n: nat)
    requires
        n <= v.len(),
    ensures
        total(v.push(x), n) == total(v, n),
    decreases n,
{
    if n > 0 {
        lemma_total_of_a_longer_list(v, x, (n - 1) as nat);
    }
}

/// A temperature limit is read from its decimal digits, with a minus sign in
/// front where it is below zero, whatever white space stands around it.
pub proof fn lemma_limit_read_back(l: Seq<char>, n: nat, r: Seq<char>)
    requires
        forall|i: int| 0 <= i < l.len() ==> text::is_white(#[trigger] l[i]),
        forall|i: int| 0 <= i < r.len() ==> text::is_white(#[trigger] r[i]),
        n <= i32::MAX,
    ensures
        limit_of(Some(l + text::decimal(n) + r)) == Some(n as int),
        limit_of(Some(l + (seq!['-'] + text::decimal(n)) + r)) == Some(-(n as int)),
        limit_of(None) is None,
{
    text::lemma_signed_numbers_read_back(n);
    text::lemma_decimal_reads_back(n);
    let d = text::decimal(n);
    let minus = seq!['-'] + d;
    assert(text::is_digit(d[0]));
    assert(text::is_digit(d[d.len() - 1]));
    assert(minus.last() == d.last());
    text::lemma_padding_is_trimmed(l, d, r);
    text::lemma_padding_is_trimmed(l, minus, r);
}

} // verus!
