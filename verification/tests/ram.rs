use peregrine_model::ram::{
    cache_ask, cap_ecache_budget, cgroup_available_bytes, cgroup_walk_dirs, guard_acts, guard_ask,
    host_mem_available_bytes,
    io_rings, io_rings_for, mem_available_bytes, self_cgroup_v2_rel, stream_transient_reserve,
    CacheAsk, GuardAsk, Readings, RingSizing, DEFAULT_IO_RINGS,
};

fn sizing(n_devices: usize, avail_bytes: u64, per_expert_bytes: usize) -> RingSizing {
    RingSizing {
        n_devices,
        avail_bytes,
        budget: (avail_bytes as f64 * 0.4) as u64,
        experts_per_batch: 4,
        workers: 8,
        per_expert_bytes,
    }
}

#[test]
fn cap_ecache_budget_leaves_ram_headroom() {
    // plenty of RAM: the requested budget is unchanged
    assert_eq!(cap_ecache_budget(4 << 30, 32 << 30, 2 << 30, 1 << 30), 4 << 30);
    // tight RAM: capped to what the reserve and the safety margin leave
    assert_eq!(cap_ecache_budget(10 << 30, 12 << 30, 2 << 30, 1 << 30), 9 << 30);
    // no headroom left: 0 disables the cache rather than risking the machine
    assert_eq!(cap_ecache_budget(4 << 30, 2 << 30, 2 << 30, 1 << 30), 0);
}

#[test]
fn ring_reserve_grows_monotonically_with_the_derived_count() {
    let region = 19 << 20;
    let w = 8;
    let a = stream_transient_reserve(DEFAULT_IO_RINGS, 4, w, 4 * region);
    let b = stream_transient_reserve(DEFAULT_IO_RINGS + 1, 4, w, 4 * region);
    assert!(b > a, "an extra ring must cost extra reserve, else the projection is blind to it");
}

#[test]
fn stream_transient_reserve_scales_with_lanes() {
    assert_eq!(stream_transient_reserve(4, 6, 8, 1000), (4 * 6 + 8) * 1000);
    assert_eq!(stream_transient_reserve(0, 6, 0, 1000), 0);
    assert_eq!(stream_transient_reserve(usize::MAX, 2, 1, 2), usize::MAX);
}

#[test]
fn self_cgroup_rel_takes_the_v2_line_and_ignores_v1_noise() {
    let dump = "12:pids:/user.slice\n1:name=systemd:/init.scope\n0::/user.slice/user-1000.slice/run-abc.scope\n";
    assert_eq!(
        self_cgroup_v2_rel(dump),
        Some("/user.slice/user-1000.slice/run-abc.scope")
    );
    assert_eq!(self_cgroup_v2_rel("12:pids:/x\n"), None, "no v2 line, no walk");
}

#[test]
fn cgroup_walk_visits_leaf_to_root_so_the_tightest_limit_wins() {
    let s = cgroup_walk_dirs("/user.slice/run-abc.scope");
    assert_eq!(
        s,
        vec![
            "/sys/fs/cgroup/user.slice/run-abc.scope",
            "/sys/fs/cgroup/user.slice",
            "/sys/fs/cgroup",
        ]
    );
    // Root-relative spelling degenerates to the root probe alone.
    assert_eq!(cgroup_walk_dirs("/"), vec!["/sys/fs/cgroup"]);
}

#[test]
fn ring_count_follows_device_count() {
    let region = 19 << 20;
    let roomy = 512u64 << 30;
    assert_eq!(io_rings_for(None, &sizing(5, roomy, region)), 5, "five devices want five rings");
    assert_eq!(io_rings_for(None, &sizing(6, roomy, region)), 6);
    assert_eq!(
        io_rings_for(None, &sizing(1, roomy, region)),
        DEFAULT_IO_RINGS,
        "a single-device box must be unchanged by this"
    );
    assert_eq!(
        io_rings_for(None, &sizing(2, roomy, region)),
        DEFAULT_IO_RINGS,
        "fewer devices than the floor must not REDUCE the ring count"
    );
    assert_eq!(io_rings_for(None, &sizing(64, roomy, region)), 16, "capped like io_rings()");
}

#[test]
fn ring_count_backs_off_when_buffers_would_not_fit() {
    let region = 19 << 20;
    assert_eq!(
        io_rings_for(None, &sizing(8, 1 << 30, region)),
        DEFAULT_IO_RINGS,
        "must not raise rings into an OOM"
    );
    assert!(io_rings_for(None, &sizing(8, 1, region)) >= DEFAULT_IO_RINGS);
    assert_eq!(io_rings_for(None, &sizing(5, 0, region)), 5);
}

#[test]
fn an_explicit_ring_count_wins() {
    assert_eq!(io_rings_for(Some("7"), &sizing(2, 1, 19 << 20)), 7);
    assert_eq!(io_rings(None), DEFAULT_IO_RINGS);
    assert_eq!(io_rings(Some("99")), 16);
    assert_eq!(io_rings(Some("words")), DEFAULT_IO_RINGS);
}

#[test]
fn available_memory_is_read_in_kibibytes() {
    let dump = "MemTotal:  100 kB\nMemAvailable:    2048 kB\nCached: 1 kB\n";
    assert_eq!(host_mem_available_bytes(dump), 2048 * 1024);
    assert_eq!(host_mem_available_bytes("MemTotal: 5 kB\n"), 0);
    assert_eq!(mem_available_bytes(10, Some(4)), 4);
    assert_eq!(mem_available_bytes(10, None), 10);
}

fn level(limit: &str, used: &str) -> Readings {
    Readings { limit: Some(limit.to_string()), used: Some(used.to_string()) }
}

#[test]
fn the_tightest_level_bounds_the_group() {
    let none = Readings { limit: None, used: None };
    let levels = vec![level("max\n", "7\n"), level("100\n", "30\n"), level("90\n", "40\n")];
    assert_eq!(cgroup_available_bytes(&levels, &none), Some(50));
    assert_eq!(cgroup_available_bytes(&vec![level("max", "7")], &none), None);
}

#[test]
fn a_cache_setting_is_a_share_or_a_number() {
    assert_eq!(cache_ask(None), CacheAsk::Unset);
    assert_eq!(cache_ask(Some(" AUTO ")), CacheAsk::Share);
    assert_eq!(cache_ask(Some("auto")), CacheAsk::Share);
    assert_eq!(cache_ask(Some("8")), CacheAsk::Gibibytes);
    assert_eq!(cache_ask(Some("lots")), CacheAsk::Gibibytes);
}

#[test]
fn a_memory_ceiling_is_set_or_projected() {
    assert_eq!((guard_ask(None), guard_ask(Some("")), guard_ask(Some(" \t"))), (GuardAsk::Projected, GuardAsk::Projected, GuardAsk::Projected));
    assert_eq!((guard_ask(Some(" 24 ")), guard_ask(Some("lots"))), (GuardAsk::Gigabytes, GuardAsk::Gigabytes));
    assert!(guard_acts(true, 1) && !guard_acts(true, 0) && !guard_acts(false, 1));
}
