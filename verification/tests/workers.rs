use avet::workers::{
    cgroup_dirs, headroom, meminfo_available_kib, parse_cgroup_paths, reclaimable_bytes, split, tightest,
};

const HD: f64 = 1920.0 * 1080.0 / 1e6;
const UHD: f64 = 3840.0 * 2160.0 / 1e6;

/// The workers that this much memory has room for at a picture of this size.
fn by_ram(ram_gb: f64, megapixels: f64) -> usize {
    (ram_gb / (megapixels * (1.2 + 0.3))).floor() as usize
}

#[test]
fn workers_split_by_cores_and_by_ram_whichever_allows_fewer() {
    assert_eq!(split(24, by_ram(64.0, HD), 6).workers, 4);
    assert_eq!(split(24, by_ram(64.0, UHD), 6).workers, 4);
    assert_eq!(split(24, by_ram(20.0, UHD), 6).workers, 1);
    assert_eq!(split(24, by_ram(20.0, HD), 6).workers, 4);
    assert_eq!(split(2, by_ram(64.0, HD), 6).workers, 1);
    assert_eq!(split(24, by_ram(0.5, HD), 6).workers, 1);
}

#[test]
fn cgroup_lookup_walks_from_the_root_down_to_the_process_own_group() {
    // Docker's default namespace maps the process to "/".
    let dirs = cgroup_dirs("/sys/fs/cgroup", Some("/"));
    assert_eq!(dirs, vec!["/sys/fs/cgroup"]);

    // A systemd unit or a k8s pod carries the limit on an ancestor.
    let dirs = cgroup_dirs("/sys/fs/cgroup", Some("/system.slice/avet.service"));
    assert_eq!(
        dirs,
        vec![
            "/sys/fs/cgroup",
            "/sys/fs/cgroup/system.slice",
            "/sys/fs/cgroup/system.slice/avet.service",
        ]
    );

    let dirs = cgroup_dirs("/sys/fs/cgroup", None);
    assert_eq!(dirs, vec!["/sys/fs/cgroup"]);
}

#[test]
fn own_cgroup_paths_reads_both_hierarchies() {
    let map = parse_cgroup_paths("0::/system.slice/avet.service\n4:memory:/docker/abc123\n");
    assert_eq!(map.get("").map(String::as_str), Some("/system.slice/avet.service"));
    assert_eq!(map.get("memory").map(String::as_str), Some("/docker/abc123"));
    assert_eq!(map.get("cpu"), None);
}

#[test]
fn a_group_leaves_its_limit_less_what_it_cannot_give_back() {
    let stat = "anon 4096\ninactive_file 1000\nactive_file 2000\n";
    assert_eq!(reclaimable_bytes(Some(stat)), 1000);
    assert_eq!(headroom(Some("10000\n"), Some("4000\n"), Some(stat)), Some(7000));
    assert_eq!(headroom(Some("10000"), Some("500"), Some(stat)), Some(10000));
    assert_eq!(headroom(Some("max\n"), Some("4000\n"), None), None);
    assert_eq!(headroom(Some("18446744073709547520\n"), Some("4000\n"), None), None);
    assert_eq!(headroom(Some("100"), Some("4000"), None), Some(0));
}

#[test]
fn available_memory_is_read_from_meminfo() {
    let text = "MemTotal:       65716380 kB\nMemAvailable:   41943040 kB\n";
    assert_eq!(meminfo_available_kib(text), Some(41943040));
    assert_eq!(meminfo_available_kib("MemTotal: 1 kB\n"), None);
}

#[test]
fn the_tightest_limit_of_all_levels_counts() {
    assert_eq!(tightest(&[]), None);
    assert_eq!(tightest(&[None, None]), None);
    assert_eq!(tightest(&[None, Some(7), Some(3), None, Some(5)]), Some(3));
}
