use hw_monitor::collector::{
    ac_online, at, blocks, checked_total, counter_snapshot, cpu_clocks, cpu_model, cpu_state_ticks,
    cpu_usage_ticks, delta_count, fields, filesystem_space, is_card_name, kb, leading_words,
    map_colon, memory, mounted, networks, num, psi_candidates, supply_kind, system, trimmed,
    Counters, SupplyKind,
};

const STAT: &str = "cpu  100 0 50 800 50 0 0 0 0 0
cpu0 50 0 25 400 25 0 0 0 0 0
cpu1 50 0 25 400 25 0 0 0 0 0
cpufreq 1 2 3
intr 12345 1 2 3
ctxt 999
btime 1700000000
processes 4242
procs_running 2
procs_blocked 1
";

const NET_DEV: &str = "Inter-|   Receive                                                |  Transmit
 face |bytes    packets errs drop fifo frame compressed multicast|bytes    packets errs drop fifo colls carrier compressed
    lo:  1000      10    0    0    0     0          0         0     1000      10    0    0    0     0       0          0
  eth0:  5000      50    1    2    0     0          0         0     7000      70    3    4    0     0       0          0
 wlan0:  300       3     0    0    0     0          0         0     400       4     0    0    0     0       0          0
";

const DISKSTATS: &str = "   8       0 sda 100 0 2000 30 200 0 4000 60 0 90 120 0 0 0 0
   8       1 sda1 10 0 200 3 20 0 400 6 0 9 12
   7       0 loop0 1 2 3
";

const VMSTAT: &str = "pgfault 1000\npgmajfault 10\npswpin 5\npswpout x\n";

const SNMP: &str = "Ip: Forwarding DefaultTTL
Ip: 1 64
Tcp: RtoAlgorithm RtoMin RtoMax MaxConn ActiveOpens PassiveOpens AttemptFails EstabResets CurrEstab InSegs OutSegs RetransSegs
Tcp: 1 200 120000 -1 10 20 0 1 7 1000 2000 33
";

fn snapshot() -> Counters {
    counter_snapshot(STAT, NET_DEV, DISKSTATS, VMSTAT, SNMP)
}

#[test]
fn numbers_of_files() {
    assert_eq!(num("  42\n"), Some(42));
    assert_eq!(num("+7"), Some(7));
    assert_eq!(num("-1"), None);
    assert_eq!(num("+"), None);
    assert_eq!(num(""), None);
    assert_eq!(num("1 2"), None);
    assert_eq!(num("18446744073709551615"), Some(u64::MAX));
    assert_eq!(num("18446744073709551616"), None);
    assert_eq!(num("0007"), Some(7));
}

#[test]
fn fields_keep_the_numbers() {
    assert_eq!(fields("cpu 1 2 x 3\u{a0}4"), vec![1, 2, 3, 4]);
    assert_eq!(fields("   "), Vec::<u64>::new());
}

#[test]
fn element_at() {
    assert_eq!(at(&[4, 5], 1), Some(5));
    assert_eq!(at(&[4, 5], 2), None);
}

#[test]
fn colon_tables() {
    let m = map_colon("MemTotal:  16 kB\nMemFree: 8 kB\nBroken line\nMemTotal: 32 kB\nBig: 18446744073709551615 kB\n");
    assert_eq!(kb(&m, "MemTotal"), Some(32 * 1024));
    assert_eq!(kb(&m, "MemFree"), Some(8 * 1024));
    assert_eq!(kb(&m, "Missing"), None);
    assert_eq!(kb(&m, "Big"), None);
    assert_eq!(m.len(), 3);
}

#[test]
fn counters_from_proc_files() {
    let c = snapshot();
    assert_eq!(c.cpu, vec![vec![100, 0, 50, 800, 50, 0, 0, 0, 0, 0], vec![50, 0, 25, 400, 25, 0, 0, 0, 0, 0], vec![50, 0, 25, 400, 25, 0, 0, 0, 0, 0]]);
    assert_eq!(c.ctxt, 999);
    assert_eq!(c.intr, 12345);
    assert_eq!(c.forks, 4242);
    assert_eq!(c.blocked, 1);
    assert_eq!(c.net.len(), 3);
    assert_eq!(c.net[1], ("eth0".to_string(), vec![5000, 50, 1, 2, 0, 0, 0, 0, 7000, 70, 3, 4, 0, 0, 0, 0]));
    assert_eq!(c.disk.len(), 2);
    assert_eq!(c.disk[0].0, "sda");
    assert_eq!(c.vm, vec![("pgfault".to_string(), 1000), ("pgmajfault".to_string(), 10), ("pswpin".to_string(), 5)]);
    assert_eq!(c.retrans, Some(33));
}

#[test]
fn missing_files_give_empty_counters() {
    let c = counter_snapshot("", "", "", "", "");
    assert!(c.cpu.is_empty());
    assert_eq!((c.ctxt, c.intr, c.forks, c.blocked), (0, 0, 0, 0));
    assert!(c.net.is_empty() && c.disk.is_empty() && c.vm.is_empty());
    assert_eq!(c.retrans, None);
}

#[test]
fn processor_ticks() {
    let a = [100u64, 0, 50, 800, 50];
    let b = [150u64, 0, 100, 850, 50];
    assert_eq!(checked_total(&a), Some(1000));
    assert_eq!(checked_total(&[u64::MAX, 1]), None);
    assert_eq!(cpu_usage_ticks(&a, &b), Some((50, 150)));
    assert_eq!(cpu_usage_ticks(&a, &a), None);
    assert_eq!(cpu_usage_ticks(&[1, 2], &[3, 4]), None);
    let (dt, d) = cpu_state_ticks(&a, &b);
    assert_eq!(dt, 150);
    assert_eq!(d, vec![Some(50), Some(0), Some(50), Some(50), Some(0), None, None, None]);
}

#[test]
fn growth_of_counters() {
    assert_eq!(delta_count(Some(5), Some(8)), Some(3));
    assert_eq!(delta_count(Some(8), Some(5)), None);
    assert_eq!(delta_count(None, Some(5)), None);
}

#[test]
fn processor_model_and_clocks() {
    assert_eq!(cpu_model("processor\t: 0\nmodel name\t: Example CPU @ 3.00GHz\nmodel name\t: Other\n"), "Example CPU @ 3.00GHz");
    assert_eq!(cpu_model("Hardware\t: BCM2835\n"), "BCM2835");
    assert_eq!(cpu_model("model name without colon\nmodel name: x"), "CPU");
    assert_eq!(cpu_model(""), "CPU");
    assert_eq!(cpu_clocks(&vec![Some(2_400_000), None, Some(999)]), vec![Some(2400), None, Some(0)]);
}

#[test]
fn mounted_file_systems() {
    let m = mounted("/dev/sda1 /mnt/my\\040disk ext4 rw 0 0\ntmpfs /tmp tmpfs rw 0 0\n/dev/sdb /data xfs rw 0 0\nshort line\n");
    assert_eq!(m.len(), 2);
    assert_eq!((m[0].mount.as_str(), m[0].source.as_str(), m[0].kind.as_str()), ("/mnt/my disk", "/dev/sda1", "ext4"));
    assert_eq!(m[1].mount, "/data");
    assert_eq!(filesystem_space(10, 4, 3, 4096), (40960, 24576, 12288));
    assert_eq!(filesystem_space(u64::MAX, 1, 1, 2), (u64::MAX, u64::MAX - 2, 2));
    assert_eq!(filesystem_space(1, 2, 0, 1), (1, 0, 0));
}

#[test]
fn memory_figures() {
    let prev = snapshot();
    let now = counter_snapshot(STAT, NET_DEV, DISKSTATS, "pgfault 1600\npgmajfault 5\npswpin 5\npswpout 9\n", SNMP);
    let m = memory("MemTotal: 1000 kB\nMemAvailable: 1200 kB\nSwapTotal: 100 kB\nSwapFree: 40 kB\nCached: 1 kB\n", &now, &prev);
    assert_eq!(m.total_bytes, Some(1_024_000));
    assert_eq!(m.used_bytes, Some(0));
    assert_eq!(m.swap_used_bytes, Some(60 * 1024));
    assert_eq!(m.cached_bytes, Some(1024));
    assert_eq!(m.dirty_bytes, None);
    assert_eq!(m.page_faults, Some(600));
    assert_eq!(m.major_faults, None);
    assert_eq!(m.swap_in_pages, Some(0));
    assert_eq!(m.swap_out_pages, None);
}

#[test]
fn network_figures() {
    let prev = counter_snapshot("", "a\nb\n  eth0: 4000 40 0 0 0 0 0 0 6000 60 0 0 0 0 0 0\n", "", "", "");
    let now = snapshot();
    let n = networks(&now, &prev);
    assert_eq!(n.len(), 2);
    assert_eq!(n[0].name, "eth0");
    assert_eq!((n[0].rx_bytes, n[0].tx_bytes, n[0].rx_packets, n[0].tx_packets), (Some(1000), Some(1000), Some(10), Some(10)));
    assert_eq!((n[0].rx_errors, n[0].tx_errors, n[0].rx_drops, n[0].tx_drops), (1, 3, 2, 4));
    assert_eq!(n[1].name, "wlan0");
    assert_eq!(n[1].rx_bytes, None);
}

#[test]
fn block_figures() {
    let prev = counter_snapshot("", "", "   8       0 sda 90 0 1000 20 100 0 3000 50 0 80 100\n   8       1 sda1 1 0 2 3 4 5 6 7 8 9 10\n", "", "");
    let now = snapshot();
    let b = blocks(&now, &prev, &vec!["sda".to_string(), "nvme0n1".to_string()]);
    assert_eq!(b.len(), 1);
    assert_eq!(b[0].name, "sda");
    assert_eq!((b[0].reads, b[0].read_sectors, b[0].read_ms, b[0].writes), (Some(10), Some(1000), Some(10), Some(100)));
    assert_eq!((b[0].write_sectors, b[0].write_ms, b[0].busy_ms, b[0].queue_ms), (Some(1000), Some(10), Some(10), Some(20)));
    let all = blocks(&now, &prev, &vec!["sda1".to_string(), "sda".to_string()]);
    assert_eq!(all.iter().map(|x| x.name.as_str()).collect::<Vec<_>>(), vec!["sda", "sda1"]);
}

#[test]
fn system_figures() {
    let prev = counter_snapshot("processes 4000\n", "", "", "", "Tcp: A RetransSegs\nTcp: 1 30\n");
    let now = snapshot();
    let s = system("0.52 0.58 0.59 2/345 12345\n", "NAME=Ubuntu\nPRETTY_NAME=\"Ubuntu 24.04 LTS\"\n", SNMP, " 6.8.0-generic\n", &now, &prev);
    assert_eq!(s.kernel, "6.8.0-generic");
    assert_eq!(s.distro, "Ubuntu 24.04 LTS");
    assert_eq!((s.running, s.processes), (Some(2), Some(345)));
    assert_eq!(s.tcp_retransmits, Some(3));
    assert_eq!(s.tcp_established, Some(7));
    assert_eq!(s.forks, Some(242));
    assert_eq!(s.blocked_processes, Some(1));
    let empty = system("", "", "", "", &now, &prev);
    assert_eq!(empty.distro, "");
    assert_eq!((empty.running, empty.processes, empty.tcp_established), (None, None, None));
}

#[test]
fn words_and_pressure() {
    assert_eq!(leading_words("0.52 0.58 0.59 2/345 12345\n", 3), vec!["0.52", "0.58", "0.59"]);
    assert_eq!(leading_words("12.5", 3), vec!["12.5"]);
    assert_eq!(psi_candidates("some avg10=1.50 avg60=0.80 avg300=0.20 total=12345\nfull avg10=0.00 avg60=0.00"), vec!["1.50"]);
    assert!(psi_candidates("full avg10=0.00").is_empty());
}

#[test]
fn devices_and_supplies() {
    assert!(is_card_name("card0"));
    assert!(is_card_name("card"));
    assert!(!is_card_name("card0-DP-1"));
    assert!(!is_card_name("renderD128"));
    assert_eq!(supply_kind(Some("Mains\n")), SupplyKind::Mains);
    assert_eq!(supply_kind(Some("Battery")), SupplyKind::Battery);
    assert_eq!(supply_kind(Some("USB")), SupplyKind::Other);
    assert_eq!(supply_kind(None), SupplyKind::Other);
    assert_eq!(ac_online(Some("1\n")), Some(true));
    assert_eq!(ac_online(Some("0")), Some(false));
    assert_eq!(ac_online(Some("x")), None);
    assert_eq!(trimmed("  up \n"), "up");
}
