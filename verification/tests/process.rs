use std::collections::HashMap;
use hw_monitor::process::{parse_pid, proc_stat, scan, self_status, self_ticks, tick_growth, top_processes, ProcRank};
use hw_monitor::sensors::{sensor_inputs, sensor_label, sensor_order, SensorKind};

const STAT: &str = "1234 (my (odd) proc) S 1 1234 1234 0 -1 4194560 100 0 0 0 70 30 0 0 20 0 3 0 5555 1000000 250 18446744073709551615\n";

#[test]
fn process_stat_lines() {
    let p = proc_stat(STAT).unwrap();
    assert_eq!(p.name, "my (odd) proc");
    assert_eq!((p.start, p.ticks, p.rss_pages), (5555, 100, 250));
    assert!(proc_stat("1234 (x) S 1 2 3").is_none());
    assert!(proc_stat("no parenthesis").is_none());
    assert_eq!(self_ticks(STAT), Some(100));
    assert_eq!(parse_pid("1234"), Some(1234));
    assert_eq!(parse_pid("4294967296"), None);
    assert_eq!(parse_pid("self"), None);
}

#[test]
fn status_lines() {
    let (threads, rss) = self_status("Name:\tx\nVmRSS:\t  2048 kB\nThreads:\t7\nThreads:\tbad\n");
    assert_eq!(threads, Some(7));
    assert_eq!(rss, vec!["2048"]);
}

#[test]
fn ticks_between_scans() {
    let mut previous: HashMap<u32, (u64, u64)> = HashMap::new();
    previous.insert(7, (100, 50));
    assert_eq!(tick_growth(&previous, 7, 100, 80), Some(30));
    assert_eq!(tick_growth(&previous, 7, 100, 40), Some(0));
    assert_eq!(tick_growth(&previous, 7, 101, 80), None);
    assert_eq!(tick_growth(&previous, 8, 100, 80), None);
}

#[test]
fn processes_listed() {
    let mut rows = Vec::new();
    for i in 0..12u32 {
        rows.push(ProcRank { pid: i, cpu_ticks: if i < 10 { 0 } else { 5 }, rss_pages: (i as u64) * 10 });
    }
    rows.push(ProcRank { pid: 99, cpu_ticks: 0, rss_pages: 1000 });
    let top = top_processes(&rows);
    // by processor use: 11, 10, then by size 12 (pid 99), 9, 8, 7, 6, 5; the largest are all listed
    assert_eq!(top, vec![11, 10, 12, 9, 8, 7, 6, 5]);
    let rows: Vec<ProcRank> = (0..10u32).map(|i| ProcRank { pid: i, cpu_ticks: i as u64, rss_pages: (10 - i as u64) * 10 }).collect();
    assert_eq!(top_processes(&rows), vec![9, 8, 7, 6, 5, 4, 3, 2, 0, 1]);
    let ties: Vec<ProcRank> = (0..3u32).map(|i| ProcRank { pid: i, cpu_ticks: 0, rss_pages: 0 }).collect();
    assert_eq!(top_processes(&ties), vec![0, 1, 2]);
}

#[test]
fn sensor_files() {
    let r = sensor_inputs("temp1_input");
    assert_eq!(r.len(), 1);
    assert_eq!((r[0].0, r[0].1.as_str()), (SensorKind::Temp, "1"));
    assert_eq!(sensor_inputs("in0_input")[0].0, SensorKind::In);
    assert_eq!(sensor_inputs("temp_input")[0].1, "");
    assert!(sensor_inputs("temp1_label").is_empty());
    assert!(sensor_inputs("tempx_input").is_empty());
    assert_eq!(SensorKind::Power.unit(), "W");
    assert_eq!(SensorKind::Temp.unit(), "°C");
    assert_eq!(sensor_label(Some(" Package id 0\n"), SensorKind::Temp, "1"), "Package id 0");
    assert_eq!(sensor_label(None, SensorKind::Fan, "2"), "fan2");
}

#[test]
fn sensors_ordered_by_chip_then_label() {
    let s = vec![
        ("nvme".to_string(), "Composite".to_string()),
        ("coretemp".to_string(), "Core 1".to_string()),
        ("coretemp".to_string(), "Core 0".to_string()),
        ("nvme".to_string(), "Composite".to_string()),
        ("acpitz".to_string(), "temp1".to_string()),
    ];
    assert_eq!(sensor_order(&s), vec![4, 2, 1, 0, 3]);
}

fn stat_line(pid: u32, name: &str, start: u64, user: u64, system: u64, rss: u64) -> String {
    let mut f: Vec<String> = (0..30).map(|_| "0".to_string()).collect();
    f[0] = "S".to_string();
    f[11] = user.to_string();
    f[12] = system.to_string();
    f[19] = start.to_string();
    f[21] = rss.to_string();
    format!("{pid} ({name}) {}\n", f.join(" "))
}

#[test]
fn scan_replaces_the_previous_table() {
    let mut previous = HashMap::new();
    previous.insert(1, (10, 100));
    previous.insert(2, (20, 5));
    previous.insert(99, (1, 1));
    let entries = vec![
        ("1".to_string(), Some(stat_line(1, "init", 10, 100, 30, 40))),
        ("self".to_string(), Some(stat_line(5, "me", 1, 1, 1, 1))),
        ("2".to_string(), Some(stat_line(2, "other", 21, 7, 0, 9))),
        ("3".to_string(), None),
        ("4".to_string(), Some("garbage".to_string())),
    ];
    let (ranks, procs) = scan(&mut previous, &entries, true, true);
    assert_eq!(procs.len(), 2);
    assert_eq!(procs[0].pid, 1);
    assert_eq!(procs[0].stat.name, "init");
    assert_eq!(procs[0].stat.ticks, 130);
    assert_eq!(procs[0].growth, Some(30));
    assert_eq!(procs[1].pid, 2);
    assert_eq!(procs[1].growth, None);
    assert_eq!(ranks[0].cpu_ticks, 30);
    assert_eq!(ranks[0].rss_pages, 40);
    assert_eq!(ranks[1].cpu_ticks, 0);
    assert_eq!(previous.len(), 2);
    assert_eq!(previous.get(&1), Some(&(10, 130)));
    assert_eq!(previous.get(&2), Some(&(21, 7)));
    assert_eq!(previous.get(&99), None);
    let (ranks, _) = scan(&mut previous, &entries, false, false);
    assert_eq!(ranks[0].cpu_ticks, 0);
    assert_eq!(ranks[0].rss_pages, 0);
}
