use std::collections::HashMap;

use sysmon::process::{group_processes, pid_from_dir_name, scan_processes, ProcEntry, ProcSample};

fn sample(pid: u32, name: &str, ticks: u64, rss_kb: u64) -> ProcSample {
    ProcSample { pid, name: name.to_string(), ticks, prev_ticks: None, rss_kb }
}

#[test]
fn group_apps_aggregates_and_sorts_by_cpu() {
    let procs = vec![
        sample(1, "chrome", 5, 100),
        sample(2, "chrome", 7, 200),
        sample(3, "code", 3, 50),
    ];
    let apps = group_processes(&procs);
    assert_eq!(apps.len(), 2);
    assert_eq!(apps[0].name, "chrome");
    let ticks: u64 = apps[0].members.iter().map(|&i| procs[i].ticks).sum();
    assert_eq!(ticks, 12);
    assert_eq!(apps[0].rss_kb, 300);
    assert_eq!(apps[0].proc_count, 2);
    assert_eq!(apps[0].pids, vec![1, 2]);
    assert_eq!(apps[1].name, "code");
}

#[test]
fn group_apps_empty_input() {
    assert!(group_processes(&[]).is_empty());
}

#[test]
fn groups_keep_first_appearance_order() {
    let procs = vec![sample(9, "b", 0, 1), sample(4, "a", 0, 2), sample(5, "b", 0, 3)];
    let apps = group_processes(&procs);
    assert_eq!(apps.len(), 2);
    assert_eq!(apps[0].name, "b");
    assert_eq!(apps[0].members, vec![0, 2]);
    assert_eq!(apps[0].pids, vec![9, 5]);
    assert_eq!(apps[0].rss_kb, 4);
    assert_eq!(apps[1].name, "a");
    assert_eq!(apps[1].proc_count, 1);
}

fn stat_line(pid: u32, name: &str, utime: u64, stime: u64) -> String {
    format!("{pid} ({name}) S 1 2 3 4 5 6 7 8 9 10 {utime} {stime} 0")
}

#[test]
fn scan_removes_dead_pids() {
    let mut prev = HashMap::new();
    prev.insert(999_999, 0u64);
    let entries = vec![ProcEntry {
        pid: 1,
        stat: Some(stat_line(1, "init", 10, 5)),
        statm: Some("100 20 0 0 0 0 0".to_string()),
    }];
    let _ = scan_processes(&mut prev, Some(entries.as_slice()), 4);
    assert!(!prev.contains_key(&999_999));
    assert_eq!(prev.get(&1), Some(&15));
}

#[test]
fn scan_reports_ticks_since_the_previous_scan() {
    let mut prev = HashMap::new();
    prev.insert(7, 100u64);
    let entries = vec![
        ProcEntry { pid: 7, stat: Some(stat_line(7, "a b", 120, 30)), statm: None },
        ProcEntry { pid: 8, stat: None, statm: Some("1 1".to_string()) },
        ProcEntry {
            pid: 9,
            stat: Some(stat_line(9, "c", 1, 1)),
            statm: Some("5 3 0".to_string()),
        },
    ];
    let out = scan_processes(&mut prev, Some(entries.as_slice()), 4);
    assert_eq!(out.len(), 2);
    assert_eq!(out[0].pid, 7);
    assert_eq!(out[0].name, "a b");
    assert_eq!(out[0].ticks, 150);
    assert_eq!(out[0].prev_ticks, Some(100));
    assert_eq!(out[0].rss_kb, 0);
    assert_eq!(out[1].pid, 9);
    assert_eq!(out[1].prev_ticks, None);
    assert_eq!(out[1].rss_kb, 12);
    assert!(!prev.contains_key(&8));
}

#[test]
fn scan_without_proc_keeps_previous_ticks() {
    let mut prev = HashMap::new();
    prev.insert(3, 42u64);
    let out = scan_processes(&mut prev, None, 4);
    assert!(out.is_empty());
    assert_eq!(prev.get(&3), Some(&42));
}

#[test]
fn proc_entries_are_numeric_names() {
    assert_eq!(pid_from_dir_name("1234"), Some(1234));
    assert_eq!(pid_from_dir_name("self"), None);
    assert_eq!(pid_from_dir_name(""), None);
    assert_eq!(pid_from_dir_name("+12"), None);
    assert_eq!(pid_from_dir_name("99999999999"), None);
}

#[test]
fn ticks_carry_over_between_scans() {
    let mut prev = HashMap::new();
    let first = vec![ProcEntry { pid: 4, stat: Some(stat_line(4, "x", 10, 10)), statm: None }];
    let out = scan_processes(&mut prev, Some(first.as_slice()), 4);
    assert_eq!(out[0].prev_ticks, None);
    let second = vec![
        ProcEntry { pid: 4, stat: Some(stat_line(4, "x", 30, 15)), statm: None },
        ProcEntry { pid: 5, stat: Some(stat_line(5, "y", 1, 0)), statm: None },
    ];
    let out = scan_processes(&mut prev, Some(second.as_slice()), 4);
    assert_eq!(out[0].prev_ticks, Some(20));
    assert_eq!(out[0].ticks, 45);
    assert_eq!(out[1].prev_ticks, None);
}
