use sysmon::read::{
    parse_cpu_line, parse_meminfo, parse_proc_stat, parse_statm_rss, rapl_energy_delta,
};

#[test]
fn meminfo_parses_values() {
    let s = "MemTotal:       15755096 kB\nMemFree:         1234567 kB\nMemAvailable:    9876543 kB\nBuffers:         45678 kB\nCached:          789012 kB\nSwapTotal:       20775844 kB\nSwapFree:        19000000 kB\nZswap:           100 kB\nZswapped:        20 kB\n";
    assert_eq!(
        parse_meminfo(s),
        (15755096, 1234567, 9876543, 45678, 789012, 20775844, 19000000, 100, 20)
    );
}

#[test]
fn meminfo_missing_keys_and_bad_values_read_as_zero() {
    let s = "MemTotal: 100 kB\nMemFree: lots kB\nSwapTotal:\nUnknown: 7 kB\n";
    assert_eq!(parse_meminfo(s), (100, 0, 0, 0, 0, 0, 0, 0, 0));
    assert_eq!(parse_meminfo(""), (0, 0, 0, 0, 0, 0, 0, 0, 0));
}

#[test]
fn meminfo_last_line_of_a_key_wins() {
    let s = "MemTotal: 1 kB\r\nMemTotal: 2 kB\r\nCached: +9 kB";
    assert_eq!(parse_meminfo(s), (2, 0, 0, 0, 9, 0, 0, 0, 0));
}

#[test]
fn cpu_line_and_load_percent() {
    let cur = parse_cpu_line("cpu0 100 0 50 50 50 0 0 0 0 0").unwrap();
    let prev = parse_cpu_line("cpu0 80 0 40 70 10 0 0 0 0 0").unwrap();
    assert_eq!(cur, (150, 250));
    assert_eq!(prev, (120, 200));
    let dbusy = cur.0 - prev.0;
    let dtot = cur.1 - prev.1;
    let l = dbusy as f64 / dtot as f64 * 100.0;
    assert!((l - 60.0).abs() < 1e-9);
}

#[test]
fn cpu_line_rejects_aggregate_line() {
    assert!(parse_cpu_line("cpu 100 0 50 50 50 0 0 0 0 0").is_none());
}

#[test]
fn cpu_line_rejects_other_and_short_lines() {
    assert!(parse_cpu_line("intr 100 0 50 50 50 0 0 0 0 0").is_none());
    assert!(parse_cpu_line("cpu3 1 2 3 4 5 6 7").is_none());
    assert!(parse_cpu_line("").is_none());
}

#[test]
fn cpu_line_skips_tokens_that_are_not_numbers() {
    // the non-numeric token is skipped, so idle and iowait are 4 and 5
    assert_eq!(parse_cpu_line("cpu1 1 x 2 3 4 5 6 7 8"), Some((36 - 4 - 5, 36)));
}

#[test]
fn rapl_watts_plain_and_wrap() {
    let w = rapl_energy_delta(10_000_000, 20_000_000, 100_000_000_000) as f64 / 1_000_000.0 / 1.0;
    assert!((w - 10.0).abs() < 1e-9);
    let w = rapl_energy_delta(90_000_000_000, 5_000_000_000, 100_000_000_000) as f64
        / 1_000_000.0
        / 1.0;
    assert!((w - 15000.0).abs() < 1e-9);
}

#[test]
fn rapl_delta_exact_values() {
    assert_eq!(rapl_energy_delta(10, 25, 100), 15);
    assert_eq!(rapl_energy_delta(90, 5, 100), 15);
    assert_eq!(rapl_energy_delta(7, 7, 100), 0);
}

#[test]
fn proc_stat_parses_comm_with_spaces_and_parens() {
    let line = "1234 (my app (test)) S 1 2 3 4 5 6 7 8 9 10 100 200 300";
    let (name, utime, stime) = parse_proc_stat(line).unwrap();
    assert_eq!(name, "my app (test)");
    assert_eq!(utime, 100);
    assert_eq!(stime, 200);
}

#[test]
fn proc_stat_refuses_malformed_lines() {
    assert!(parse_proc_stat("1234 my app S 1 2 3 4 5 6 7 8 9 10 100 200 300").is_none());
    assert!(parse_proc_stat("1234 )x( S 1 2 3 4 5 6 7 8 9 10 100 200 300").is_none());
    assert!(parse_proc_stat("1234 (x) S 1 2 3").is_none());
    assert!(parse_proc_stat("1234 (x) S 1 2 3 4 5 6 7 8 9 10 a 200 300").is_none());
}

#[test]
fn statm_rss_multiplies_pages() {
    assert_eq!(parse_statm_rss("40 3 0 37 0 0 0", 4), Some(12));
}

#[test]
fn statm_rss_needs_a_second_number() {
    assert_eq!(parse_statm_rss("40", 4), None);
    assert_eq!(parse_statm_rss("40 x", 4), None);
}
