use sysmon::process::{group_processes, ProcEntry};
use sysmon::sampler::{
    discover_battery, discover_cpu_thermal_zone, discover_rapl, iface_label, online_count,
    read_battery, read_cpu_boost, read_cpu_max_freq_mhz, read_cpu_name, BatteryReadings,
    ClassEntry, EnergySample, IfaceProbe, QuickReadings, RaplZone, Sampler, SamplerSetup,
    SupplyReadings,
};

fn some(s: &str) -> Option<String> {
    Some(s.to_string())
}

#[test]
fn online_count_is_positive() {
    for contents in [None, Some("0"), Some("0-7\n"), Some("0-3,8-11")] {
        let n = online_count(contents);
        assert!(n > 0, "expected at least one online CPU, got {n}");
    }
}

#[test]
fn online_count_reads_ranges_and_singles() {
    assert_eq!(online_count(Some("0-7\n")), 8);
    assert_eq!(online_count(Some("0,2-3,5")), 4);
    assert_eq!(online_count(Some("")), 1);
    assert_eq!(online_count(None), 8);
}

#[test]
fn cpu_name_comes_from_model_name() {
    let info = "processor\t: 0\nvendor_id\t: GenuineIntel\nmodel name\t: 11th Gen Intel(R) Core(TM) i5-1145G7 @ 2.60GHz\n";
    assert_eq!(read_cpu_name(Some(info)), "11th Gen Intel(R) Core(TM) i5-1145G7 @ 2.60GHz");
    assert_eq!(read_cpu_name(Some("processor : 0\n")), "Unknown CPU");
    assert_eq!(read_cpu_name(None), "Unknown CPU");
}

#[test]
fn max_freq_and_boost() {
    assert_eq!(read_cpu_max_freq_mhz(&some("4400000\n")), 4400);
    assert_eq!(read_cpu_max_freq_mhz(&None), 0);
    assert_eq!(read_cpu_boost(&some("1\n"), &some("1")), Some(true));
    assert_eq!(read_cpu_boost(&some("0"), &None), Some(false));
    assert_eq!(read_cpu_boost(&None, &some("0\n")), Some(true));
    assert_eq!(read_cpu_boost(&None, &some("1")), Some(false));
    assert_eq!(read_cpu_boost(&some("x"), &None), None);
}

#[test]
fn iface_labels_by_kind() {
    assert_eq!(iface_label("wlp0s20f3", true, true), "Wi-Fi");
    assert_eq!(iface_label("enp0s31f6", false, true), "Ethernet");
    assert_eq!(iface_label("tun0", false, false), "tun0");
}

fn zone(dir: &str, path: &str, name: &str) -> RaplZone {
    RaplZone {
        dir_name: dir.to_string(),
        path: path.to_string(),
        name_file: some(name),
        max_energy_file: some("262143328850\n"),
    }
}

#[test]
fn rapl_prefers_native_package_and_its_core() {
    let zones = vec![
        zone("intel-rapl-mmio:0", "/sys/class/powercap/intel-rapl-mmio:0", "package-0\n"),
        zone("intel-rapl:0", "/sys/class/powercap/intel-rapl:0", "package-0\n"),
        zone("intel-rapl:1:0", "/sys/class/powercap/intel-rapl:1/intel-rapl:1:0", "core\n"),
        zone("intel-rapl:0:0", "/sys/class/powercap/intel-rapl:0/intel-rapl:0:0", "core\n"),
    ];
    let (pkg, core) = discover_rapl(&zones);
    assert_eq!(pkg.as_deref(), Some("/sys/class/powercap/intel-rapl:0"));
    assert_eq!(core.as_deref(), Some("/sys/class/powercap/intel-rapl:0/intel-rapl:0:0"));
}

#[test]
fn rapl_falls_back_to_mmio_and_any_core() {
    let zones = vec![
        zone("intel-rapl-mmio:0", "/sys/class/powercap/intel-rapl-mmio:0", "package-0"),
        zone("x:0", "/x/0", "core"),
    ];
    let (pkg, core) = discover_rapl(&zones);
    assert_eq!(pkg.as_deref(), Some("/sys/class/powercap/intel-rapl-mmio:0"));
    assert_eq!(core.as_deref(), Some("/x/0"));
    assert_eq!(discover_rapl(&[]), (None, None));
}

fn entry(name: &str, ty: Option<&str>) -> ClassEntry {
    ClassEntry { name: name.to_string(), type_file: ty.map(|t| t.to_string()) }
}

#[test]
fn thermal_zone_prefers_package_sensor() {
    let entries = vec![
        entry("cooling_device0", Some("x86_pkg_temp\n")),
        entry("thermal_zone0", Some("acpitz\n")),
        entry("thermal_zone1", Some("cpu\n")),
        entry("thermal_zone2", Some("x86_pkg_temp\n")),
    ];
    assert_eq!(
        discover_cpu_thermal_zone(&entries).as_deref(),
        Some("/sys/class/thermal/thermal_zone2")
    );
    let others = vec![entry("thermal_zone0", Some("acpitz")), entry("thermal_zone1", Some("soc-cpu-die"))];
    assert_eq!(
        discover_cpu_thermal_zone(&others).as_deref(),
        Some("/sys/class/thermal/thermal_zone1")
    );
    assert_eq!(discover_cpu_thermal_zone(&[entry("thermal_zone0", None)]), None);
}

#[test]
fn battery_is_the_first_supply_of_type_battery() {
    let entries = vec![entry("AC", Some("Mains\n")), entry("BAT0", Some("Battery\n")), entry("BAT1", Some("Battery"))];
    assert_eq!(discover_battery(&entries).as_deref(), Some("BAT0"));
    assert_eq!(discover_battery(&[entry("AC", Some("Mains"))]), None);
}

fn battery_readings(status: &str, supplies: Option<Vec<SupplyReadings>>) -> BatteryReadings {
    BatteryReadings {
        status: some(status),
        capacity: some("81\n"),
        charge_full: some("1792000\n"),
        charge_full_design: some("3685000\n"),
        current_now: some("1689000\n"),
        voltage_now: some("11400000\n"),
        cycle_count: some("0\n"),
        temp: some("-1500\n"),
        supplies,
    }
}

#[test]
fn battery_readings_and_charger() {
    let name = some("BAT0");
    let b = read_battery(&name, &battery_readings("Discharging\n", None)).unwrap();
    assert_eq!(b.status, "Discharging");
    assert_eq!(b.charge_pct, 81);
    assert_eq!(b.charge_full, 1_792_000);
    assert_eq!(b.charge_full_design, 3_685_000);
    assert_eq!(b.current_now, 1_689_000);
    assert_eq!(b.voltage_now, 11_400_000);
    assert_eq!(b.cycle_count, None);
    assert_eq!(b.temp_milli_c, Some(-1500));
    assert!(!b.charging);
    assert_eq!(b.charger, None);

    let supplies = vec![
        SupplyReadings { online: some("0"), current_now: None, voltage_now: None },
        SupplyReadings { online: some("1\n"), current_now: some("3000000"), voltage_now: some("20000000") },
    ];
    let b = read_battery(&name, &battery_readings("Charging", Some(supplies))).unwrap();
    assert!(b.charging);
    assert_eq!(b.charger, Some((3_000_000, 20_000_000)));

    let none_live = vec![SupplyReadings { online: None, current_now: None, voltage_now: None }];
    let b = read_battery(&name, &battery_readings("Charging", Some(none_live))).unwrap();
    assert_eq!(b.charger, None);

    // A battery without an `online` file, listed first, does not hide the adapter.
    let battery_first = vec![
        SupplyReadings { online: None, current_now: some("1689000"), voltage_now: some("11400000") },
        SupplyReadings { online: some("1"), current_now: some("oops"), voltage_now: some("5") },
        SupplyReadings { online: some("1"), current_now: some("3250000\n"), voltage_now: some("20000000\n") },
    ];
    let b = read_battery(&name, &battery_readings("Charging", Some(battery_first))).unwrap();
    assert_eq!(b.charger, Some((3_250_000, 20_000_000)));

    assert!(read_battery(&None, &battery_readings("Full", None)).is_none());
    let mut missing = battery_readings("Full", None);
    missing.charge_full_design = None;
    assert!(read_battery(&name, &missing).is_none());
}

fn setup() -> SamplerSetup {
    SamplerSetup {
        online: some("0-1\n"),
        clk_tck: 100,
        page_size: 4096,
        cpuinfo: some("model name : Test CPU\n"),
        max_freq: some("3000000"),
        boost: None,
        no_turbo: some("0"),
        rapl_zones: vec![zone("intel-rapl:0", "/rapl/0", "package-0")],
        thermal_zones: vec![entry("thermal_zone0", Some("x86_pkg_temp"))],
        power_supplies: vec![entry("BAT0", Some("Battery"))],
    }
}

fn readings(stat: &str, energy: &str, net: &str) -> QuickReadings {
    QuickReadings {
        stat: some(stat),
        core_freqs: vec![some("2400000\n"), None],
        rapl_pkg_energy: some(energy),
        rapl_core_energy: some("5"),
        thermal_temp: some("45000\n"),
        battery: battery_readings("Discharging", None),
        meminfo: some("MemTotal: 1000 kB\nMemFree: 100 kB\nMemAvailable: 600 kB\nBuffers: 10 kB\nCached: 20 kB\nSwapTotal: 50 kB\nSwapFree: 40 kB\n"),
        zram_mm_stat: some("4096 2048 0 0"),
        net_dev: some(net),
        iface_probes: vec![IfaceProbe { name: "wlan0".to_string(), wireless: true, device: true }],
    }
}

const NET_HEADER: &str = "Inter-|   Receive                            |  Transmit\n face |bytes    packets errs drop fifo frame compressed multicast|bytes    packets errs drop fifo colls carrier compressed\n";

#[test]
fn sampler_setup_and_quick_samples() {
    let mut s = Sampler::new(&setup());
    assert_eq!(s.ncores(), 2);
    assert_eq!(s.clk_tck(), 100);
    assert_eq!(s.page_size_kb(), 4);
    assert_eq!(s.rapl_pkg_path().as_deref(), Some("/rapl/0"));
    assert_eq!(s.rapl_core_path(), None);
    assert_eq!(s.cpu_thermal_zone().as_deref(), Some("/sys/class/thermal/thermal_zone0"));
    assert_eq!(s.battery_name().as_deref(), Some("BAT0"));

    let net1 = format!("{NET_HEADER}    lo: 100 1 0 0 0 0 0 0 100 1 0 0 0 0 0 0\n wlan0: 1000 5 0 0 0 0 0 0 500 3 0 0 0 0 0 0\n");
    let r1 = readings("cpu  1 1 1 1 1 1 1 1\ncpu0 100 0 50 50 50 0 0 0\ncpu1 1 2 3\n", "1000\n", &net1);
    assert!(s.quick_fits(&r1));
    let q1 = s.sample_quick(&r1);
    assert_eq!(q1.cores.len(), 2);
    assert_eq!(q1.cores[0].prev, (0, 0));
    assert_eq!(q1.cores[0].cur, Some((150, 250)));
    assert_eq!(q1.cores[0].freq_mhz, 2400);
    assert_eq!(q1.cores[1].cur, None);
    assert_eq!(q1.cores[1].freq_mhz, 0);
    assert!(matches!(q1.pkg_energy, Some(EnergySample::Start)));
    assert!(q1.core_energy.is_none());
    assert_eq!(q1.temp_milli_c, Some(45000));
    assert_eq!(q1.cpu_name, "Test CPU");
    assert_eq!(q1.max_freq_mhz, 3000);
    assert_eq!(q1.boost, Some(true));
    assert!(q1.battery.is_some());
    assert_eq!(q1.mem.total_kb, 1000);
    assert_eq!(q1.mem.cache_kb, 30);
    assert_eq!(q1.mem.zram_compressed_kb, 2);
    assert_eq!(s.total_kb(), 1000);
    assert_eq!(q1.ifaces.len(), 1);
    assert_eq!(q1.ifaces[0].name, "wlan0");
    assert_eq!(q1.ifaces[0].label, "Wi-Fi");
    assert_eq!((q1.ifaces[0].rx_prev, q1.ifaces[0].rx), (1000, 1000));
    assert_eq!((q1.ifaces[0].tx_prev, q1.ifaces[0].tx), (500, 500));

    let net2 = format!("{NET_HEADER} wlan0: 4000 9 0 0 0 0 0 0 900 4 0 0 0 0 0 0\n");
    let r2 = readings("cpu0 120 0 60 60 60 0 0 0\n", "3000", &net2);
    assert!(s.ifaces_to_label(&r2.net_dev).is_empty());
    let mut r2 = r2;
    r2.iface_probes = Vec::new();
    let q2 = s.sample_quick(&r2);
    assert_eq!(q2.cores[0].prev, (150, 250));
    assert_eq!(q2.cores[0].cur, Some((180, 300)));
    match q2.pkg_energy {
        Some(EnergySample::Span { prev, cur, max }) => {
            assert_eq!((prev, cur, max), (1000, 3000, 262_143_328_850));
        }
        _ => panic!("expected a span"),
    }
    assert_eq!(q2.ifaces[0].label, "Wi-Fi");
    assert_eq!((q2.ifaces[0].rx_prev, q2.ifaces[0].rx), (1000, 4000));
}

#[test]
fn sampler_process_samples() {
    let mut s = Sampler::new(&setup());
    let entries = vec![
        ProcEntry {
            pid: 10,
            stat: some("10 (app) S 1 2 3 4 5 6 7 8 9 10 100 50 0"),
            statm: some("10 5 0"),
        },
        ProcEntry {
            pid: 11,
            stat: some("11 (app) S 1 2 3 4 5 6 7 8 9 10 1 1 0"),
            statm: some("10 1 0"),
        },
    ];
    let meminfo = some("MemTotal: 2048 kB\n");
    assert!(s.procs_fit(Some(entries.as_slice())));
    let p = s.sample_procs(&meminfo, Some(entries.as_slice()));
    assert_eq!(p.total_kb, 2048);
    assert_eq!(p.procs.len(), 2);
    assert_eq!(p.procs[0].ticks, 150);
    assert_eq!(p.procs[1].rss_kb, 4);
    let apps = group_processes(&p.procs);
    assert_eq!(apps.len(), 1);
    assert_eq!(apps[0].rss_kb, 24);
    assert_eq!(apps[0].pids, vec![10, 11]);
    let p2 = s.sample_procs(&None, Some(entries.as_slice()));
    assert_eq!(p2.total_kb, 2048);
    assert_eq!(p2.procs[0].prev_ticks, Some(150));
}

#[test]
fn first_quick_sample_is_quiet_and_setup_stays() {
    let mut s = Sampler::new(&setup());
    let net = format!("{NET_HEADER} wlan0: 7000 5 0 0 0 0 0 0 300 3 0 0 0 0 0 0\n");
    let r = readings("cpu0 10 0 10 10 10 0 0 0\n", "5000", &net);
    let q1 = s.sample_quick(&r);
    assert!(q1.cores.iter().all(|c| c.prev == (0, 0)));
    assert!(matches!(q1.pkg_energy, Some(EnergySample::Start)));
    assert!(q1.ifaces.iter().all(|i| i.rx_prev == i.rx && i.tx_prev == i.tx));
    let q2 = s.sample_quick(&r);
    assert_eq!(q1.cpu_name, q2.cpu_name);
    assert_eq!(q1.max_freq_mhz, q2.max_freq_mhz);
    assert_eq!(q1.boost, q2.boost);
    assert_eq!(q1.cores.len(), q2.cores.len());
}

#[test]
fn process_samples_measure_against_the_last_quick_total() {
    let mut s = Sampler::new(&setup());
    let entries = vec![ProcEntry {
        pid: 10,
        stat: some("10 (app) S 1 2 3 4 5 6 7 8 9 10 100 50 0"),
        statm: some("10 5 0"),
    }];
    let first = s.sample_procs(&some("MemTotal: 4096 kB\n"), Some(entries.as_slice()));
    assert!(first.procs.iter().all(|p| p.prev_ticks.is_none()));
    let net = format!("{NET_HEADER}");
    let q = s.sample_quick(&readings("cpu0 1 1 1 1 1 1 1 1\n", "1", &net));
    assert_eq!(q.mem.total_kb, 1000);
    let p = s.sample_procs(&some("MemTotal: 9999 kB\n"), Some(entries.as_slice()));
    assert_eq!(p.total_kb, 1000);
}
