# sysmon

A live system monitor for Linux desktops (GTK4/libadwaita): per-core CPU load
and frequency, RAPL package/core power, CPU temperature, battery, memory,
network throughput, and an apps/processes table, refreshed every second.

## Layout

- `src/` is the verified library. Everything the monitor decides from what it
  reads is here, with contracts proved by Verus:
  - `text.rs`: the text model (tokens, lines, `split`, `trim`, number parsing)
    that the parsers are specified against.
  - `read.rs`: parsers for `/proc/meminfo`, `/proc/stat` CPU lines,
    `/proc/<pid>/stat` and `statm`, and the RAPL counter span (with wrap).
  - `process.rs`: the process scan (ticks carried from one scan to the next,
    dead pids dropped) and the grouping of processes into apps.
  - `sampler.rs`: discovery of the RAPL zones, thermal zone and battery, and
    the sampler, a state machine from one second's readings to the next
    sample (CPU counters, RAPL, battery and charger, memory, interfaces and
    their labels).
  - `icons.rs`: the icon names tried for a process.
  - `table.rs`: the tables' search rule and the rows that leave a table
    between samples.
  - `model.rs`: memory and network figures.
- `app/` is the program around it: reading `/proc` and `/sys`, `sysconf`, the
  floating-point rates and percentages, and the GTK window.
- `tests/` runs the library on concrete readings.
