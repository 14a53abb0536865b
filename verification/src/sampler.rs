//! The sampler: what it learns once about the machine (CPU count, RAPL
//! zones, thermal zone, battery), and what it computes from each second's
//! readings of `/proc` and `/sys`, carrying counters from one sample to the
//! next.
use std::collections::HashMap;
use vstd::prelude::*;

use crate::model::Memory;
use crate::process::{
    sample_views, scan_fits, scan_processes, scan_prev, scan_spec, ProcEntry, ProcSample,
};
use crate::read::{
    cpu_line_fits, cpu_line_fits_check, cpu_line_spec, first_index, find_first, line_key, line_value,
    meminfo_slot, meminfo_spec,
    parse_cpu_line_chars, parse_meminfo, parsed_values,
};
use crate::text::{
    chars_equal_str, chars_of, contains, contains_str, copy_range, lemma_pieces_nonempty, lines,
    parse_i64, parse_u64, parse_u64_chars, parse_usize, parse_usize_chars, parse_trimmed_i64,
    parse_trimmed_u64, pieces, same_chars, split_lines, split_on, split_ws, starts_with, starts_with_chars, starts_with_str,
    string_from_chars, tokens, trim, trim_chars, views,
};

verus! {

broadcast use vstd::std_specs::hash::group_hash_axioms;

/// The characters of an optional text.
pub open spec fn opt_chars(o: Option<String>) -> Option<Seq<char>> {
    match o {
        Some(s) => Some(s@),
        None => None,
    }
}

/// An optional text, an absent one read as empty (`unwrap_or_default`).
pub open spec fn text_or_empty(o: Option<String>) -> Seq<char> {
    match o {
        Some(s) => s@,
        None => seq![],
    }
}

/// What `s.trim().parse::<u64>()` gives for an optional text.
pub open spec fn trimmed_u64(o: Option<String>) -> Option<u64> {
    match o {
        Some(s) => parse_u64(trim(s@)),
        None => None,
    }
}

/// What `s.trim().parse::<i64>()` gives for an optional text.
pub open spec fn trimmed_i64(o: Option<String>) -> Option<i64> {
    match o {
        Some(s) => parse_i64(trim(s@)),
        None => None,
    }
}

fn opt_trimmed_u64(o: &Option<String>) -> (r: Option<u64>)
    ensures
        r == trimmed_u64(*o),
{
    match o {
        Some(s) => {
            let cs = chars_of(s.as_str());
            parse_trimmed_u64(cs.as_slice())
        },
        None => None,
    }
}

fn opt_trimmed_i64(o: &Option<String>) -> (r: Option<i64>)
    ensures
        r == trimmed_i64(*o),
{
    match o {
        Some(s) => {
            let cs = chars_of(s.as_str());
            parse_trimmed_i64(cs.as_slice())
        },
        None => None,
    }
}

fn opt_trimmed_text(o: &Option<String>) -> (r: Vec<char>)
    ensures
        r@ == trim(text_or_empty(*o)),
{
    match o {
        Some(s) => {
            let cs = chars_of(s.as_str());
            trim_chars(cs.as_slice())
        },
        None => {
            let e: Vec<char> = Vec::new();
            assert(e@ =~= trim(seq![]));
            e
        },
    }
}

// ---------------------------------------------------------------------------
// Online CPUs
// ---------------------------------------------------------------------------

/// A number read with `unwrap_or(0)`.
pub open spec fn or_zero(o: Option<usize>) -> int {
    match o {
        Some(v) => v as int,
        None => 0,
    }
}

/// The CPUs that one comma-separated part of the `online` list counts:
/// `a-b` counts `b - a + 1` (a number that does not read counts as 0), a
/// single CPU counts 1.
pub open spec fn online_part_value(p: Seq<char>) -> int {
    let k = first_index(p, '-');
    if k < p.len() {
        or_zero(parse_usize(p.skip(k + 1))) - or_zero(parse_usize(p.take(k))) + 1
    } else {
        1
    }
}

/// The sum of the counts of `ps`.
pub open spec fn online_parts_sum(ps: Seq<Seq<char>>) -> int
    decreases ps.len(),
{
    if ps.len() == 0 {
        0
    } else {
        online_parts_sum(ps.drop_last()) + online_part_value(ps.last())
    }
}

/// The parts of an `online` list.
pub open spec fn online_parts(s: Seq<char>) -> Seq<Seq<char>> {
    pieces(trim(s), ',')
}

/// Every range of the list runs upwards and the count fits in a `usize`
/// (otherwise the arithmetic overflows).
pub open spec fn online_fits(s: Seq<char>) -> bool {
    &&& forall|i: int|
        0 <= i < online_parts(s).len() ==> 1 <= #[trigger] online_part_value(online_parts(s)[i])
            <= usize::MAX
    &&& online_parts_sum(online_parts(s)) <= usize::MAX
}

/// The number of online CPUs that the contents of
/// `/sys/devices/system/cpu/online` give, or 8 when it could not be read.
pub open spec fn online_count_spec(contents: Option<Seq<char>>) -> int {
    match contents {
        Some(s) => online_parts_sum(online_parts(s)),
        None => 8,
    }
}

/// A part `a-b` of the `online` list counts the CPUs `a` through `b`,
/// `b - a + 1` of them; a part without `-` is a single CPU.
pub proof fn lemma_online_part_counts(p: Seq<char>, k: int, a: usize, b: usize)
    ensures
        (forall|j: int| 0 <= j < p.len() ==> p[j] != '-') ==> online_part_value(p) == 1,
        (0 <= k < p.len() && p[k] == '-' && (forall|j: int| 0 <= j < k ==> p[j] != '-')
            && parse_usize(p.take(k)) == Some(a) && parse_usize(p.skip(k + 1)) == Some(b))
            ==> online_part_value(p) == b - a + 1,
{
    crate::read::lemma_first_index_bound(p, '-');
    if 0 <= k < p.len() && p[k] == '-' && (forall|j: int| 0 <= j < k ==> p[j] != '-') {
        crate::read::lemma_first_index_at(p, '-', k);
    }
}

proof fn lemma_online_prefix(ps: Seq<Seq<char>>, k: int)
    requires
        0 <= k <= ps.len(),
        forall|i: int| 0 <= i < ps.len() ==> 1 <= #[trigger] online_part_value(ps[i]),
    ensures
        0 <= online_parts_sum(ps.take(k)) <= online_parts_sum(ps),
    decreases ps.len(),
{
    if k < ps.len() {
        assert(ps.drop_last().take(k) =~= ps.take(k));
        assert forall|i: int| 0 <= i < ps.drop_last().len() implies 1 <= #[trigger] online_part_value(
            ps.drop_last()[i],
        ) by {
            assert(ps.drop_last()[i] == ps[i]);
        }
        lemma_online_prefix(ps.drop_last(), k);
        assert(1 <= online_part_value(ps[ps.len() - 1]));
    } else {
        assert(ps.take(k) =~= ps);
        lemma_online_nonneg(ps);
    }
}

proof fn lemma_online_nonneg(ps: Seq<Seq<char>>)
    requires
        forall|i: int| 0 <= i < ps.len() ==> 1 <= #[trigger] online_part_value(ps[i]),
    ensures
        online_parts_sum(ps) >= ps.len(),
    decreases ps.len(),
{
    if ps.len() > 0 {
        assert forall|i: int| 0 <= i < ps.drop_last().len() implies 1 <= #[trigger] online_part_value(
            ps.drop_last()[i],
        ) by {
            assert(ps.drop_last()[i] == ps[i]);
        }
        lemma_online_nonneg(ps.drop_last());
        assert(1 <= online_part_value(ps[ps.len() - 1]));
    }
}

/// The count of one part, where it fits: `None` when the range runs
/// downwards or its count does not fit in a `usize`.
fn online_part(p: &[char]) -> (r: Option<usize>)
    ensures
        match r {
            Some(v) => v == online_part_value(p@) && 1 <= v,
            None => !(1 <= online_part_value(p@) <= usize::MAX),
        },
{
    let k = find_first(p, '-');
    if k < p.len() {
        let a_chars = copy_range(p, 0, k);
        let b_chars = copy_range(p, k + 1, p.len());
        assert(a_chars@ =~= p@.take(k as int));
        assert(b_chars@ =~= p@.skip(k + 1));
        let a: usize = match parse_usize_chars(a_chars.as_slice()) {
            Some(v) => v,
            None => 0,
        };
        let b: usize = match parse_usize_chars(b_chars.as_slice()) {
            Some(v) => v,
            None => 0,
        };
        if b < a || b - a == usize::MAX {
            None
        } else {
            Some(b - a + 1)
        }
    } else {
        Some(1)
    }
}

/// Counts the online CPUs from the contents of
/// `/sys/devices/system/cpu/online` (`None` when it could not be read,
/// which counts 8): a comma-separated list of single CPUs and `a-b` ranges.
/// At least one CPU is always counted.
pub fn online_count(contents: Option<&str>) -> (n: usize)
    requires
        contents matches Some(s) ==> online_fits(s@),
    ensures
        n >= 1,
        n == online_count_spec(
            match contents {
                Some(s) => Some(s@),
                None => None,
            },
        ),
{
    let s = match contents {
        Some(s) => s,
        None => {
            return 8;
        },
    };
    let cs = chars_of(s);
    let t = trim_chars(cs.as_slice());
    let ps = split_on(t.as_slice(), ',');
    let ghost pv = views(ps@);
    assert(pv == online_parts(s@));
    let mut total: usize = 0;
    let mut i: usize = 0;
    assert(pv.take(0) =~= seq![]);
    while i < ps.len()
        invariant
            pv == views(ps@),
            pv == online_parts(s@),
            online_fits(s@),
            0 <= i <= ps@.len(),
            total == online_parts_sum(pv.take(i as int)),
        decreases ps.len() - i,
    {
        assert(pv.take(i + 1).drop_last() =~= pv.take(i as int));
        assert(pv.take(i + 1).last() == ps@[i as int]@);
        assert(pv[i as int] == ps@[i as int]@);
        let v = match online_part(ps[i].as_slice()) {
            Some(v) => v,
            None => {
                assert(false);
                0
            },
        };
        proof {
            lemma_online_prefix(pv, i + 1);
        }
        total = total + v;
        i += 1;
    }
    assert(pv.take(pv.len() as int) =~= pv);
    proof {
        lemma_pieces_nonempty(trim(s@), ',', seq![]);
        lemma_online_nonneg(pv);
    }
    total
}

/// Whether [`online_count`] may be called on `s` (see [`online_fits`]).
pub fn online_fits_check(s: &str) -> (b: bool)
    ensures
        b == online_fits(s@),
{
    let cs = chars_of(s);
    let t = trim_chars(cs.as_slice());
    let ps = split_on(t.as_slice(), ',');
    let ghost pv = views(ps@);
    let mut total: usize = 0;
    let mut i: usize = 0;
    assert(pv.take(0) =~= seq![]);
    while i < ps.len()
        invariant
            pv == views(ps@),
            pv == online_parts(s@),
            0 <= i <= ps@.len(),
            forall|k: int| 0 <= k < i ==> 1 <= #[trigger] online_part_value(pv[k]) <= usize::MAX,
            total == online_parts_sum(pv.take(i as int)),
        decreases ps.len() - i,
    {
        assert(pv.take(i + 1).drop_last() =~= pv.take(i as int));
        assert(pv.take(i + 1).last() == ps@[i as int]@);
        assert(pv[i as int] == ps@[i as int]@);
        let v = match online_part(ps[i].as_slice()) {
            Some(v) => v,
            None => {
                return false;
            },
        };
        if total > usize::MAX - v {
            proof {
                if forall|k: int|
                    0 <= k < pv.len() ==> 1 <= #[trigger] online_part_value(pv[k]) <= usize::MAX {
                    lemma_online_prefix(pv, i + 1);
                    assert(online_parts_sum(pv.take(i + 1)) == total + v);
                }
            }
            return false;
        }
        total = total + v;
        i += 1;
    }
    assert(pv.take(pv.len() as int) =~= pv);
    true
}

// ---------------------------------------------------------------------------
// CPU model, frequency and boost
// ---------------------------------------------------------------------------

/// The model name that one `/proc/cpuinfo` line gives: a line that begins
/// (after trimming) with `model name`, the trimmed text after its first `:`.
pub open spec fn model_name_of_line(l: Seq<char>) -> Option<Seq<char>> {
    let t = trim(l);
    if starts_with(t, "model name"@) {
        let rest = t.skip(("model name"@).len() as int);
        let k = first_index(rest, ':');
        if k < rest.len() {
            Some(trim(rest.skip(k + 1)))
        } else {
            None
        }
    } else {
        None
    }
}

/// The model name of the first line that gives one.
pub open spec fn model_name_of_lines(ls: Seq<Seq<char>>) -> Option<Seq<char>>
    decreases ls.len(),
{
    if ls.len() == 0 {
        None
    } else {
        match model_name_of_line(ls[0]) {
            Some(v) => Some(v),
            None => model_name_of_lines(ls.drop_first()),
        }
    }
}

/// The CPU's name from `/proc/cpuinfo`, or `Unknown CPU`.
pub open spec fn cpu_name_spec(cpuinfo: Option<Seq<char>>) -> Seq<char> {
    match cpuinfo {
        Some(s) => match model_name_of_lines(lines(s)) {
            Some(v) => v,
            None => "Unknown CPU"@,
        },
        None => "Unknown CPU"@,
    }
}

fn model_name_line(l: &[char]) -> (r: Option<Vec<char>>)
    ensures
        match r {
            Some(v) => model_name_of_line(l@) == Some(v@),
            None => model_name_of_line(l@) is None,
        },
{
    let t = trim_chars(l);
    let prefix = chars_of("model name");
    if !starts_with_chars(t.as_slice(), prefix.as_slice()) {
        return None;
    }
    let rest = copy_range(t.as_slice(), prefix.len(), t.len());
    assert(rest@ =~= t@.skip(("model name"@).len() as int));
    let k = find_first(rest.as_slice(), ':');
    if k < rest.len() {
        let after = copy_range(rest.as_slice(), k + 1, rest.len());
        assert(after@ =~= rest@.skip(k + 1));
        Some(trim_chars(after.as_slice()))
    } else {
        None
    }
}

/// The CPU's name: the `model name` of `/proc/cpuinfo`, or `Unknown CPU`
/// when the file is unreadable or names none.
pub fn read_cpu_name(cpuinfo: Option<&str>) -> (r: String)
    ensures
        r@ == cpu_name_spec(
            match cpuinfo {
                Some(s) => Some(s@),
                None => None,
            },
        ),
{
    let s = match cpuinfo {
        Some(s) => s,
        None => {
            return "Unknown CPU".to_owned();
        },
    };
    let cs = chars_of(s);
    let ls = split_lines(cs.as_slice());
    let ghost lv = views(ls@);
    let mut i: usize = 0;
    assert(lv.skip(0) =~= lv);
    while i < ls.len()
        invariant
            cpuinfo == Some(s),
            lv == views(ls@),
            lv == lines(s@),
            0 <= i <= ls@.len(),
            model_name_of_lines(lv) == model_name_of_lines(lv.skip(i as int)),
        decreases ls.len() - i,
    {
        assert(lv.skip(i as int)[0] == ls@[i as int]@);
        assert(lv.skip(i as int).drop_first() =~= lv.skip(i + 1));
        match model_name_line(ls[i].as_slice()) {
            Some(v) => {
                assert(model_name_of_lines(lv.skip(i as int)) == Some(v@));
                assert(cpu_name_spec(Some(s@)) == v@);
                return string_from_chars(v.as_slice());
            },
            None => {},
        }
        i += 1;
    }
    "Unknown CPU".to_owned()
}

/// The hardware maximum frequency in MHz from `cpuinfo_max_freq` (in kHz),
/// or 0.
pub open spec fn max_freq_spec(contents: Option<String>) -> u64 {
    match trimmed_u64(contents) {
        Some(khz) => khz / 1000,
        None => 0,
    }
}

/// Reads `cpuinfo_max_freq` (kHz) as MHz; 0 when it is unreadable.
pub fn read_cpu_max_freq_mhz(contents: &Option<String>) -> (r: u64)
    ensures
        r == max_freq_spec(*contents),
{
    match opt_trimmed_u64(contents) {
        Some(khz) => khz / 1000,
        None => 0,
    }
}

/// Whether frequency boosting is allowed: `cpufreq/boost` says so with 1;
/// failing that, `intel_pstate/no_turbo` says so with 0.
pub open spec fn boost_spec(boost: Option<String>, no_turbo: Option<String>) -> Option<bool> {
    match trimmed_u64(boost) {
        Some(v) => Some(v == 1),
        None => match trimmed_u64(no_turbo) {
            Some(v) => Some(v == 0),
            None => None,
        },
    }
}

/// Whether frequency boosting is allowed, from the contents of
/// `cpufreq/boost` and `intel_pstate/no_turbo`; `None` when neither reads.
pub fn read_cpu_boost(boost: &Option<String>, no_turbo: &Option<String>) -> (r: Option<bool>)
    ensures
        r == boost_spec(*boost, *no_turbo),
{
    match opt_trimmed_u64(boost) {
        Some(v) => Some(v == 1),
        None => match opt_trimmed_u64(no_turbo) {
            Some(v) => Some(v == 0),
            None => None,
        },
    }
}

/// The label of a network interface: `Wi-Fi` when it has a `wireless`
/// directory, else `Ethernet` when it has a `device` link, else its name.
pub open spec fn iface_label_spec(name: Seq<char>, wireless: bool, device: bool) -> Seq<char> {
    if wireless {
        "Wi-Fi"@
    } else if device {
        "Ethernet"@
    } else {
        name
    }
}

/// Labels a network interface (see [`iface_label_spec`]).
pub fn iface_label(name: &str, wireless: bool, device: bool) -> (r: String)
    ensures
        r@ == iface_label_spec(name@, wireless, device),
{
    if wireless {
        "Wi-Fi".to_owned()
    } else if device {
        "Ethernet".to_owned()
    } else {
        name.to_owned()
    }
}

// ---------------------------------------------------------------------------
// Discovery
// ---------------------------------------------------------------------------

/// A power zone found under `/sys/class/powercap`: a directory holding an
/// `energy_uj` file, with what its `name` and `max_energy_range_uj` files hold.
pub struct RaplZone {
    pub dir_name: String,
    pub path: String,
    pub name_file: Option<String>,
    pub max_energy_file: Option<String>,
}

/// An entry of a class directory of `/sys` with what its `type` file holds.
pub struct ClassEntry {
    pub name: String,
    pub type_file: Option<String>,
}

/// The zone's name: its trimmed `name` file, empty when unreadable.
pub open spec fn zone_label(z: RaplZone) -> Seq<char> {
    trim(text_or_empty(z.name_file))
}

/// What is sought among the zones.
pub open spec fn zone_matches(z: RaplZone, want: u8, pkg_dir: Seq<char>) -> bool {
    if want == 0 {
        starts_with(zone_label(z), "package"@) && !contains(z.path@, "mmio"@)
    } else if want == 1 {
        starts_with(zone_label(z), "package"@)
    } else if want == 2 {
        zone_label(z) == "core"@ && starts_with(z.dir_name@, pkg_dir.push(':'))
    } else {
        zone_label(z) == "core"@
    }
}

/// The position of the first zone that matches, or `zs.len()`.
pub open spec fn first_zone(zs: Seq<RaplZone>, want: u8, pkg_dir: Seq<char>) -> int
    decreases zs.len(),
{
    if zs.len() == 0 {
        0
    } else if zone_matches(zs[0], want, pkg_dir) {
        0
    } else {
        1 + first_zone(zs.drop_first(), want, pkg_dir)
    }
}

/// The package zone: the first `package*` zone not served over MMIO, else
/// the first `package*` zone; `zs.len()` when there is none.
pub open spec fn package_zone(zs: Seq<RaplZone>) -> int {
    let a = first_zone(zs, 0, seq![]);
    if a < zs.len() {
        a
    } else {
        first_zone(zs, 1, seq![])
    }
}

/// The core zone: a `core` zone under the package zone's directory, else
/// the first `core` zone; `zs.len()` when there is none.
pub open spec fn core_zone(zs: Seq<RaplZone>) -> int {
    let p = package_zone(zs);
    if p < zs.len() {
        let b = first_zone(zs, 2, zs[p].dir_name@);
        if b < zs.len() {
            b
        } else {
            first_zone(zs, 3, seq![])
        }
    } else {
        first_zone(zs, 3, seq![])
    }
}

fn zone_matches_exec(z: &RaplZone, want: u8, pkg_dir: &[char]) -> (r: bool)
    ensures
        r == zone_matches(*z, want, pkg_dir@),
{
    let label = opt_trimmed_text(&z.name_file);
    if want == 0 {
        let path = chars_of(z.path.as_str());
        starts_with_str(label.as_slice(), "package") && !contains_str(path.as_slice(), "mmio")
    } else if want == 1 {
        starts_with_str(label.as_slice(), "package")
    } else if want == 2 {
        let mut prefix: Vec<char> = copy_range(pkg_dir, 0, pkg_dir.len());
        assert(prefix@ =~= pkg_dir@);
        prefix.push(':');
        let dir = chars_of(z.dir_name.as_str());
        chars_equal_str(label.as_slice(), "core") && starts_with_chars(
            dir.as_slice(),
            prefix.as_slice(),
        )
    } else {
        chars_equal_str(label.as_slice(), "core")
    }
}

fn first_zone_exec(zs: &[RaplZone], want: u8, pkg_dir: &[char]) -> (r: usize)
    ensures
        r == first_zone(zs@, want, pkg_dir@),
        r <= zs@.len(),
{
    let mut i: usize = 0;
    assert(zs@.skip(0) =~= zs@);
    while i < zs.len()
        invariant
            0 <= i <= zs@.len(),
            first_zone(zs@, want, pkg_dir@) == i + first_zone(zs@.skip(i as int), want, pkg_dir@),
        decreases zs.len() - i,
    {
        assert(zs@.skip(i as int)[0] == zs@[i as int]);
        if zone_matches_exec(&zs[i], want, pkg_dir) {
            return i;
        }
        assert(zs@.skip(i as int).drop_first() =~= zs@.skip(i + 1));
        i += 1;
    }
    i
}

/// The positions of the package and core zones (`zs.len()` for none).
fn rapl_choice(zs: &[RaplZone]) -> (r: (usize, usize))
    ensures
        r.0 == package_zone(zs@),
        r.1 == core_zone(zs@),
{
    let empty: Vec<char> = Vec::new();
    assert(empty@ =~= seq![]);
    let a = first_zone_exec(zs, 0, empty.as_slice());
    let p = if a < zs.len() {
        a
    } else {
        first_zone_exec(zs, 1, empty.as_slice())
    };
    let c = if p < zs.len() {
        let d = chars_of(zs[p].dir_name.as_str());
        let b = first_zone_exec(zs, 2, d.as_slice());
        if b < zs.len() {
            b
        } else {
            first_zone_exec(zs, 3, empty.as_slice())
        }
    } else {
        first_zone_exec(zs, 3, empty.as_slice())
    };
    (p, c)
}

/// The path of the zone at position `i`, if there is one.
pub open spec fn zone_path(zs: Seq<RaplZone>, i: int) -> Option<Seq<char>> {
    if 0 <= i < zs.len() {
        Some(zs[i].path@)
    } else {
        None
    }
}

/// Chooses the RAPL package and core zones among the zones found under
/// `/sys/class/powercap`, by their names (`package-0`, `core`) rather than
/// by fixed paths. Returns `(package_zone_path, core_zone_path)`.
pub fn discover_rapl(zones: &[RaplZone]) -> (r: (Option<String>, Option<String>))
    ensures
        opt_chars(r.0) == zone_path(zones@, package_zone(zones@)),
        opt_chars(r.1) == zone_path(zones@, core_zone(zones@)),
{
    let (p, c) = rapl_choice(zones);
    let pkg = if p < zones.len() {
        Some(zones[p].path.clone())
    } else {
        None
    };
    let core = if c < zones.len() {
        Some(zones[c].path.clone())
    } else {
        None
    };
    (pkg, core)
}

/// The trimmed `type` of a class entry, empty when unreadable.
pub open spec fn entry_type(e: ClassEntry) -> Seq<char> {
    trim(text_or_empty(e.type_file))
}

/// What is sought among the thermal zones: `want` 0 to 2 ask for the type
/// `x86_pkg_temp`, `cpu_thermal`, `cpu`; 3 for a type that mentions `cpu` or
/// `pkg`.
pub open spec fn thermal_matches(e: ClassEntry, want: u8) -> bool {
    &&& starts_with(e.name@, "thermal_zone"@)
    &&& if want == 0 {
        entry_type(e) == "x86_pkg_temp"@
    } else if want == 1 {
        entry_type(e) == "cpu_thermal"@
    } else if want == 2 {
        entry_type(e) == "cpu"@
    } else {
        contains(entry_type(e), "cpu"@) || contains(entry_type(e), "pkg"@)
    }
}

/// The position of the first entry that matches, or `es.len()`.
pub open spec fn first_thermal(es: Seq<ClassEntry>, want: u8) -> int
    decreases es.len(),
{
    if es.len() == 0 {
        0
    } else if thermal_matches(es[0], want) {
        0
    } else {
        1 + first_thermal(es.drop_first(), want)
    }
}

/// The CPU thermal zone: the first `thermal_zone*` of type `x86_pkg_temp`,
/// else of type `cpu_thermal`, else of type `cpu`, else one whose type
/// mentions `cpu` or `pkg`; `es.len()` when there is none.
pub open spec fn thermal_choice(es: Seq<ClassEntry>) -> int {
    if first_thermal(es, 0) < es.len() {
        first_thermal(es, 0)
    } else if first_thermal(es, 1) < es.len() {
        first_thermal(es, 1)
    } else if first_thermal(es, 2) < es.len() {
        first_thermal(es, 2)
    } else {
        first_thermal(es, 3)
    }
}

fn thermal_matches_exec(e: &ClassEntry, want: u8) -> (r: bool)
    ensures
        r == thermal_matches(*e, want),
{
    let name = chars_of(e.name.as_str());
    if !starts_with_str(name.as_slice(), "thermal_zone") {
        return false;
    }
    let ty = opt_trimmed_text(&e.type_file);
    if want == 0 {
        chars_equal_str(ty.as_slice(), "x86_pkg_temp")
    } else if want == 1 {
        chars_equal_str(ty.as_slice(), "cpu_thermal")
    } else if want == 2 {
        chars_equal_str(ty.as_slice(), "cpu")
    } else {
        contains_str(ty.as_slice(), "cpu") || contains_str(ty.as_slice(), "pkg")
    }
}

fn first_thermal_exec(es: &[ClassEntry], want: u8) -> (r: usize)
    ensures
        r == first_thermal(es@, want),
        r <= es@.len(),
{
    let mut i: usize = 0;
    assert(es@.skip(0) =~= es@);
    while i < es.len()
        invariant
            0 <= i <= es@.len(),
            first_thermal(es@, want) == i + first_thermal(es@.skip(i as int), want),
        decreases es.len() - i,
    {
        assert(es@.skip(i as int)[0] == es@[i as int]);
        if thermal_matches_exec(&es[i], want) {
            return i;
        }
        assert(es@.skip(i as int).drop_first() =~= es@.skip(i + 1));
        i += 1;
    }
    i
}

/// The path of the CPU thermal zone (see [`thermal_choice`]).
pub open spec fn thermal_zone_path(es: Seq<ClassEntry>) -> Option<Seq<char>> {
    if thermal_choice(es) < es.len() {
        Some("/sys/class/thermal/"@ + es[thermal_choice(es)].name@)
    } else {
        None
    }
}

/// Finds the CPU thermal zone among the entries of `/sys/class/thermal`
/// (see [`thermal_choice`]) and gives its path.
pub fn discover_cpu_thermal_zone(entries: &[ClassEntry]) -> (r: Option<String>)
    ensures
        opt_chars(r) == thermal_zone_path(entries@),
{
    let mut k = first_thermal_exec(entries, 0);
    if k == entries.len() {
        k = first_thermal_exec(entries, 1);
    }
    if k == entries.len() {
        k = first_thermal_exec(entries, 2);
    }
    if k == entries.len() {
        k = first_thermal_exec(entries, 3);
    }
    if k < entries.len() {
        let mut path = chars_of("/sys/class/thermal/");
        let name = chars_of(entries[k].name.as_str());
        let ghost p0 = path@;
        let mut j: usize = 0;
        while j < name.len()
            invariant
                0 <= j <= name@.len(),
                path@ == p0 + name@.take(j as int),
            decreases name.len() - j,
        {
            path.push(name[j]);
            j += 1;
            assert(path@ =~= p0 + name@.take(j as int));
        }
        assert(name@.take(name@.len() as int) =~= name@);
        Some(string_from_chars(path.as_slice()))
    } else {
        None
    }
}

/// The position of the first power supply of type `Battery`, or `es.len()`.
pub open spec fn first_battery(es: Seq<ClassEntry>) -> int
    decreases es.len(),
{
    if es.len() == 0 {
        0
    } else if entry_type(es[0]) == "Battery"@ {
        0
    } else {
        1 + first_battery(es.drop_first())
    }
}

/// The name of the first battery (see [`first_battery`]).
pub open spec fn battery_of(es: Seq<ClassEntry>) -> Option<Seq<char>> {
    if first_battery(es) < es.len() {
        Some(es[first_battery(es)].name@)
    } else {
        None
    }
}

/// Finds the first battery among the entries of `/sys/class/power_supply`:
/// the first whose `type` is `Battery`. Gives its name.
pub fn discover_battery(entries: &[ClassEntry]) -> (r: Option<String>)
    ensures
        opt_chars(r) == battery_of(entries@),
{
    let mut i: usize = 0;
    assert(entries@.skip(0) =~= entries@);
    while i < entries.len()
        invariant
            0 <= i <= entries@.len(),
            first_battery(entries@) == i + first_battery(entries@.skip(i as int)),
        decreases entries.len() - i,
    {
        assert(entries@.skip(i as int)[0] == entries@[i as int]);
        let ty = opt_trimmed_text(&entries[i].type_file);
        if chars_equal_str(ty.as_slice(), "Battery") {
            return Some(entries[i].name.clone());
        }
        assert(entries@.skip(i as int).drop_first() =~= entries@.skip(i + 1));
        i += 1;
    }
    None
}

proof fn lemma_first_zone(zs: Seq<RaplZone>, want: u8, d: Seq<char>)
    ensures
        0 <= first_zone(zs, want, d) <= zs.len(),
        first_zone(zs, want, d) < zs.len() ==> zone_matches(zs[first_zone(zs, want, d)], want, d),
        forall|j: int| 0 <= j < first_zone(zs, want, d) ==> !zone_matches(#[trigger] zs[j], want, d),
    decreases zs.len(),
{
    if zs.len() > 0 && !zone_matches(zs[0], want, d) {
        lemma_first_zone(zs.drop_first(), want, d);
        assert forall|j: int| 0 <= j < first_zone(zs, want, d) implies !zone_matches(
            #[trigger] zs[j],
            want,
            d,
        ) by {
            if j > 0 {
                assert(zs[j] == zs.drop_first()[j - 1]);
            }
        }
    }
}

/// The package zone is a `package*` zone, and one not served over MMIO
/// whenever there is such a zone.
pub proof fn lemma_package_zone_prefers_native(zs: Seq<RaplZone>)
    ensures
        package_zone(zs) <= zs.len(),
        package_zone(zs) < zs.len() ==> starts_with(zone_label(zs[package_zone(zs)]), "package"@),
        (exists|i: int| 0 <= i < zs.len() && zone_matches(zs[i], 0, seq![])) ==> !contains(
            zs[package_zone(zs)].path@,
            "mmio"@,
        ) && package_zone(zs) < zs.len(),
        (exists|i: int| 0 <= i < zs.len() && zone_matches(zs[i], 1, seq![])) ==> package_zone(zs)
            < zs.len(),
{
    lemma_first_zone(zs, 0, seq![]);
    lemma_first_zone(zs, 1, seq![]);
    if exists|i: int| 0 <= i < zs.len() && zone_matches(zs[i], 0, seq![]) {
        let i = choose|i: int| 0 <= i < zs.len() && zone_matches(zs[i], 0, seq![]);
        assert(first_zone(zs, 0, seq![]) <= i);
    }
    if exists|i: int| 0 <= i < zs.len() && zone_matches(zs[i], 1, seq![]) {
        let i = choose|i: int| 0 <= i < zs.len() && zone_matches(zs[i], 1, seq![]);
        assert(first_zone(zs, 1, seq![]) <= i);
        if first_zone(zs, 0, seq![]) >= zs.len() {
            assert(first_zone(zs, 1, seq![]) < zs.len());
        }
    }
}

/// The core zone is a zone named `core`, and there is one whenever some
/// zone is named `core`.
pub proof fn lemma_core_zone_is_core(zs: Seq<RaplZone>)
    ensures
        core_zone(zs) <= zs.len(),
        core_zone(zs) < zs.len() ==> zone_label(zs[core_zone(zs)]) == "core"@,
        (exists|i: int| 0 <= i < zs.len() && zone_label(zs[i]) == "core"@) ==> core_zone(zs)
            < zs.len(),
{
    lemma_package_zone_prefers_native(zs);
    lemma_first_zone(zs, 3, seq![]);
    if package_zone(zs) < zs.len() {
        lemma_first_zone(zs, 2, zs[package_zone(zs)].dir_name@);
    }
    if exists|i: int| 0 <= i < zs.len() && zone_label(zs[i]) == "core"@ {
        let i = choose|i: int| 0 <= i < zs.len() && zone_label(zs[i]) == "core"@;
        assert(zone_matches(zs[i], 3, seq![]));
        assert(first_zone(zs, 3, seq![]) <= i);
    }
}

proof fn lemma_first_thermal(es: Seq<ClassEntry>, want: u8)
    ensures
        0 <= first_thermal(es, want) <= es.len(),
        first_thermal(es, want) < es.len() ==> thermal_matches(es[first_thermal(es, want)], want),
        forall|j: int| 0 <= j < first_thermal(es, want) ==> !thermal_matches(#[trigger] es[j], want),
    decreases es.len(),
{
    if es.len() > 0 && !thermal_matches(es[0], want) {
        lemma_first_thermal(es.drop_first(), want);
        assert forall|j: int| 0 <= j < first_thermal(es, want) implies !thermal_matches(
            #[trigger] es[j],
            want,
        ) by {
            if j > 0 {
                assert(es[j] == es.drop_first()[j - 1]);
            }
        }
    }
}

/// The package temperature sensor wins: when some thermal zone has type
/// `x86_pkg_temp`, the chosen zone is the first such.
pub proof fn lemma_thermal_prefers_package_sensor(es: Seq<ClassEntry>)
    ensures
        (exists|i: int| 0 <= i < es.len() && thermal_matches(es[i], 0)) ==> {
            &&& thermal_choice(es) < es.len()
            &&& entry_type(es[thermal_choice(es)]) == "x86_pkg_temp"@
            &&& starts_with(es[thermal_choice(es)].name@, "thermal_zone"@)
        },
{
    lemma_first_thermal(es, 0);
    if exists|i: int| 0 <= i < es.len() && thermal_matches(es[i], 0) {
        let i = choose|i: int| 0 <= i < es.len() && thermal_matches(es[i], 0);
        assert(first_thermal(es, 0) <= i);
    }
}

proof fn lemma_first_battery(es: Seq<ClassEntry>)
    ensures
        0 <= first_battery(es) <= es.len(),
        first_battery(es) < es.len() ==> entry_type(es[first_battery(es)]) == "Battery"@,
        forall|j: int| 0 <= j < first_battery(es) ==> entry_type(#[trigger] es[j]) != "Battery"@,
    decreases es.len(),
{
    if es.len() > 0 && entry_type(es[0]) != "Battery"@ {
        lemma_first_battery(es.drop_first());
        assert forall|j: int| 0 <= j < first_battery(es) implies entry_type(#[trigger] es[j])
            != "Battery"@ by {
            if j > 0 {
                assert(es[j] == es.drop_first()[j - 1]);
            }
        }
    }
}

/// The battery found is a power supply of type `Battery`, and one is found
/// whenever there is such a supply.
pub proof fn lemma_battery_is_a_battery(es: Seq<ClassEntry>)
    ensures
        battery_of(es) matches Some(n) ==> exists|i: int|
            0 <= i < es.len() && es[i].name@ == n && entry_type(es[i]) == "Battery"@,
        (exists|i: int| 0 <= i < es.len() && entry_type(es[i]) == "Battery"@) ==> battery_of(
            es,
        ) is Some,
{
    lemma_first_battery(es);
    if exists|i: int| 0 <= i < es.len() && entry_type(es[i]) == "Battery"@ {
        let i = choose|i: int| 0 <= i < es.len() && entry_type(es[i]) == "Battery"@;
        assert(first_battery(es) <= i);
    }
}

// ---------------------------------------------------------------------------
// Per-core load counters
// ---------------------------------------------------------------------------

/// The CPU that a `/proc/stat` line names: a line beginning `cpu`, the first
/// token after those letters read as a number.
pub open spec fn stat_line_index(line: Seq<char>) -> Option<usize> {
    if starts_with(line, "cpu"@) {
        let t = tokens(line.skip(("cpu"@).len() as int));
        if t.len() > 0 {
            parse_usize(t[0])
        } else {
            None
        }
    } else {
        None
    }
}

/// The line names one of the first `n` CPUs.
pub open spec fn line_reaches(line: Seq<char>, n: usize) -> bool {
    match stat_line_index(line) {
        Some(i) => i < n,
        None => false,
    }
}

/// The counters of each of the `n` CPUs after reading the lines `ls` in
/// order: a line naming CPU `i` sets slot `i` to what it reads as (`None`
/// for a line that does not read), so the last such line wins.
pub open spec fn core_slots_of(ls: Seq<Seq<char>>, n: usize) -> Seq<Option<(u64, u64)>>
    decreases ls.len(),
{
    if ls.len() == 0 {
        Seq::new(n as nat, |i: int| None::<(u64, u64)>)
    } else {
        let acc = core_slots_of(ls.drop_last(), n);
        match stat_line_index(ls.last()) {
            Some(i) => if i < n {
                acc.update(i as int, cpu_line_spec(ls.last()))
            } else {
                acc
            },
            None => acc,
        }
    }
}

/// Every line that names one of the first `n` CPUs sums within a `u64`
/// (otherwise the sum overflows).
pub open spec fn stat_fits(stat: Seq<char>, n: usize) -> bool {
    forall|i: int|
        0 <= i < lines(stat).len() && line_reaches(lines(stat)[i], n) ==> cpu_line_fits(
            #[trigger] lines(stat)[i],
        )
}

proof fn lemma_core_slots_len(ls: Seq<Seq<char>>, n: usize)
    ensures
        core_slots_of(ls, n).len() == n,
    decreases ls.len(),
{
    if ls.len() > 0 {
        lemma_core_slots_len(ls.drop_last(), n);
    }
}

fn stat_line_index_exec(line: &[char]) -> (r: Option<usize>)
    ensures
        r == stat_line_index(line@),
{
    let prefix = chars_of("cpu");
    if !starts_with_chars(line, prefix.as_slice()) {
        return None;
    }
    let rest = copy_range(line, prefix.len(), line.len());
    assert(rest@ =~= line@.skip(("cpu"@).len() as int));
    let t = split_ws(rest.as_slice());
    if t.len() > 0 {
        assert(t@[0]@ == views(t@)[0]);
        parse_usize_chars(t[0].as_slice())
    } else {
        None
    }
}

/// Whether the per-CPU lines of `stat` that name one of the first `n` CPUs
/// may be read (see [`stat_fits`]).
pub fn stat_fits_check(stat: &str, n: usize) -> (b: bool)
    ensures
        b == stat_fits(stat@, n),
{
    let cs = chars_of(stat);
    let ls = split_lines(cs.as_slice());
    let ghost lv = views(ls@);
    let mut i: usize = 0;
    while i < ls.len()
        invariant
            lv == views(ls@),
            lv == lines(stat@),
            0 <= i <= ls@.len(),
            forall|k: int| 0 <= k < i && line_reaches(lv[k], n) ==> cpu_line_fits(#[trigger] lv[k]),
        decreases ls.len() - i,
    {
        assert(lv[i as int] == ls@[i as int]@);
        match stat_line_index_exec(ls[i].as_slice()) {
            Some(idx) => {
                if idx < n && !cpu_line_fits_check(ls[i].as_slice()) {
                    return false;
                }
            },
            None => {},
        }
        i += 1;
    }
    true
}

/// The counters of each of the first `n` CPUs in `stat` (see [`core_slots_of`]).
fn core_slots(stat: &[char], n: usize) -> (r: Vec<Option<(u64, u64)>>)
    requires
        stat_fits(stat@, n),
    ensures
        r@ == core_slots_of(lines(stat@), n),
{
    let ls = split_lines(stat);
    let ghost lv = views(ls@);
    let mut slots: Vec<Option<(u64, u64)>> = Vec::new();
    let mut k: usize = 0;
    while k < n
        invariant
            0 <= k <= n,
            slots@.len() == k,
            forall|j: int| 0 <= j < k ==> slots@[j] is None,
        decreases n - k,
    {
        slots.push(None);
        k += 1;
    }
    assert(slots@ =~= core_slots_of(lv.take(0), n));
    let mut i: usize = 0;
    while i < ls.len()
        invariant
            lv == views(ls@),
            lv == lines(stat@),
            stat_fits(stat@, n),
            0 <= i <= ls@.len(),
            slots@ == core_slots_of(lv.take(i as int), n),
        decreases ls.len() - i,
    {
        proof {
            lemma_core_slots_len(lv.take(i as int), n);
        }
        assert(lv.take(i + 1).drop_last() =~= lv.take(i as int));
        assert(lv.take(i + 1).last() == ls@[i as int]@);
        assert(lv[i as int] == ls@[i as int]@);
        match stat_line_index_exec(ls[i].as_slice()) {
            Some(idx) => {
                if idx < n {
                    assert(line_reaches(lv[i as int], n));
                    let parsed = parse_cpu_line_chars(ls[i].as_slice());
                    slots.set(idx, parsed);
                }
            },
            None => {},
        }
        i += 1;
    }
    assert(lv.take(lv.len() as int) =~= lv);
    slots
}

/// The frequency in MHz of CPU `i` from its `scaling_cur_freq` (kHz), 0 when
/// unreadable.
pub open spec fn core_freq_spec(freqs: Seq<Option<String>>, i: int) -> u64 {
    if 0 <= i < freqs.len() {
        match trimmed_u64(freqs[i]) {
            Some(khz) => khz / 1000,
            None => 0,
        }
    } else {
        0
    }
}

/// One CPU of a sample: its counters before (`prev`) and now (`cur`, `None`
/// when its line could not be read), and its frequency.
pub struct CoreSample {
    pub prev: (u64, u64),
    pub cur: Option<(u64, u64)>,
    pub freq_mhz: u64,
}

// ---------------------------------------------------------------------------
// RAPL
// ---------------------------------------------------------------------------

/// What one reading of a RAPL counter gives: the first reading (which
/// draws no power yet), or the span since the previous one.
pub enum EnergySample {
    Start,
    Span { prev: u64, cur: u64, max: u64 },
}

/// Reads a RAPL counter (`energy_uj`). An unreadable counter gives `None`
/// and keeps `prev`; otherwise `prev` becomes the reading, and the sample is
/// `Start` when `prev` was 0, the span from `prev` otherwise.
pub fn rapl_sample(prev: &mut u64, contents: &Option<String>, max: u64) -> (r: Option<EnergySample>)
    ensures
        match trimmed_u64(*contents) {
            None => r is None && *final(prev) == *old(prev),
            Some(cur) => {
                &&& *final(prev) == cur
                &&& r == Some(
                    if *old(prev) == 0 {
                        EnergySample::Start
                    } else {
                        EnergySample::Span { prev: *old(prev), cur, max }
                    },
                )
            },
        },
{
    let cur = match opt_trimmed_u64(contents) {
        Some(c) => c,
        None => {
            return None;
        },
    };
    if *prev == 0 {
        *prev = cur;
        return Some(EnergySample::Start);
    }
    let p = *prev;
    *prev = cur;
    Some(EnergySample::Span { prev: p, cur, max })
}

// ---------------------------------------------------------------------------
// Battery
// ---------------------------------------------------------------------------

/// What was read for one entry of `/sys/class/power_supply`.
pub struct SupplyReadings {
    pub online: Option<String>,
    pub current_now: Option<String>,
    pub voltage_now: Option<String>,
}

/// What was read for the battery: its files, and the power supplies
/// (`None` when their directory could not be listed).
pub struct BatteryReadings {
    pub status: Option<String>,
    pub capacity: Option<String>,
    pub charge_full: Option<String>,
    pub charge_full_design: Option<String>,
    pub current_now: Option<String>,
    pub voltage_now: Option<String>,
    pub cycle_count: Option<String>,
    pub temp: Option<String>,
    pub supplies: Option<Vec<SupplyReadings>>,
}

/// The battery's state: its integer readings, whether it is charging, and
/// the current and voltage of the online charger when it is.
pub struct BatterySample {
    pub status: String,
    pub charge_pct: u64,
    pub charge_full: u64,
    pub charge_full_design: u64,
    pub current_now: i64,
    pub voltage_now: i64,
    pub cycle_count: Option<u64>,
    pub temp_milli_c: Option<i64>,
    pub charging: bool,
    pub charger: Option<(i64, i64)>,
}

/// The current and voltage that a power supply reports when it is a live
/// charger: `online` reads 1 and both `current_now` and `voltage_now` read
/// as positive numbers. A supply with a file missing or unparsable is none.
pub open spec fn supply_charger(s: SupplyReadings) -> Option<(i64, i64)> {
    let c = trimmed_i64(s.current_now);
    let v = trimmed_i64(s.voltage_now);
    if trimmed_i64(s.online) == Some(1i64) && c is Some && v is Some && c->0 > 0 && v->0 > 0 {
        Some((c->0, v->0))
    } else {
        None
    }
}

/// The current and voltage of the charger: those of the first power supply
/// that is a live charger (see [`supply_charger`]); `None` when no supply is.
pub open spec fn charger_spec(ss: Seq<SupplyReadings>) -> Option<(i64, i64)>
    decreases ss.len(),
{
    if ss.len() == 0 {
        None
    } else {
        match supply_charger(ss[0]) {
            Some(cv) => Some(cv),
            None => charger_spec(ss.drop_first()),
        }
    }
}

/// The charger is a live one, the first in the list, and there is one
/// whenever some supply is a live charger: a supply without an `online`
/// file (a battery, say) listed first does not hide the adapter after it.
pub proof fn lemma_charger_is_first_live_supply(ss: Seq<SupplyReadings>)
    ensures
        charger_spec(ss) is None <==> forall|i: int|
            0 <= i < ss.len() ==> #[trigger] supply_charger(ss[i]) is None,
        charger_spec(ss) is Some ==> exists|i: int|
            0 <= i < ss.len() && #[trigger] supply_charger(ss[i]) == charger_spec(ss) && forall|
                j: int,
            |
                0 <= j < i ==> #[trigger] supply_charger(ss[j]) is None,
    decreases ss.len(),
{
    if ss.len() > 0 {
        let t = ss.drop_first();
        lemma_charger_is_first_live_supply(t);
        if supply_charger(ss[0]) is Some {
            assert(supply_charger(ss[0]) == charger_spec(ss));
        } else {
            assert forall|i: int| 0 <= i < ss.len() && i > 0 implies #[trigger] supply_charger(ss[i])
                == supply_charger(t[i - 1]) by {}
            if charger_spec(ss) is Some {
                let i = choose|i: int|
                    0 <= i < t.len() && #[trigger] supply_charger(t[i]) == charger_spec(t) && forall|
                        j: int,
                    |
                        0 <= j < i ==> #[trigger] supply_charger(t[j]) is None;
                assert(supply_charger(ss[i + 1]) == charger_spec(ss));
                assert forall|j: int| 0 <= j < i + 1 implies #[trigger] supply_charger(ss[j]) is None by {
                    if j > 0 {
                        assert(supply_charger(ss[j]) == supply_charger(t[j - 1]));
                    }
                }
            } else {
                assert forall|i: int| 0 <= i < ss.len() implies #[trigger] supply_charger(ss[i]) is None by {
                    if i > 0 {
                        assert(supply_charger(ss[i]) == supply_charger(t[i - 1]));
                    }
                }
            }
        }
    }
}

fn read_charger(ss: &[SupplyReadings]) -> (r: Option<(i64, i64)>)
    ensures
        r == charger_spec(ss@),
{
    let mut i: usize = 0;
    assert(ss@.skip(0) =~= ss@);
    while i < ss.len()
        invariant
            0 <= i <= ss@.len(),
            charger_spec(ss@) == charger_spec(ss@.skip(i as int)),
        decreases ss.len() - i,
    {
        assert(ss@.skip(i as int)[0] == ss@[i as int]);
        assert(ss@.skip(i as int).drop_first() =~= ss@.skip(i + 1));
        let s = &ss[i];
        let online = opt_trimmed_i64(&s.online);
        let cur = opt_trimmed_i64(&s.current_now);
        let volt = opt_trimmed_i64(&s.voltage_now);
        match (online, cur, volt) {
            (Some(o), Some(c), Some(v)) => {
                if o == 1 && c > 0 && v > 0 {
                    return Some((c, v));
                }
            },
            _ => {},
        }
        i += 1;
    }
    None
}

/// The battery reads: its status, capacity, full and design charge all read.
pub open spec fn battery_present(r: BatteryReadings) -> bool {
    &&& r.status is Some
    &&& trimmed_u64(r.capacity) is Some
    &&& trimmed_u64(r.charge_full) is Some
    &&& trimmed_u64(r.charge_full_design) is Some
}

/// A number read with `unwrap_or(0)`.
pub open spec fn i64_or_zero(o: Option<i64>) -> i64 {
    match o {
        Some(v) => v,
        None => 0,
    }
}

/// `b` is what the readings `r` give (see [`read_battery`]).
pub open spec fn battery_sample_ok(b: BatterySample, r: BatteryReadings) -> bool {
    &&& b.status@ == trim(text_or_empty(r.status))
    &&& b.charge_pct == trimmed_u64(r.capacity)->0
    &&& b.charge_full == trimmed_u64(r.charge_full)->0
    &&& b.charge_full_design == trimmed_u64(r.charge_full_design)->0
    &&& b.current_now == i64_or_zero(trimmed_i64(r.current_now))
    &&& b.voltage_now == i64_or_zero(trimmed_i64(r.voltage_now))
    &&& b.cycle_count == (match trimmed_u64(r.cycle_count) {
        Some(c) => if c != 0 {
            Some(c)
        } else {
            None
        },
        None => None,
    })
    &&& b.temp_milli_c == trimmed_i64(r.temp)
    &&& b.charging == starts_with(b.status@, "Charging"@)
    &&& b.charger == (if b.charging {
        match r.supplies {
            Some(v) => charger_spec(v@),
            None => None,
        }
    } else {
        None
    })
}

/// Each battery figure is the number in its own file: capacity, full and
/// design charge, current and voltage (0 when unreadable), temperature, and
/// the cycle count (none when it reads 0); the status is its file trimmed.
pub proof fn lemma_battery_figures_come_from_their_files(b: BatterySample, r: BatteryReadings)
    requires
        battery_present(r),
        battery_sample_ok(b, r),
    ensures
        r.status matches Some(t) && b.status@ == trim(t@),
        r.capacity matches Some(t) && parse_u64(trim(t@)) == Some(b.charge_pct),
        r.charge_full matches Some(t) && parse_u64(trim(t@)) == Some(b.charge_full),
        r.charge_full_design matches Some(t) && parse_u64(trim(t@)) == Some(b.charge_full_design),
        r.current_now matches Some(t) ==> (parse_i64(trim(t@)) is Some ==> parse_i64(trim(t@))
            == Some(b.current_now)),
        !(r.current_now matches Some(t) && parse_i64(trim(t@)) is Some) ==> b.current_now == 0,
        r.voltage_now matches Some(t) ==> (parse_i64(trim(t@)) is Some ==> parse_i64(trim(t@))
            == Some(b.voltage_now)),
        !(r.voltage_now matches Some(t) && parse_i64(trim(t@)) is Some) ==> b.voltage_now == 0,
        b.cycle_count matches Some(c) ==> c != 0 && (r.cycle_count matches Some(t) && parse_u64(
            trim(t@),
        ) == Some(c)),
        b.cycle_count is None ==> !(r.cycle_count matches Some(t) && parse_u64(trim(t@)) is Some
            && parse_u64(trim(t@))->0 != 0),
        b.temp_milli_c == (match r.temp {
            Some(t) => parse_i64(trim(t@)),
            None => None,
        }),
{
}

/// The battery is charging exactly when its trimmed status begins with
/// `Charging`: `Full`, `Discharging`, `Not charging` or `Unknown` are not
/// charging, and only while charging is a charger looked for.
pub proof fn lemma_charging_follows_status(b: BatterySample, r: BatteryReadings)
    requires
        battery_sample_ok(b, r),
    ensures
        b.charging <==> ({
            let st = trim(text_or_empty(r.status));
            st.len() >= 8 && st.subrange(0, 8) == "Charging"@
        }),
        !b.charging ==> b.charger is None,
{
    reveal_strlit("Charging");
    let st = trim(text_or_empty(r.status));
    assert(b.status@ == st);
    if st.len() >= 8 {
        assert(st.take(8) =~= st.subrange(0, 8));
    }
}

/// The battery's state from its readings; `None` when there is no battery
/// or one of its status, capacity, full or design charge cannot be read.
pub fn read_battery(battery_name: &Option<String>, r: &BatteryReadings) -> (b: Option<BatterySample>)
    ensures
        match b {
            Some(b) => battery_name is Some && battery_present(*r) && battery_sample_ok(b, *r),
            None => battery_name is None || !battery_present(*r),
        },
{
    if battery_name.is_none() || r.status.is_none() {
        return None;
    }
    let status_chars = opt_trimmed_text(&r.status);
    let charge_pct = match opt_trimmed_u64(&r.capacity) {
        Some(v) => v,
        None => {
            return None;
        },
    };
    let full = match opt_trimmed_u64(&r.charge_full) {
        Some(v) => v,
        None => {
            return None;
        },
    };
    let design = match opt_trimmed_u64(&r.charge_full_design) {
        Some(v) => v,
        None => {
            return None;
        },
    };
    let current_now: i64 = match opt_trimmed_i64(&r.current_now) {
        Some(v) => v,
        None => 0,
    };
    let voltage_now: i64 = match opt_trimmed_i64(&r.voltage_now) {
        Some(v) => v,
        None => 0,
    };
    let cycle_count = match opt_trimmed_u64(&r.cycle_count) {
        Some(c) => if c != 0 {
            Some(c)
        } else {
            None
        },
        None => None,
    };
    let temp_milli_c = opt_trimmed_i64(&r.temp);
    let charging = starts_with_str(status_chars.as_slice(), "Charging");
    let charger = if charging {
        match &r.supplies {
            Some(v) => read_charger(v.as_slice()),
            None => None,
        }
    } else {
        None
    };
    let status = string_from_chars(status_chars.as_slice());
    Some(
        BatterySample {
            status,
            charge_pct,
            charge_full: full,
            charge_full_design: design,
            current_now,
            voltage_now,
            cycle_count,
            temp_milli_c,
            charging,
            charger,
        },
    )
}

// ---------------------------------------------------------------------------
// Memory
// ---------------------------------------------------------------------------

/// The compressed size of zram in kB: the second token of its `mm_stat`
/// (bytes) divided by 1024; 0 when unreadable.
pub open spec fn zram_spec(z: Option<String>) -> u64 {
    match z {
        Some(t) => {
            let tk = tokens(t@);
            if tk.len() >= 2 {
                match parse_u64(tk[1]) {
                    Some(b) => b / 1024,
                    None => 0,
                }
            } else {
                0
            }
        },
        None => 0,
    }
}

/// Buffers plus Cached fits in a `u64` (otherwise the sum overflows).
pub open spec fn meminfo_fits(m: Seq<char>) -> bool {
    meminfo_spec(m).3 + meminfo_spec(m).4 <= u64::MAX
}

/// The memory figures that `/proc/meminfo` (`m`) and zram's `mm_stat` give.
pub open spec fn memory_spec(m: Seq<char>, zram: Option<String>) -> Memory {
    let v = meminfo_spec(m);
    Memory {
        total_kb: v.0,
        free_kb: v.1,
        avail_kb: v.2,
        cache_kb: (v.3 + v.4) as u64,
        swap_total_kb: v.5,
        swap_free_kb: v.6,
        zram_compressed_kb: zram_spec(zram),
    }
}

proof fn lemma_meminfo_empty()
    ensures
        meminfo_spec(seq![]) == (0u64, 0u64, 0u64, 0u64, 0u64, 0u64, 0u64, 0u64, 0u64),
{
    let e: Seq<char> = seq![];
    assert(lines(e) =~= seq![]);
}

/// Each memory figure is the number on its own `/proc/meminfo` line: when
/// the last line keyed `MemTotal:`, `MemFree:`, `MemAvailable:`,
/// `SwapTotal:` or `SwapFree:` carries `n` as its second field, the total,
/// free, available, swap total or swap free figure is `n` respectively.
pub proof fn lemma_memory_figures_come_from_their_lines(
    m: Seq<char>,
    zram: Option<String>,
    i: int,
    n: u64,
)
    requires
        0 <= i < lines(m).len(),
        tokens(lines(m)[i]).len() >= 2,
        parse_u64(tokens(lines(m)[i])[1]) == Some(n),
        forall|j: int| i < j < lines(m).len() ==> line_key(#[trigger] lines(m)[j]) != tokens(lines(m)[i])[0],
    ensures
        ({
            let key = tokens(lines(m)[i])[0];
            let mm = memory_spec(m, zram);
            &&& key == "MemTotal:"@ ==> mm.total_kb == n
            &&& key == "MemFree:"@ ==> mm.free_kb == n
            &&& key == "MemAvailable:"@ ==> mm.avail_kb == n
            &&& key == "SwapTotal:"@ ==> mm.swap_total_kb == n
            &&& key == "SwapFree:"@ ==> mm.swap_free_kb == n
        }),
{
    crate::read::lemma_meminfo_slot_values();
    let ls = lines(m);
    let key = tokens(ls[i])[0];
    assert(line_key(ls[i]) == key);
    assert(line_value(ls[i]) == n);
    match meminfo_slot(key) {
        Some(k) => {
            crate::read::lemma_meminfo_last_line_wins(ls, i, k);
        },
        None => {},
    }
}

/// The cache figure is Buffers plus Cached: when the last `Buffers:` line
/// carries `b` and the last `Cached:` line carries `c`, the cache is `b + c`;
/// a missing one counts 0.
pub proof fn lemma_cache_is_buffers_plus_cached(m: Seq<char>, zram: Option<String>, i: int, b: u64, j: int, c: u64)
    requires
        meminfo_fits(m),
        0 <= i < lines(m).len(),
        0 <= j < lines(m).len(),
        tokens(lines(m)[i]).len() >= 2,
        tokens(lines(m)[i])[0] == "Buffers:"@,
        parse_u64(tokens(lines(m)[i])[1]) == Some(b),
        tokens(lines(m)[j]).len() >= 2,
        tokens(lines(m)[j])[0] == "Cached:"@,
        parse_u64(tokens(lines(m)[j])[1]) == Some(c),
        forall|k: int| i < k < lines(m).len() ==> line_key(#[trigger] lines(m)[k]) != "Buffers:"@,
        forall|k: int| j < k < lines(m).len() ==> line_key(#[trigger] lines(m)[k]) != "Cached:"@,
    ensures
        memory_spec(m, zram).cache_kb == b + c,
{
    crate::read::lemma_meminfo_slot_values();
    let ls = lines(m);
    assert(line_key(ls[i]) == "Buffers:"@);
    assert(line_key(ls[j]) == "Cached:"@);
    crate::read::lemma_meminfo_last_line_wins(ls, i, 3);
    crate::read::lemma_meminfo_last_line_wins(ls, j, 4);
}

/// A memory figure whose key no line of `/proc/meminfo` carries is 0.
pub proof fn lemma_missing_memory_figure_is_zero(m: Seq<char>, zram: Option<String>, key: Seq<char>)
    requires
        forall|j: int| 0 <= j < lines(m).len() ==> line_key(#[trigger] lines(m)[j]) != key,
    ensures
        ({
            let mm = memory_spec(m, zram);
            &&& key == "MemTotal:"@ ==> mm.total_kb == 0
            &&& key == "MemFree:"@ ==> mm.free_kb == 0
            &&& key == "MemAvailable:"@ ==> mm.avail_kb == 0
            &&& key == "SwapTotal:"@ ==> mm.swap_total_kb == 0
            &&& key == "SwapFree:"@ ==> mm.swap_free_kb == 0
        }),
{
    crate::read::lemma_meminfo_slot_values();
    match meminfo_slot(key) {
        Some(k) => {
            crate::read::lemma_meminfo_missing_key(lines(m), key, k);
        },
        None => {},
    }
}

/// The compressed size of zram is the second field of its `mm_stat`, a
/// count of bytes, in whole kB; it is 0 when `mm_stat` cannot be read.
pub proof fn lemma_zram_is_second_field_in_kb(m: Seq<char>, zram: Option<String>)
    ensures
        zram is None ==> memory_spec(m, zram).zram_compressed_kb == 0,
        zram matches Some(t) ==> (tokens(t@).len() >= 2 && parse_u64(tokens(t@)[1]) is Some
            ==> memory_spec(m, zram).zram_compressed_kb * 1024 <= parse_u64(tokens(t@)[1])->0
            < (memory_spec(m, zram).zram_compressed_kb + 1) * 1024),
{
}

/// Whether Buffers plus Cached of a `/proc/meminfo` text fits (see
/// [`meminfo_fits`]); an unreadable file reads as empty.
pub fn meminfo_fits_check(meminfo: &Option<String>) -> (b: bool)
    ensures
        b == meminfo_fits(text_or_empty(*meminfo)),
{
    match meminfo {
        Some(s) => {
            let v = parse_meminfo(s.as_str());
            v.3 <= u64::MAX - v.4
        },
        None => {
            proof {
                lemma_meminfo_empty();
            }
            true
        },
    }
}

/// The memory figures from `/proc/meminfo` and zram's `mm_stat` (an
/// unreadable meminfo reads as empty, so all its figures are 0).
pub fn read_memory(meminfo: &Option<String>, zram: &Option<String>) -> (m: Memory)
    requires
        meminfo_fits(text_or_empty(*meminfo)),
    ensures
        m == memory_spec(text_or_empty(*meminfo), *zram),
{
    let v = match meminfo {
        Some(s) => parse_meminfo(s.as_str()),
        None => {
            proof {
                lemma_meminfo_empty();
            }
            (0, 0, 0, 0, 0, 0, 0, 0, 0)
        },
    };
    let zram_kb: u64 = match zram {
        Some(t) => {
            let cs = chars_of(t.as_str());
            let tk = split_ws(cs.as_slice());
            if tk.len() >= 2 {
                assert(tk@[1]@ == views(tk@)[1]);
                match parse_u64_chars(tk[1].as_slice()) {
                    Some(b) => b / 1024,
                    None => 0,
                }
            } else {
                0
            }
        },
        None => 0,
    };
    Memory {
        total_kb: v.0,
        free_kb: v.1,
        avail_kb: v.2,
        cache_kb: v.3 + v.4,
        swap_total_kb: v.5,
        swap_free_kb: v.6,
        zram_compressed_kb: zram_kb,
    }
}

// ---------------------------------------------------------------------------
// Network
// ---------------------------------------------------------------------------

/// The counters of an interface as of the previous sample.
pub struct NetCounter {
    pub name: String,
    pub rx: u64,
    pub tx: u64,
}

/// The label given to an interface the first time it was seen.
pub struct IfaceLabel {
    pub name: String,
    pub label: String,
}

/// What the filesystem says of an interface: whether `/sys/class/net/<name>`
/// has a `wireless` directory and a `device` link.
pub struct IfaceProbe {
    pub name: String,
    pub wireless: bool,
    pub device: bool,
}

/// One interface of a sample: its received and sent byte counters now and
/// as of the previous sample (now again, when it was not seen before).
pub struct IfaceSample {
    pub name: String,
    pub label: String,
    pub rx_prev: u64,
    pub rx: u64,
    pub tx_prev: u64,
    pub tx: u64,
}

/// What one line of `/proc/net/dev` gives: `(name, received bytes, sent
/// bytes)`. The name is the trimmed text before the first `:`; the numbers
/// are the 1st and 9th numeric tokens between the first and the second `:`.
/// The loopback interface `lo`, lines without `:` and lines with fewer than
/// nine numbers give nothing.
pub open spec fn net_line(line: Seq<char>) -> Option<(Seq<char>, u64, u64)> {
    let ps = pieces(line, ':');
    if ps.len() < 2 {
        None
    } else {
        let name = trim(ps[0]);
        if name == "lo"@ {
            None
        } else {
            let vals = parsed_values(tokens(ps[1]));
            if vals.len() < 9 {
                None
            } else {
                Some((name, vals[0], vals[8]))
            }
        }
    }
}

/// The interfaces that the lines `ls` give, in order.
pub open spec fn net_entries_of(ls: Seq<Seq<char>>) -> Seq<(Seq<char>, u64, u64)>
    decreases ls.len(),
{
    if ls.len() == 0 {
        seq![]
    } else {
        let r = net_entries_of(ls.drop_last());
        match net_line(ls.last()) {
            Some(e) => r.push(e),
            None => r,
        }
    }
}

/// The interfaces of a `/proc/net/dev` text: its lines after the two lines
/// of headers.
pub open spec fn net_entries(text: Seq<char>) -> Seq<(Seq<char>, u64, u64)> {
    let ls = lines(text);
    if ls.len() > 2 {
        net_entries_of(ls.skip(2))
    } else {
        seq![]
    }
}

/// The names of interfaces.
pub open spec fn entry_names(es: Seq<(Seq<char>, u64, u64)>) -> Seq<Seq<char>> {
    es.map_values(|e: (Seq<char>, u64, u64)| e.0)
}

/// Counters seen as plain values.
pub open spec fn counters_view(v: Seq<NetCounter>) -> Seq<(Seq<char>, u64, u64)> {
    v.map_values(|c: NetCounter| (c.name@, c.rx, c.tx))
}

/// Labels seen as plain values.
pub open spec fn labels_view(v: Seq<IfaceLabel>) -> Seq<(Seq<char>, Seq<char>)> {
    v.map_values(|l: IfaceLabel| (l.name@, l.label@))
}

/// The counters of the last interface named `n`.
pub open spec fn lookup_last(v: Seq<(Seq<char>, u64, u64)>, n: Seq<char>) -> Option<(u64, u64)>
    decreases v.len(),
{
    if v.len() == 0 {
        None
    } else if v.last().0 == n {
        Some((v.last().1, v.last().2))
    } else {
        lookup_last(v.drop_last(), n)
    }
}

/// What the first probe of `n` says, `(false, false)` when there is none.
pub open spec fn probe_of(ps: Seq<IfaceProbe>, n: Seq<char>) -> (bool, bool)
    decreases ps.len(),
{
    if ps.len() == 0 {
        (false, false)
    } else if ps[0].name@ == n {
        (ps[0].wireless, ps[0].device)
    } else {
        probe_of(ps.drop_first(), n)
    }
}

/// The label that the probes give an interface.
pub open spec fn label_for(n: Seq<char>, ps: Seq<IfaceProbe>) -> Seq<char> {
    iface_label_spec(n, probe_of(ps, n).0, probe_of(ps, n).1)
}

/// The label of the first entry named `n`.
pub open spec fn label_lookup(v: Seq<(Seq<char>, Seq<char>)>, n: Seq<char>) -> Option<Seq<char>>
    decreases v.len(),
{
    if v.len() == 0 {
        None
    } else if v[0].0 == n {
        Some(v[0].1)
    } else {
        label_lookup(v.drop_first(), n)
    }
}

/// The labels after meeting the interfaces `names` in order: a name met
/// for the first time gets the label that the probes give it, and keeps it.
pub open spec fn labels_after(
    labels: Seq<(Seq<char>, Seq<char>)>,
    names: Seq<Seq<char>>,
    ps: Seq<IfaceProbe>,
) -> Seq<(Seq<char>, Seq<char>)>
    decreases names.len(),
{
    if names.len() == 0 {
        labels
    } else {
        let acc = labels_after(labels, names.drop_last(), ps);
        let n = names.last();
        if label_lookup(acc, n) is Some {
            acc
        } else {
            acc.push((n, label_for(n, ps)))
        }
    }
}

/// The names among `ns` that `labels` does not label, in order.
pub open spec fn unlabeled_names(ns: Seq<Seq<char>>, labels: Seq<(Seq<char>, Seq<char>)>) -> Seq<
    Seq<char>,
>
    decreases ns.len(),
{
    if ns.len() == 0 {
        seq![]
    } else {
        let r = unlabeled_names(ns.drop_last(), labels);
        if label_lookup(labels, ns.last()) is None {
            r.push(ns.last())
        } else {
            r
        }
    }
}

/// An optional label, empty when absent.
pub open spec fn label_or_empty(o: Option<Seq<char>>) -> Seq<char> {
    match o {
        Some(l) => l,
        None => seq![],
    }
}

/// An interface sample seen as plain values.
pub open spec fn iface_view(s: IfaceSample) -> (Seq<char>, Seq<char>, u64, u64, u64, u64) {
    (s.name@, s.label@, s.rx_prev, s.rx, s.tx_prev, s.tx)
}

/// The sample of the `k`-th interface of `es`: its counters, those of the
/// previous sample (its own again when it was not seen then), and its label.
pub open spec fn iface_expected(
    prev: Seq<(Seq<char>, u64, u64)>,
    labels: Seq<(Seq<char>, Seq<char>)>,
    es: Seq<(Seq<char>, u64, u64)>,
    ps: Seq<IfaceProbe>,
    k: int,
) -> (Seq<char>, Seq<char>, u64, u64, u64, u64) {
    let e = es[k];
    let p = match lookup_last(prev, e.0) {
        Some(p) => p,
        None => (e.1, e.2),
    };
    let l = label_or_empty(label_lookup(labels_after(labels, entry_names(es.take(k + 1)), ps), e.0));
    (e.0, l, p.0, e.1, p.1, e.2)
}

proof fn lemma_label_lookup_push(v: Seq<(Seq<char>, Seq<char>)>, n: Seq<char>, l: Seq<char>)
    requires
        label_lookup(v, n) is None,
    ensures
        label_lookup(v.push((n, l)), n) == Some(l),
    decreases v.len(),
{
    if v.len() > 0 {
        assert(v.push((n, l)).drop_first() =~= v.drop_first().push((n, l)));
        lemma_label_lookup_push(v.drop_first(), n, l);
    } else {
        assert(v.push((n, l))[0] == (n, l));
    }
}

/// The numbers among `toks`, in order.
fn parsed_values_exec(toks: &[Vec<char>]) -> (r: Vec<u64>)
    ensures
        r@ == parsed_values(views(toks@)),
{
    let ghost tv = views(toks@);
    let mut vals: Vec<u64> = Vec::new();
    let mut i: usize = 0;
    assert(tv.take(0) =~= seq![]);
    while i < toks.len()
        invariant
            tv == views(toks@),
            tv.len() == toks@.len(),
            0 <= i <= toks@.len(),
            vals@ == parsed_values(tv.take(i as int)),
        decreases toks.len() - i,
    {
        assert(tv.take(i + 1).drop_last() =~= tv.take(i as int));
        assert(tv.take(i + 1).last() == toks@[i as int]@);
        match parse_u64_chars(toks[i].as_slice()) {
            Some(v) => {
                vals.push(v);
            },
            None => {},
        }
        i += 1;
    }
    assert(tv.take(tv.len() as int) =~= tv);
    vals
}

fn net_line_exec(line: &[char]) -> (r: Option<(Vec<char>, u64, u64)>)
    ensures
        match r {
            Some(e) => net_line(line@) == Some((e.0@, e.1, e.2)),
            None => net_line(line@) is None,
        },
{
    let ps = split_on(line, ':');
    if ps.len() < 2 {
        return None;
    }
    assert(ps@[0]@ == views(ps@)[0]);
    assert(ps@[1]@ == views(ps@)[1]);
    let name = trim_chars(ps[0].as_slice());
    if chars_equal_str(name.as_slice(), "lo") {
        return None;
    }
    let toks = split_ws(ps[1].as_slice());
    let vals = parsed_values_exec(toks.as_slice());
    if vals.len() < 9 {
        return None;
    }
    Some((name, vals[0], vals[8]))
}

fn lookup_last_exec(v: &[NetCounter], n: &[char]) -> (r: Option<(u64, u64)>)
    ensures
        r == lookup_last(counters_view(v@), n@),
{
    let ghost cv = counters_view(v@);
    let mut j: usize = v.len();
    assert(cv.take(j as int) =~= cv);
    while j > 0
        invariant
            cv == counters_view(v@),
            cv.len() == v@.len(),
            j <= v@.len(),
            lookup_last(cv, n@) == lookup_last(cv.take(j as int), n@),
        decreases j,
    {
        assert(cv.take(j as int).last() == cv[j - 1]);
        assert(cv[j - 1] == (v@[j - 1].name@, v@[j - 1].rx, v@[j - 1].tx));
        let nm = chars_of(v[j - 1].name.as_str());
        if same_chars(nm.as_slice(), n) {
            return Some((v[j - 1].rx, v[j - 1].tx));
        }
        assert(cv.take(j as int).drop_last() =~= cv.take(j - 1));
        j -= 1;
    }
    assert(cv.take(0) =~= seq![]);
    None
}

fn probe_of_exec(ps: &[IfaceProbe], n: &[char]) -> (r: (bool, bool))
    ensures
        r == probe_of(ps@, n@),
{
    let mut j: usize = 0;
    assert(ps@.skip(0) =~= ps@);
    while j < ps.len()
        invariant
            0 <= j <= ps@.len(),
            probe_of(ps@, n@) == probe_of(ps@.skip(j as int), n@),
        decreases ps.len() - j,
    {
        assert(ps@.skip(j as int)[0] == ps@[j as int]);
        let nm = chars_of(ps[j].name.as_str());
        if same_chars(nm.as_slice(), n) {
            return (ps[j].wireless, ps[j].device);
        }
        assert(ps@.skip(j as int).drop_first() =~= ps@.skip(j + 1));
        j += 1;
    }
    (false, false)
}

fn label_lookup_exec(v: &[IfaceLabel], n: &[char]) -> (r: Option<String>)
    ensures
        match r {
            Some(l) => label_lookup(labels_view(v@), n@) == Some(l@),
            None => label_lookup(labels_view(v@), n@) is None,
        },
{
    let ghost lv = labels_view(v@);
    let mut j: usize = 0;
    assert(lv.skip(0) =~= lv);
    while j < v.len()
        invariant
            lv == labels_view(v@),
            lv.len() == v@.len(),
            0 <= j <= v@.len(),
            label_lookup(lv, n@) == label_lookup(lv.skip(j as int), n@),
        decreases v.len() - j,
    {
        assert(lv.skip(j as int)[0] == lv[j as int]);
        assert(lv[j as int] == (v@[j as int].name@, v@[j as int].label@));
        let nm = chars_of(v[j].name.as_str());
        if same_chars(nm.as_slice(), n) {
            return Some(v[j].label.clone());
        }
        assert(lv.skip(j as int).drop_first() =~= lv.skip(j + 1));
        j += 1;
    }
    None
}

/// The samples of the network interfaces of a `/proc/net/dev` text, given
/// the counters `prev` of the previous sample; `labels` keeps the label of
/// every interface met so far. Returns the samples and the counters for the
/// next sample.
fn read_net(
    prev: &[NetCounter],
    labels: &mut Vec<IfaceLabel>,
    net_dev: &Option<String>,
    probes: &[IfaceProbe],
) -> (r: (Vec<IfaceSample>, Vec<NetCounter>))
    ensures
        ({
            let es = net_entries(text_or_empty(*net_dev));
            &&& r.0@.len() == es.len()
            &&& forall|k: int|
                0 <= k < es.len() ==> #[trigger] iface_view(r.0@[k]) == iface_expected(
                    counters_view(prev@),
                    labels_view(old(labels)@),
                    es,
                    probes@,
                    k,
                )
            &&& counters_view(r.1@) == es
            &&& labels_view(final(labels)@) == labels_after(
                labels_view(old(labels)@),
                entry_names(es),
                probes@,
            )
        }),
{
    let ghost old_labels = labels_view(labels@);
    let ghost old_prev = counters_view(prev@);
    let cs: Vec<char> = match net_dev {
        Some(t) => chars_of(t.as_str()),
        None => Vec::new(),
    };
    assert(cs@ =~= text_or_empty(*net_dev));
    let ls = split_lines(cs.as_slice());
    let ghost lv = views(ls@);
    let mut out: Vec<IfaceSample> = Vec::new();
    let mut cur: Vec<NetCounter> = Vec::new();
    if ls.len() <= 2 {
        assert(counters_view(cur@) =~= seq![]);
        assert(entry_names(seq![]) =~= seq![]);
        return (out, cur);
    }
    let ghost sk = lv.skip(2);
    let mut i: usize = 2;
    assert(sk.take(0) =~= seq![]);
    assert(counters_view(cur@) =~= seq![]);
    assert(entry_names(net_entries_of(sk.take(0))) =~= seq![]);
    while i < ls.len()
        invariant
            lv == views(ls@),
            lv == lines(text_or_empty(*net_dev)),
            lv.len() > 2,
            sk == lv.skip(2),
            2 <= i <= lv.len(),
            old_prev == counters_view(prev@),
            counters_view(cur@) == net_entries_of(sk.take(i - 2)),
            labels_view(labels@) == labels_after(
                old_labels,
                entry_names(net_entries_of(sk.take(i - 2))),
                probes@,
            ),
            out@.len() == net_entries_of(sk.take(i - 2)).len(),
            forall|k: int|
                0 <= k < out@.len() ==> #[trigger] iface_view(out@[k]) == iface_expected(
                    old_prev,
                    old_labels,
                    net_entries_of(sk.take(i - 2)),
                    probes@,
                    k,
                ),
        decreases ls.len() - i,
    {
        let ghost ents = net_entries_of(sk.take(i - 2));
        assert(sk.take(i - 1).drop_last() =~= sk.take(i - 2));
        assert(sk.take(i - 1).last() == ls@[i as int]@);
        match net_line_exec(ls[i].as_slice()) {
            Some((name, rx, tx)) => {
                let ghost e = (name@, rx, tx);
                let ghost ents2 = ents.push(e);
                assert(net_entries_of(sk.take(i - 1)) == ents2);
                let ghost before_out = out@;
                let ghost before_labels = labels_view(labels@);
                assert(entry_names(ents2) =~= entry_names(ents).push(name@));
                assert(entry_names(ents2).drop_last() =~= entry_names(ents));
                let p = match lookup_last_exec(prev, name.as_slice()) {
                    Some(p) => p,
                    None => (rx, tx),
                };
                let label = match label_lookup_exec(labels.as_slice(), name.as_slice()) {
                    Some(l) => l,
                    None => {
                        let (w, d) = probe_of_exec(probes, name.as_slice());
                        let name_str = string_from_chars(name.as_slice());
                        let l = iface_label(name_str.as_str(), w, d);
                        let l2 = l.clone();
                        labels.push(IfaceLabel { name: name_str, label: l2 });
                        assert(labels_view(labels@) =~= before_labels.push((name@, l@)));
                        proof {
                            lemma_label_lookup_push(before_labels, name@, l@);
                        }
                        l
                    },
                };
                assert(labels_view(labels@) == labels_after(
                    old_labels,
                    entry_names(ents2),
                    probes@,
                ));
                assert(label_lookup(labels_view(labels@), name@) == Some(label@));
                let s = IfaceSample {
                    name: string_from_chars(name.as_slice()),
                    label,
                    rx_prev: p.0,
                    rx,
                    tx_prev: p.1,
                    tx,
                };
                assert(ents2.take(ents.len() + 1 as int) =~= ents2);
                assert(iface_view(s) == iface_expected(
                    old_prev,
                    old_labels,
                    ents2,
                    probes@,
                    ents.len() as int,
                ));
                out.push(s);
                let ghost cv = counters_view(cur@);
                cur.push(NetCounter { name: string_from_chars(name.as_slice()), rx, tx });
                assert(counters_view(cur@) =~= cv.push(e));
                assert forall|k: int| 0 <= k < out@.len() implies #[trigger] iface_view(out@[k])
                    == iface_expected(old_prev, old_labels, ents2, probes@, k) by {
                    if k < ents.len() {
                        assert(out@[k] == before_out[k]);
                        assert(ents2.take(k + 1) =~= ents.take(k + 1));
                        assert(ents2[k] == ents[k]);
                    }
                }
            },
            None => {
                assert(net_entries_of(sk.take(i - 1)) == ents);
            },
        }
        i += 1;
    }
    assert(sk.take(lv.len() - 2) =~= sk);
    (out, cur)
}

/// The loopback interface never appears among the sampled interfaces.
pub proof fn lemma_no_loopback(text: Seq<char>)
    ensures
        forall|k: int|
            0 <= k < net_entries(text).len() ==> (#[trigger] net_entries(text)[k]).0 != "lo"@,
{
    let ls = lines(text);
    if ls.len() > 2 {
        lemma_no_loopback_lines(ls.skip(2));
    }
}

proof fn lemma_no_loopback_lines(ls: Seq<Seq<char>>)
    ensures
        forall|k: int|
            0 <= k < net_entries_of(ls).len() ==> (#[trigger] net_entries_of(ls)[k]).0 != "lo"@,
    decreases ls.len(),
{
    if ls.len() > 0 {
        lemma_no_loopback_lines(ls.drop_last());
        let r = net_entries_of(ls.drop_last());
        assert forall|k: int|
            0 <= k < net_entries_of(ls).len() implies (#[trigger] net_entries_of(ls)[k]).0
            != "lo"@ by {
            if k < r.len() {
                assert(net_entries_of(ls)[k] == r[k]);
            }
        }
    }
}

proof fn lemma_label_lookup_push_other(v: Seq<(Seq<char>, Seq<char>)>, n: Seq<char>, x: (Seq<char>, Seq<char>))
    requires
        label_lookup(v, n) is Some,
    ensures
        label_lookup(v.push(x), n) == label_lookup(v, n),
    decreases v.len(),
{
    if v.len() > 0 && v[0].0 != n {
        assert(v.push(x).drop_first() =~= v.drop_first().push(x));
        lemma_label_lookup_push_other(v.drop_first(), n, x);
    }
}

/// An interface keeps the label it was first given, whatever is met later.
pub proof fn lemma_labels_persist(
    labels: Seq<(Seq<char>, Seq<char>)>,
    names: Seq<Seq<char>>,
    ps: Seq<IfaceProbe>,
    n: Seq<char>,
)
    requires
        label_lookup(labels, n) is Some,
    ensures
        label_lookup(labels_after(labels, names, ps), n) == label_lookup(labels, n),
    decreases names.len(),
{
    if names.len() > 0 {
        lemma_labels_persist(labels, names.drop_last(), ps, n);
        let acc = labels_after(labels, names.drop_last(), ps);
        if label_lookup(acc, names.last()) is None {
            lemma_label_lookup_push_other(acc, n, (names.last(), label_for(names.last(), ps)));
        }
    }
}

/// An interface that the previous sample did not see shows no traffic:
/// its previous counters are its current ones.
pub proof fn lemma_new_iface_has_no_traffic(
    prev: Seq<(Seq<char>, u64, u64)>,
    labels: Seq<(Seq<char>, Seq<char>)>,
    es: Seq<(Seq<char>, u64, u64)>,
    ps: Seq<IfaceProbe>,
    k: int,
)
    requires
        0 <= k < es.len(),
        lookup_last(prev, es[k].0) is None,
    ensures
        iface_expected(prev, labels, es, ps, k).2 == iface_expected(prev, labels, es, ps, k).3,
        iface_expected(prev, labels, es, ps, k).4 == iface_expected(prev, labels, es, ps, k).5,
{
}

/// The counters of each CPU after a sample: those read now, where they read,
/// else the previous ones.
pub open spec fn next_prev_cpu(prev: Seq<(u64, u64)>, slots: Seq<Option<(u64, u64)>>) -> Seq<
    (u64, u64),
> {
    Seq::new(
        prev.len(),
        |i: int|
            match slots[i] {
                Some(c) => c,
                None => prev[i],
            },
    )
}

/// The per-CPU samples of a `/proc/stat` text for the first `prev.len()`
/// CPUs, and their frequencies; `prev` becomes the counters for the next
/// sample.
fn sample_cores(
    prev: &mut Vec<(u64, u64)>,
    stat: &Option<String>,
    freqs: &Vec<Option<String>>,
) -> (cores: Vec<CoreSample>)
    requires
        stat_fits(text_or_empty(*stat), old(prev)@.len() as usize),
    ensures
        ({
            let slots = core_slots_of(lines(text_or_empty(*stat)), old(prev)@.len() as usize);
            &&& cores@.len() == old(prev)@.len()
            &&& forall|i: int|
                #![trigger cores@[i]]
                0 <= i < cores@.len() ==> {
                    &&& cores@[i].prev == old(prev)@[i]
                    &&& cores@[i].cur == slots[i]
                    &&& cores@[i].freq_mhz == core_freq_spec(freqs@, i)
                }
            &&& final(prev)@ == next_prev_cpu(old(prev)@, slots)
        }),
{
    let n = prev.len();
    let cs: Vec<char> = match stat {
        Some(t) => chars_of(t.as_str()),
        None => Vec::new(),
    };
    assert(cs@ =~= text_or_empty(*stat));
    let slots = core_slots(cs.as_slice(), n);
    proof {
        lemma_core_slots_len(lines(cs@), n);
    }
    let ghost old_prev = prev@;
    let mut cores: Vec<CoreSample> = Vec::new();
    let mut i: usize = 0;
    while i < n
        invariant
            n == old_prev.len(),
            prev@.len() == n,
            slots@.len() == n,
            slots@ == core_slots_of(lines(text_or_empty(*stat)), n),
            0 <= i <= n,
            cores@.len() == i,
            forall|k: int|
                #![trigger cores@[k]]
                0 <= k < i ==> {
                    &&& cores@[k].prev == old_prev[k]
                    &&& cores@[k].cur == slots@[k]
                    &&& cores@[k].freq_mhz == core_freq_spec(freqs@, k)
                },
            forall|k: int|
                0 <= k < n ==> #[trigger] prev@[k] == (if k < i {
                    match slots@[k] {
                        Some(c) => c,
                        None => old_prev[k],
                    }
                } else {
                    old_prev[k]
                }),
        decreases n - i,
    {
        let cur = slots[i];
        let p = prev[i];
        match cur {
            Some(c) => {
                prev.set(i, c);
            },
            None => {},
        }
        let freq_mhz: u64 = if i < freqs.len() {
            match opt_trimmed_u64(&freqs[i]) {
                Some(khz) => khz / 1000,
                None => 0,
            }
        } else {
            0
        };
        cores.push(CoreSample { prev: p, cur, freq_mhz });
        i += 1;
    }
    assert(prev@ =~= next_prev_cpu(old_prev, slots@));
    cores
}

// ---------------------------------------------------------------------------
// The sampler
// ---------------------------------------------------------------------------

/// What is read once, when the sampler starts.
pub struct SamplerSetup {
    /// `/sys/devices/system/cpu/online`.
    pub online: Option<String>,
    /// `sysconf(_SC_CLK_TCK)`.
    pub clk_tck: i64,
    /// `sysconf(_SC_PAGESIZE)`.
    pub page_size: i64,
    /// `/proc/cpuinfo`.
    pub cpuinfo: Option<String>,
    /// `cpu0/cpufreq/cpuinfo_max_freq`.
    pub max_freq: Option<String>,
    /// `cpufreq/boost`.
    pub boost: Option<String>,
    /// `intel_pstate/no_turbo`.
    pub no_turbo: Option<String>,
    /// The zones found under `/sys/class/powercap`.
    pub rapl_zones: Vec<RaplZone>,
    /// The entries of `/sys/class/thermal`.
    pub thermal_zones: Vec<ClassEntry>,
    /// The entries of `/sys/class/power_supply`.
    pub power_supplies: Vec<ClassEntry>,
}

/// What is read for each quick sample.
pub struct QuickReadings {
    /// `/proc/stat`.
    pub stat: Option<String>,
    /// `cpu<i>/cpufreq/scaling_cur_freq` for each CPU `i`.
    pub core_freqs: Vec<Option<String>>,
    /// `energy_uj` of the package zone.
    pub rapl_pkg_energy: Option<String>,
    /// `energy_uj` of the core zone.
    pub rapl_core_energy: Option<String>,
    /// `temp` of the CPU thermal zone.
    pub thermal_temp: Option<String>,
    pub battery: BatteryReadings,
    /// `/proc/meminfo`.
    pub meminfo: Option<String>,
    /// `/sys/block/zram0/mm_stat`.
    pub zram_mm_stat: Option<String>,
    /// `/proc/net/dev`.
    pub net_dev: Option<String>,
    /// What the filesystem says of the interfaces that have no label yet.
    pub iface_probes: Vec<IfaceProbe>,
}

/// A quick sample: CPU, battery, memory and network.
pub struct QuickSample {
    pub cores: Vec<CoreSample>,
    pub pkg_energy: Option<EnergySample>,
    pub core_energy: Option<EnergySample>,
    /// The CPU temperature in thousandths of a degree Celsius.
    pub temp_milli_c: Option<u64>,
    pub cpu_name: String,
    pub max_freq_mhz: u64,
    pub boost: Option<bool>,
    pub battery: Option<BatterySample>,
    pub mem: Memory,
    pub ifaces: Vec<IfaceSample>,
}

/// A sample of the process table.
pub struct ProcsSample {
    pub procs: Vec<ProcSample>,
    /// The total memory that resident sizes are measured against.
    pub total_kb: u64,
}

/// Samples the system, keeping what one sample needs of the previous one.
pub struct Sampler {
    ncores: usize,
    clk_tck: u64,
    page_size_kb: u64,
    cpu_name: String,
    cpu_max_freq_mhz: u64,
    cpu_boost: Option<bool>,
    prev_cpu: Vec<(u64, u64)>,
    rapl_pkg_path: Option<String>,
    rapl_pkg_max: u64,
    prev_rapl_pkg: u64,
    rapl_core_path: Option<String>,
    rapl_core_max: u64,
    prev_rapl_core: u64,
    cpu_thermal_zone: Option<String>,
    battery_name: Option<String>,
    prev_net: Vec<NetCounter>,
    prev_proc: HashMap<u32, u64>,
    total_kb: u64,
    iface_labels: Vec<IfaceLabel>,
}

/// The state of a sampler.
pub ghost struct SamplerState {
    pub ncores: usize,
    pub clk_tck: u64,
    pub page_size_kb: u64,
    pub cpu_name: Seq<char>,
    pub cpu_max_freq_mhz: u64,
    pub cpu_boost: Option<bool>,
    pub prev_cpu: Seq<(u64, u64)>,
    pub rapl_pkg_path: Option<Seq<char>>,
    pub rapl_pkg_max: u64,
    pub prev_rapl_pkg: u64,
    pub rapl_core_path: Option<Seq<char>>,
    pub rapl_core_max: u64,
    pub prev_rapl_core: u64,
    pub cpu_thermal_zone: Option<Seq<char>>,
    pub battery_name: Option<Seq<char>>,
    pub prev_net: Seq<(Seq<char>, u64, u64)>,
    pub prev_proc: Map<u32, u64>,
    pub total_kb: u64,
    pub iface_labels: Seq<(Seq<char>, Seq<char>)>,
}

impl View for Sampler {
    type V = SamplerState;

    closed spec fn view(&self) -> SamplerState {
        SamplerState {
            ncores: self.ncores,
            clk_tck: self.clk_tck,
            page_size_kb: self.page_size_kb,
            cpu_name: self.cpu_name@,
            cpu_max_freq_mhz: self.cpu_max_freq_mhz,
            cpu_boost: self.cpu_boost,
            prev_cpu: self.prev_cpu@,
            rapl_pkg_path: opt_chars(self.rapl_pkg_path),
            rapl_pkg_max: self.rapl_pkg_max,
            prev_rapl_pkg: self.prev_rapl_pkg,
            rapl_core_path: opt_chars(self.rapl_core_path),
            rapl_core_max: self.rapl_core_max,
            prev_rapl_core: self.prev_rapl_core,
            cpu_thermal_zone: opt_chars(self.cpu_thermal_zone),
            battery_name: opt_chars(self.battery_name),
            prev_net: counters_view(self.prev_net@),
            prev_proc: self.prev_proc@,
            total_kb: self.total_kb,
            iface_labels: labels_view(self.iface_labels@),
        }
    }
}

/// The maximum of a RAPL zone's counter, 0 when there is no zone or it
/// does not read.
pub open spec fn zone_max(zs: Seq<RaplZone>, i: int) -> u64 {
    if 0 <= i < zs.len() {
        match trimmed_u64(zs[i].max_energy_file) {
            Some(m) => m,
            None => 0,
        }
    } else {
        0
    }
}

/// The state of a new sampler.
pub open spec fn initial_state(setup: SamplerSetup) -> SamplerState {
    let zs = setup.rapl_zones@;
    let n = online_count_spec(opt_chars(setup.online)) as usize;
    SamplerState {
        ncores: n,
        clk_tck: if setup.clk_tck > 0 {
            setup.clk_tck as u64
        } else {
            100
        },
        page_size_kb: if setup.page_size > 0 {
            (setup.page_size as u64) / 1024
        } else {
            4
        },
        cpu_name: cpu_name_spec(opt_chars(setup.cpuinfo)),
        cpu_max_freq_mhz: max_freq_spec(setup.max_freq),
        cpu_boost: boost_spec(setup.boost, setup.no_turbo),
        prev_cpu: Seq::new(n as nat, |i: int| (0u64, 0u64)),
        rapl_pkg_path: zone_path(zs, package_zone(zs)),
        rapl_pkg_max: zone_max(zs, package_zone(zs)),
        prev_rapl_pkg: 0,
        rapl_core_path: zone_path(zs, core_zone(zs)),
        rapl_core_max: zone_max(zs, core_zone(zs)),
        prev_rapl_core: 0,
        cpu_thermal_zone: thermal_zone_path(setup.thermal_zones@),
        battery_name: battery_of(setup.power_supplies@),
        prev_net: seq![],
        prev_proc: Map::empty(),
        total_kb: 0,
        iface_labels: seq![],
    }
}

/// What a sample does not change: what the sampler learnt when it started.
pub open spec fn same_setup(a: SamplerState, b: SamplerState) -> bool {
    &&& a.ncores == b.ncores
    &&& a.clk_tck == b.clk_tck
    &&& a.page_size_kb == b.page_size_kb
    &&& a.cpu_name == b.cpu_name
    &&& a.cpu_max_freq_mhz == b.cpu_max_freq_mhz
    &&& a.cpu_boost == b.cpu_boost
    &&& a.rapl_pkg_path == b.rapl_pkg_path
    &&& a.rapl_pkg_max == b.rapl_pkg_max
    &&& a.rapl_core_path == b.rapl_core_path
    &&& a.rapl_core_max == b.rapl_core_max
    &&& a.cpu_thermal_zone == b.cpu_thermal_zone
    &&& a.battery_name == b.battery_name
}

/// What one reading of a RAPL counter makes of `prev`, and the sample
/// (see [`rapl_sample`]).
pub open spec fn rapl_next(prev: u64, contents: Option<String>, max: u64) -> (u64, Option<EnergySample>) {
    match trimmed_u64(contents) {
        None => (prev, None),
        Some(cur) => (
            cur,
            Some(
                if prev == 0 {
                    EnergySample::Start
                } else {
                    EnergySample::Span { prev, cur, max }
                },
            ),
        ),
    }
}

/// The total memory that a process sample measures resident sizes against:
/// the one the last quick sample read, or `meminfo`'s when there was none.
pub open spec fn procs_total(st: SamplerState, meminfo: Option<String>) -> u64 {
    if st.total_kb > 0 {
        st.total_kb
    } else {
        meminfo_spec(text_or_empty(meminfo)).0
    }
}

/// The total memory that a quick sample of `r` reads and keeps.
pub open spec fn quick_total(r: QuickReadings) -> u64 {
    memory_spec(text_or_empty(r.meminfo), r.zram_mm_stat).total_kb
}

/// The first quick sample of a new sampler draws no power and shows no
/// traffic: each CPU is compared with zero counters, a RAPL counter read
/// gives only a start (no span yet), and every interface's previous
/// counters are its current ones.
pub proof fn lemma_first_quick_sample_is_quiet(setup: SamplerSetup, r: QuickReadings)
    ensures
        ({
            let o = initial_state(setup);
            let es = net_entries(text_or_empty(r.net_dev));
            &&& forall|i: int| 0 <= i < o.ncores ==> #[trigger] o.prev_cpu[i] == (0u64, 0u64)
            &&& rapl_next(o.prev_rapl_pkg, r.rapl_pkg_energy, o.rapl_pkg_max).1 is None
                || rapl_next(o.prev_rapl_pkg, r.rapl_pkg_energy, o.rapl_pkg_max).1 == Some(
                EnergySample::Start,
            )
            &&& rapl_next(o.prev_rapl_core, r.rapl_core_energy, o.rapl_core_max).1 is None
                || rapl_next(o.prev_rapl_core, r.rapl_core_energy, o.rapl_core_max).1 == Some(
                EnergySample::Start,
            )
            &&& forall|k: int|
                0 <= k < es.len() ==> {
                    let v = #[trigger] iface_expected(o.prev_net, o.iface_labels, es, r.iface_probes@, k);
                    v.2 == v.3 && v.4 == v.5
                }
        }),
{
}

/// What is fixed when the sampler starts stays fixed, however many samples
/// follow: the CPU name, maximum frequency, boost, number of CPUs, RAPL
/// zones, thermal zone and battery are those of the start.
pub proof fn lemma_setup_is_fixed(a: SamplerState, b: SamplerState, c: SamplerState)
    requires
        same_setup(a, b),
        same_setup(b, c),
    ensures
        same_setup(a, c),
{
}

/// The first process sample of a new sampler has no history: no process
/// carries ticks from before, so none shows CPU use yet.
pub proof fn lemma_first_scan_has_no_history(setup: SamplerSetup, es: Seq<ProcEntry>, k: int)
    requires
        0 <= k < scan_spec(initial_state(setup).prev_proc, es, initial_state(setup).page_size_kb).len(),
    ensures
        scan_spec(initial_state(setup).prev_proc, es, initial_state(setup).page_size_kb)[k].3 is None,
{
    let o = initial_state(setup);
    crate::process::lemma_scan_prev_ticks(o.prev_proc, es, o.page_size_kb, k);
}

/// Memory shares are measured against the total that the last quick sample
/// read: after a quick sample that read a total above zero, a process
/// sample uses that total, whatever `/proc/meminfo` says then.
pub proof fn lemma_procs_use_last_quick_total(st: SamplerState, r: QuickReadings, meminfo: Option<String>)
    requires
        st.total_kb == quick_total(r),
        quick_total(r) > 0,
    ensures
        procs_total(st, meminfo) == quick_total(r),
{
}

fn clone_opt_string(o: &Option<String>) -> (r: Option<String>)
    ensures
        opt_chars(r) == opt_chars(*o),
{
    match o {
        Some(s) => Some(s.clone()),
        None => None,
    }
}

impl Sampler {
    /// The sampler's invariant: it keeps counters for each online CPU.
    pub open spec fn wf(&self) -> bool {
        self@.prev_cpu.len() == self@.ncores
    }

    /// A sampler for the machine that `setup` describes.
    pub fn new(setup: &SamplerSetup) -> (s: Sampler)
        requires
            setup.online matches Some(o) ==> online_fits(o@),
        ensures
            s.wf(),
            s@ == initial_state(*setup),
    {
        let (p, c) = rapl_choice(setup.rapl_zones.as_slice());
        let zs = &setup.rapl_zones;
        let (rapl_pkg_path, rapl_pkg_max) = if p < zs.len() {
            let m = match opt_trimmed_u64(&zs[p].max_energy_file) {
                Some(m) => m,
                None => 0,
            };
            (Some(zs[p].path.clone()), m)
        } else {
            (None, 0)
        };
        let (rapl_core_path, rapl_core_max) = if c < zs.len() {
            let m = match opt_trimmed_u64(&zs[c].max_energy_file) {
                Some(m) => m,
                None => 0,
            };
            (Some(zs[c].path.clone()), m)
        } else {
            (None, 0)
        };
        let ncores = online_count(
            match &setup.online {
                Some(s) => Some(s.as_str()),
                None => None,
            },
        );
        let clk_tck: u64 = if setup.clk_tck > 0 {
            setup.clk_tck as u64
        } else {
            100
        };
        let page_size_kb: u64 = if setup.page_size > 0 {
            (setup.page_size as u64) / 1024
        } else {
            4
        };
        let cpu_name = read_cpu_name(
            match &setup.cpuinfo {
                Some(s) => Some(s.as_str()),
                None => None,
            },
        );
        let mut prev_cpu: Vec<(u64, u64)> = Vec::new();
        let mut k: usize = 0;
        while k < ncores
            invariant
                0 <= k <= ncores,
                prev_cpu@.len() == k,
                forall|j: int| 0 <= j < k ==> prev_cpu@[j] == (0u64, 0u64),
            decreases ncores - k,
        {
            prev_cpu.push((0, 0));
            k += 1;
        }
        let s = Sampler {
            ncores,
            clk_tck,
            page_size_kb,
            cpu_name,
            cpu_max_freq_mhz: read_cpu_max_freq_mhz(&setup.max_freq),
            cpu_boost: read_cpu_boost(&setup.boost, &setup.no_turbo),
            prev_cpu,
            rapl_pkg_path,
            rapl_pkg_max,
            prev_rapl_pkg: 0,
            rapl_core_path,
            rapl_core_max,
            prev_rapl_core: 0,
            cpu_thermal_zone: discover_cpu_thermal_zone(setup.thermal_zones.as_slice()),
            battery_name: discover_battery(setup.power_supplies.as_slice()),
            prev_net: Vec::new(),
            prev_proc: HashMap::new(),
            total_kb: 0,
            iface_labels: Vec::new(),
        };
        assert(s@.prev_cpu =~= initial_state(*setup).prev_cpu);
        assert(s@.prev_net =~= seq![]);
        assert(s@.iface_labels =~= seq![]);
        s
    }

    /// The number of online CPUs.
    pub fn ncores(&self) -> (n: usize)
        ensures
            n == self@.ncores,
    {
        self.ncores
    }

    /// Clock ticks per second.
    pub fn clk_tck(&self) -> (t: u64)
        ensures
            t == self@.clk_tck,
    {
        self.clk_tck
    }

    /// The page size in kB.
    pub fn page_size_kb(&self) -> (p: u64)
        ensures
            p == self@.page_size_kb,
    {
        self.page_size_kb
    }

    /// The path of the RAPL package zone.
    pub fn rapl_pkg_path(&self) -> (p: Option<String>)
        ensures
            opt_chars(p) == self@.rapl_pkg_path,
    {
        clone_opt_string(&self.rapl_pkg_path)
    }

    /// The path of the RAPL core zone.
    pub fn rapl_core_path(&self) -> (p: Option<String>)
        ensures
            opt_chars(p) == self@.rapl_core_path,
    {
        clone_opt_string(&self.rapl_core_path)
    }

    /// The path of the CPU thermal zone.
    pub fn cpu_thermal_zone(&self) -> (p: Option<String>)
        ensures
            opt_chars(p) == self@.cpu_thermal_zone,
    {
        clone_opt_string(&self.cpu_thermal_zone)
    }

    /// The name of the battery.
    pub fn battery_name(&self) -> (p: Option<String>)
        ensures
            opt_chars(p) == self@.battery_name,
    {
        clone_opt_string(&self.battery_name)
    }

    /// The total memory that the last sample saw (0 before any).
    pub fn total_kb(&self) -> (t: u64)
        ensures
            t == self@.total_kb,
    {
        self.total_kb
    }

    /// The interfaces of a `/proc/net/dev` text that have no label yet,
    /// in order, and so need a probe before the next sample.
    pub fn ifaces_to_label(&self, net_dev: &Option<String>) -> (names: Vec<String>)
        ensures
            names@.map_values(|n: String| n@) == unlabeled_names(
                entry_names(net_entries(text_or_empty(*net_dev))),
                self@.iface_labels,
            ),
    {
        let mut labels: Vec<IfaceLabel> = Vec::new();
        let (samples, _cur) = read_net(self.prev_net.as_slice(), &mut labels, net_dev, &[]);
        let ghost es = net_entries(text_or_empty(*net_dev));
        let ghost ns = entry_names(es);
        let ghost lv = labels_view(self.iface_labels@);
        let mut names: Vec<String> = Vec::new();
        let mut k: usize = 0;
        assert(ns.take(0) =~= seq![]);
        assert(names@.map_values(|n: String| n@) =~= seq![]);
        while k < samples.len()
            invariant
                0 <= k <= samples@.len(),
                samples@.len() == es.len(),
                ns == entry_names(es),
                ns.len() == es.len(),
                lv == labels_view(self.iface_labels@),
                forall|i: int|
                    0 <= i < es.len() ==> (#[trigger] iface_view(samples@[i])).0 == es[i].0,
                names@.map_values(|n: String| n@) == unlabeled_names(ns.take(k as int), lv),
            decreases samples.len() - k,
        {
            let nm = chars_of(samples[k].name.as_str());
            assert(iface_view(samples@[k as int]).0 == es[k as int].0);
            assert(ns.take(k + 1).drop_last() =~= ns.take(k as int));
            assert(ns.take(k + 1).last() == es[k as int].0);
            let ghost before = names@.map_values(|n: String| n@);
            match label_lookup_exec(self.iface_labels.as_slice(), nm.as_slice()) {
                Some(_) => {},
                None => {
                    names.push(samples[k].name.clone());
                    assert(names@.map_values(|n: String| n@) =~= before.push(es[k as int].0));
                },
            }
            k += 1;
        }
        assert(ns.take(ns.len() as int) =~= ns);
        names
    }

    /// Whether [`Sampler::sample_quick`] may read `r` (see [`stat_fits`]
    /// and [`meminfo_fits`]).
    pub fn quick_fits(&self, r: &QuickReadings) -> (b: bool)
        ensures
            b == (stat_fits(text_or_empty(r.stat), self@.ncores) && meminfo_fits(
                text_or_empty(r.meminfo),
            )),
    {
        let stat_ok = match &r.stat {
            Some(t) => stat_fits_check(t.as_str(), self.ncores),
            None => {
                proof {
                    let e: Seq<char> = seq![];
                    assert(lines(e) =~= seq![]);
                }
                true
            },
        };
        stat_ok && meminfo_fits_check(&r.meminfo)
    }

    /// Takes a quick sample from `r`: per-CPU counters and frequencies,
    /// RAPL energy, CPU temperature, battery, memory and network. Each part
    /// is what its function gives; the counters, the total memory and the
    /// interface labels are kept for the next sample.
    pub fn sample_quick(&mut self, r: &QuickReadings) -> (q: QuickSample)
        requires
            old(self).wf(),
            stat_fits(text_or_empty(r.stat), old(self)@.ncores),
            meminfo_fits(text_or_empty(r.meminfo)),
        ensures
            final(self).wf(),
            same_setup(old(self)@, final(self)@),
            final(self)@.prev_proc == old(self)@.prev_proc,
            ({
                let o = old(self)@;
                let f = final(self)@;
                let slots = core_slots_of(lines(text_or_empty(r.stat)), o.ncores);
                let es = net_entries(text_or_empty(r.net_dev));
                &&& q.cores@.len() == o.ncores
                &&& forall|i: int|
                    #![trigger q.cores@[i]]
                    0 <= i < q.cores@.len() ==> {
                        &&& q.cores@[i].prev == o.prev_cpu[i]
                        &&& q.cores@[i].cur == slots[i]
                        &&& q.cores@[i].freq_mhz == core_freq_spec(r.core_freqs@, i)
                    }
                &&& f.prev_cpu == next_prev_cpu(o.prev_cpu, slots)
                &&& (f.prev_rapl_pkg, q.pkg_energy) == (if o.rapl_pkg_path is Some {
                    rapl_next(o.prev_rapl_pkg, r.rapl_pkg_energy, o.rapl_pkg_max)
                } else {
                    (o.prev_rapl_pkg, None)
                })
                &&& (f.prev_rapl_core, q.core_energy) == (if o.rapl_core_path is Some {
                    rapl_next(o.prev_rapl_core, r.rapl_core_energy, o.rapl_core_max)
                } else {
                    (o.prev_rapl_core, None)
                })
                &&& q.temp_milli_c == (if o.cpu_thermal_zone is Some {
                    trimmed_u64(r.thermal_temp)
                } else {
                    None
                })
                &&& q.cpu_name@ == o.cpu_name
                &&& q.max_freq_mhz == o.cpu_max_freq_mhz
                &&& q.boost == o.cpu_boost
                &&& match q.battery {
                    Some(b) => o.battery_name is Some && battery_present(r.battery)
                        && battery_sample_ok(b, r.battery),
                    None => o.battery_name is None || !battery_present(r.battery),
                }
                &&& q.mem == memory_spec(text_or_empty(r.meminfo), r.zram_mm_stat)
                &&& f.total_kb == quick_total(*r)
                &&& q.ifaces@.len() == es.len()
                &&& forall|k: int|
                    0 <= k < es.len() ==> #[trigger] iface_view(q.ifaces@[k]) == iface_expected(
                        o.prev_net,
                        o.iface_labels,
                        es,
                        r.iface_probes@,
                        k,
                    )
                &&& f.prev_net == es
                &&& f.iface_labels == labels_after(o.iface_labels, entry_names(es), r.iface_probes@)
            }),
    {
        let cores = sample_cores(&mut self.prev_cpu, &r.stat, &r.core_freqs);
        let pkg_energy = if self.rapl_pkg_path.is_some() {
            rapl_sample(&mut self.prev_rapl_pkg, &r.rapl_pkg_energy, self.rapl_pkg_max)
        } else {
            None
        };
        let core_energy = if self.rapl_core_path.is_some() {
            rapl_sample(&mut self.prev_rapl_core, &r.rapl_core_energy, self.rapl_core_max)
        } else {
            None
        };
        let temp_milli_c = if self.cpu_thermal_zone.is_some() {
            opt_trimmed_u64(&r.thermal_temp)
        } else {
            None
        };
        let battery = read_battery(&self.battery_name, &r.battery);
        let mem = read_memory(&r.meminfo, &r.zram_mm_stat);
        self.total_kb = mem.total_kb;
        let (ifaces, cur) = read_net(
            self.prev_net.as_slice(),
            &mut self.iface_labels,
            &r.net_dev,
            r.iface_probes.as_slice(),
        );
        self.prev_net = cur;
        QuickSample {
            cores,
            pkg_energy,
            core_energy,
            temp_milli_c,
            cpu_name: self.cpu_name.clone(),
            max_freq_mhz: self.cpu_max_freq_mhz,
            boost: self.cpu_boost,
            battery,
            mem,
            ifaces,
        }
    }

    /// Whether [`Sampler::sample_procs`] may scan `entries` (see
    /// [`scan_fits`]).
    pub fn procs_fit(&self, entries: Option<&[ProcEntry]>) -> (b: bool)
        ensures
            b == (match entries {
                Some(es) => scan_fits(es@, self@.page_size_kb),
                None => true,
            }),
    {
        match entries {
            None => true,
            Some(es) => crate::process::scan_fits_check(es, self.page_size_kb),
        }
    }

    /// Samples the process table from `entries` (see [`scan_processes`]).
    /// The total memory is that of the last sample, or read from `meminfo`
    /// when there was none yet.
    pub fn sample_procs(
        &mut self,
        meminfo: &Option<String>,
        entries: Option<&[ProcEntry]>,
    ) -> (p: ProcsSample)
        requires
            old(self).wf(),
            old(self)@.total_kb == 0 ==> meminfo_fits(text_or_empty(*meminfo)),
            entries matches Some(es) ==> scan_fits(es@, old(self)@.page_size_kb),
        ensures
            final(self).wf(),
            same_setup(old(self)@, final(self)@),
            final(self)@.prev_cpu == old(self)@.prev_cpu,
            final(self)@.prev_rapl_pkg == old(self)@.prev_rapl_pkg,
            final(self)@.prev_rapl_core == old(self)@.prev_rapl_core,
            final(self)@.prev_net == old(self)@.prev_net,
            final(self)@.iface_labels == old(self)@.iface_labels,
            p.total_kb == procs_total(old(self)@, *meminfo),
            final(self)@.total_kb == p.total_kb,
            match entries {
                None => p.procs@.len() == 0 && final(self)@.prev_proc == old(self)@.prev_proc,
                Some(es) => {
                    &&& sample_views(p.procs@) == scan_spec(
                        old(self)@.prev_proc,
                        es@,
                        old(self)@.page_size_kb,
                    )
                    &&& final(self)@.prev_proc == scan_prev(es@)
                },
            },
    {
        let total_kb = if self.total_kb > 0 {
            self.total_kb
        } else {
            let none: Option<String> = None;
            let t = read_memory(meminfo, &none).total_kb;
            self.total_kb = t;
            t
        };
        let procs = scan_processes(&mut self.prev_proc, entries, self.page_size_kb);
        ProcsSample { procs, total_kb }
    }
}

} // verus!
