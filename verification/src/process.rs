//! The process table: which `/proc` entries are processes, what each one's
//! `stat` and `statm` files say, the tick counts kept between two scans, and
//! the grouping of processes into apps by name.
use std::collections::HashMap;
use vstd::prelude::*;

use crate::read::{
    parse_proc_stat, parse_statm_rss, proc_stat_spec, statm_fits, statm_fits_check, statm_resident,
};
use crate::text::{all_digits, chars_of, is_digit_char, parse_u32, parse_u32_chars};

verus! {

broadcast use vstd::std_specs::hash::group_hash_axioms;

/// What was read for one process directory of `/proc`: the contents of its
/// `stat` and `statm` files, or `None` where a file could not be read.
pub struct ProcEntry {
    pub pid: u32,
    pub stat: Option<String>,
    pub statm: Option<String>,
}

/// One process of a scan. `ticks` is its user plus system time in clock
/// ticks; `prev_ticks` is what the previous scan recorded for the same pid,
/// if it saw it; `rss_kb` is its resident size (0 when `statm` was unreadable).
pub struct ProcSample {
    pub pid: u32,
    pub name: String,
    pub ticks: u64,
    pub prev_ticks: Option<u64>,
    pub rss_kb: u64,
}

/// The processes that share one name.
pub struct AppGroup {
    pub name: String,
    /// The sum of the members' resident sizes.
    pub rss_kb: u64,
    /// The number of members.
    pub proc_count: u32,
    /// The members' pids, in the order of the scan.
    pub pids: Vec<u32>,
    /// The members' positions in the scan, ascending.
    pub members: Vec<usize>,
}

// ---------------------------------------------------------------------------
// Directory names
// ---------------------------------------------------------------------------

/// The pid named by a `/proc` entry: a non-empty name of ASCII digits whose
/// value fits in a `u32`.
pub open spec fn pid_of_name(name: Seq<char>) -> Option<u32> {
    if name.len() > 0 && all_digits(name) {
        parse_u32(name)
    } else {
        None
    }
}

/// The pid that a `/proc` entry names, or `None` for entries that are no
/// process (`self`, `meminfo`, ...).
pub fn pid_from_dir_name(name: &str) -> (r: Option<u32>)
    ensures
        r == pid_of_name(name@),
{
    let cs = chars_of(name);
    if cs.len() == 0 {
        return None;
    }
    let mut i: usize = 0;
    while i < cs.len()
        invariant
            cs@ == name@,
            0 <= i <= cs@.len(),
            forall|k: int| 0 <= k < i ==> crate::text::is_digit(#[trigger] cs@[k]),
        decreases cs.len() - i,
    {
        if !is_digit_char(cs[i]) {
            assert(!crate::text::is_digit(name@[i as int]));
            return None;
        }
        i += 1;
    }
    parse_u32_chars(cs.as_slice())
}

// ---------------------------------------------------------------------------
// Scanning
// ---------------------------------------------------------------------------

/// `a + b`, or `u64::MAX` when that does not fit.
pub open spec fn sat_add(a: u64, b: u64) -> u64 {
    if a + b > u64::MAX {
        u64::MAX
    } else {
        (a + b) as u64
    }
}

/// What the entry's `stat` file says: `(name, utime, stime)`.
pub open spec fn entry_stat(e: ProcEntry) -> Option<(Seq<char>, u64, u64)> {
    match e.stat {
        Some(t) => proc_stat_spec(t@),
        None => None,
    }
}

/// The entry's resident size in kB, 0 when `statm` is unreadable or unparsable.
pub open spec fn entry_rss(e: ProcEntry, page_size_kb: u64) -> u64 {
    match e.statm {
        Some(t) => match statm_resident(t@) {
            Some(pages) => (pages * page_size_kb) as u64,
            None => 0,
        },
        None => 0,
    }
}

/// The entry's ticks: utime plus stime, saturating.
pub open spec fn entry_ticks(e: ProcEntry) -> u64 {
    match entry_stat(e) {
        Some(st) => sat_add(st.1, st.2),
        None => 0,
    }
}

/// A sample seen as plain values: `(pid, name, ticks, prev_ticks, rss_kb)`.
pub open spec fn sample_view(s: ProcSample) -> (u32, Seq<char>, u64, Option<u64>, u64) {
    (s.pid, s.name@, s.ticks, s.prev_ticks, s.rss_kb)
}

/// The samples of a scan of `es`: one for each entry whose `stat` reads, in
/// order; `prev` gives the ticks of the previous scan.
pub open spec fn scan_spec(prev: Map<u32, u64>, es: Seq<ProcEntry>, page_size_kb: u64) -> Seq<
    (u32, Seq<char>, u64, Option<u64>, u64),
>
    decreases es.len(),
{
    if es.len() == 0 {
        seq![]
    } else {
        let r = scan_spec(prev, es.drop_last(), page_size_kb);
        let e = es.last();
        match entry_stat(e) {
            Some(st) => r.push(
                (
                    e.pid,
                    st.0,
                    sat_add(st.1, st.2),
                    if prev.contains_key(e.pid) {
                        Some(prev[e.pid])
                    } else {
                        None
                    },
                    entry_rss(e, page_size_kb),
                ),
            ),
            None => r,
        }
    }
}

/// The ticks that a scan of `es` records for the next scan: those of the
/// entries whose `stat` reads, a later entry of the same pid winning.
pub open spec fn scan_prev(es: Seq<ProcEntry>) -> Map<u32, u64>
    decreases es.len(),
{
    if es.len() == 0 {
        Map::empty()
    } else {
        let m = scan_prev(es.drop_last());
        match entry_stat(es.last()) {
            Some(st) => m.insert(es.last().pid, sat_add(st.1, st.2)),
            None => m,
        }
    }
}

/// Every `statm` that the scan reads gives a resident size that fits in a
/// `u64` (otherwise the product overflows).
pub open spec fn scan_fits(es: Seq<ProcEntry>, page_size_kb: u64) -> bool {
    forall|i: int|
        0 <= i < es.len() && (#[trigger] entry_stat(es[i])) is Some ==> match es[i].statm {
            Some(t) => statm_fits(t@, page_size_kb),
            None => true,
        }
}

/// The pid of some entry of `es` whose `stat` reads.
pub open spec fn scanned_pid(es: Seq<ProcEntry>, pid: u32) -> bool {
    exists|i: int| 0 <= i < es.len() && es[i].pid == pid && (#[trigger] entry_stat(es[i])) is Some
}

/// After a scan, the recorded pids are exactly those that the scan saw: a
/// process that has gone leaves no ticks behind.
pub proof fn lemma_scan_keeps_only_live_pids(es: Seq<ProcEntry>, pid: u32)
    ensures
        scan_prev(es).contains_key(pid) <==> scanned_pid(es, pid),
    decreases es.len(),
{
    if es.len() > 0 {
        let d = es.drop_last();
        lemma_scan_keeps_only_live_pids(d, pid);
        if scanned_pid(d, pid) {
            let i = choose|i: int|
                0 <= i < d.len() && d[i].pid == pid && (#[trigger] entry_stat(d[i])) is Some;
            assert(es[i] == d[i]);
        }
        if scanned_pid(es, pid) && !scanned_pid(d, pid) {
            let i = choose|i: int|
                0 <= i < es.len() && es[i].pid == pid && (#[trigger] entry_stat(es[i])) is Some;
            if i < es.len() - 1 {
                assert(d[i] == es[i]);
            }
        }
        let last = es.len() - 1;
        if entry_stat(es[last]) is Some && es[last].pid == pid {
            assert(scanned_pid(es, pid));
        }
    }
}

pub(crate) proof fn lemma_scan_prev_ticks(prev: Map<u32, u64>, es: Seq<ProcEntry>, page_size_kb: u64, k: int)
    requires
        0 <= k < scan_spec(prev, es, page_size_kb).len(),
    ensures
        ({
            let s = scan_spec(prev, es, page_size_kb)[k];
            s.3 == (if prev.contains_key(s.0) {
                Some(prev[s.0])
            } else {
                None
            })
        }),
    decreases es.len(),
{
    if es.len() > 0 {
        let r = scan_spec(prev, es.drop_last(), page_size_kb);
        if k < r.len() {
            lemma_scan_prev_ticks(prev, es.drop_last(), page_size_kb, k);
        }
    }
}

/// Between two scans, a process starts the second with the ticks that the
/// first recorded for it when the first saw it, and with none when it did
/// not: a process's CPU share is measured from its own previous reading.
pub proof fn lemma_ticks_carry_over(
    before: Seq<ProcEntry>,
    now: Seq<ProcEntry>,
    page_size_kb: u64,
    k: int,
)
    requires
        0 <= k < scan_spec(scan_prev(before), now, page_size_kb).len(),
    ensures
        ({
            let s = scan_spec(scan_prev(before), now, page_size_kb)[k];
            &&& s.3 is Some <==> scanned_pid(before, s.0)
            &&& s.3 matches Some(t) ==> t == scan_prev(before)[s.0]
        }),
{
    let s = scan_spec(scan_prev(before), now, page_size_kb)[k];
    lemma_scan_prev_ticks(scan_prev(before), now, page_size_kb, k);
    lemma_scan_keeps_only_live_pids(before, s.0);
}

/// Scans the process directories of `/proc`. `entries` is `None` when
/// `/proc` itself could not be listed: then nothing is scanned and `prev`
/// is left as it was. Otherwise each entry whose `stat` reads gives a
/// sample, in order, and `prev` becomes the ticks of exactly those
/// processes, so a process that has gone is forgotten.
pub fn scan_processes(
    prev: &mut HashMap<u32, u64>,
    entries: Option<&[ProcEntry]>,
    page_size_kb: u64,
) -> (out: Vec<ProcSample>)
    requires
        entries matches Some(es) ==> scan_fits(es@, page_size_kb),
    ensures
        match entries {
            None => out@.len() == 0 && final(prev)@ == old(prev)@,
            Some(es) => {
                &&& sample_views(out@) == scan_spec(
                    old(prev)@,
                    es@,
                    page_size_kb,
                )
                &&& final(prev)@ == scan_prev(es@)
                &&& forall|pid: u32| #[trigger]
                    final(prev)@.contains_key(pid) <==> scanned_pid(es@, pid)
            },
        },
{
    let es = match entries {
        Some(es) => es,
        None => {
            return Vec::new();
        },
    };
    let mut next_prev: HashMap<u32, u64> = HashMap::new();
    let mut out: Vec<ProcSample> = Vec::new();
    let ghost old_prev = prev@;
    let mut i: usize = 0;
    assert(es@.take(0) =~= seq![]);
    assert(sample_views(out@) =~= seq![]);
    while i < es.len()
        invariant
            0 <= i <= es@.len(),
            prev@ == old_prev,
            scan_fits(es@, page_size_kb),
            sample_views(out@) == scan_spec(
                old_prev,
                es@.take(i as int),
                page_size_kb,
            ),
            next_prev@ == scan_prev(es@.take(i as int)),
        decreases es.len() - i,
    {
        let ghost before = sample_views(out@);
        assert(es@.take(i + 1).drop_last() =~= es@.take(i as int));
        assert(es@.take(i + 1).last() == es@[i as int]);
        let e = &es[i];
        let parsed = match &e.stat {
            Some(t) => parse_proc_stat(t.as_str()),
            None => None,
        };
        match parsed {
            Some((name, utime, stime)) => {
                let ticks = utime.saturating_add(stime);
                let prev_ticks = match prev.get(&e.pid) {
                    Some(p) => Some(*p),
                    None => None,
                };
                let rss_kb: u64 = match &e.statm {
                    Some(t) => {
                        assert(entry_stat(es@[i as int]) is Some);
                        match parse_statm_rss(t.as_str(), page_size_kb) {
                            Some(v) => v,
                            None => 0,
                        }
                    },
                    None => 0,
                };
                let s = ProcSample { pid: e.pid, name, ticks, prev_ticks, rss_kb };
                assert(sample_view(s) == scan_spec(
                    old_prev,
                    es@.take(i + 1),
                    page_size_kb,
                ).last());
                out.push(s);
                assert(sample_views(out@) =~= before.push(
                    sample_view(s),
                ));
                next_prev.insert(e.pid, ticks);
            },
            None => {},
        }
        i += 1;
    }
    assert(es@.take(es@.len() as int) =~= es@);
    *prev = next_prev;
    proof {
        assert forall|pid: u32| #[trigger]
            prev@.contains_key(pid) <==> scanned_pid(es@, pid) by {
            lemma_scan_keeps_only_live_pids(es@, pid);
        }
    }
    out
}

/// Whether [`scan_processes`] may scan `entries` (see [`scan_fits`]).
pub fn scan_fits_check(entries: &[ProcEntry], page_size_kb: u64) -> (b: bool)
    ensures
        b == scan_fits(entries@, page_size_kb),
{
    let mut i: usize = 0;
    while i < entries.len()
        invariant
            0 <= i <= entries@.len(),
            forall|k: int|
                0 <= k < i && (#[trigger] entry_stat(entries@[k])) is Some ==> match entries@[k].statm {
                    Some(t) => statm_fits(t@, page_size_kb),
                    None => true,
                },
        decreases entries.len() - i,
    {
        let e = &entries[i];
        let parsed = match &e.stat {
            Some(t) => parse_proc_stat(t.as_str()),
            None => None,
        };
        if parsed.is_some() {
            match &e.statm {
                Some(t) => {
                    if !statm_fits_check(t.as_str(), page_size_kb) {
                        assert(entry_stat(entries@[i as int]) is Some);
                        return false;
                    }
                },
                None => {},
            }
        }
        i += 1;
    }
    true
}

// ---------------------------------------------------------------------------
// Grouping into apps
// ---------------------------------------------------------------------------

/// The names of the samples, in order.
pub open spec fn proc_names(s: Seq<(u32, Seq<char>, u64, Option<u64>, u64)>) -> Seq<Seq<char>> {
    s.map_values(|p: (u32, Seq<char>, u64, Option<u64>, u64)| p.1)
}

/// The samples seen as plain values.
pub open spec fn sample_views(s: Seq<ProcSample>) -> Seq<(u32, Seq<char>, u64, Option<u64>, u64)> {
    s.map_values(|p: ProcSample| sample_view(p))
}

/// The distinct names of `s`, in the order of their first appearance.
pub open spec fn distinct_names(s: Seq<Seq<char>>) -> Seq<Seq<char>>
    decreases s.len(),
{
    if s.len() == 0 {
        seq![]
    } else {
        let d = distinct_names(s.drop_last());
        if d.contains(s.last()) {
            d
        } else {
            d.push(s.last())
        }
    }
}

/// The positions of the samples named `n`, ascending.
pub open spec fn group_members(s: Seq<(u32, Seq<char>, u64, Option<u64>, u64)>, n: Seq<char>) -> Seq<
    usize,
>
    decreases s.len(),
{
    if s.len() == 0 {
        seq![]
    } else {
        let m = group_members(s.drop_last(), n);
        if s.last().1 == n {
            m.push((s.len() - 1) as usize)
        } else {
            m
        }
    }
}

/// The pids of the samples named `n`, in order.
pub open spec fn group_pids(s: Seq<(u32, Seq<char>, u64, Option<u64>, u64)>, n: Seq<char>) -> Seq<
    u32,
>
    decreases s.len(),
{
    if s.len() == 0 {
        seq![]
    } else {
        let m = group_pids(s.drop_last(), n);
        if s.last().1 == n {
            m.push(s.last().0)
        } else {
            m
        }
    }
}

/// The sum of the resident sizes of the samples named `n`.
pub open spec fn group_rss(s: Seq<(u32, Seq<char>, u64, Option<u64>, u64)>, n: Seq<char>) -> int
    decreases s.len(),
{
    if s.len() == 0 {
        0
    } else {
        group_rss(s.drop_last(), n) + if s.last().1 == n {
            s.last().4 as int
        } else {
            0
        }
    }
}

/// Every group's count and resident sum fit their types (otherwise the
/// sums overflow).
pub open spec fn groups_fit(s: Seq<(u32, Seq<char>, u64, Option<u64>, u64)>) -> bool {
    forall|n: Seq<char>|
        #![trigger group_rss(s, n)]
        #![trigger group_members(s, n)]
        group_members(s, n).len() <= u32::MAX && group_rss(s, n) <= u64::MAX
}

proof fn lemma_group_prefix(s: Seq<(u32, Seq<char>, u64, Option<u64>, u64)>, k: int, n: Seq<char>)
    requires
        0 <= k <= s.len(),
    ensures
        group_members(s.take(k), n).len() <= group_members(s, n).len(),
        0 <= group_rss(s.take(k), n) <= group_rss(s, n),
    decreases s.len(),
{
    if k < s.len() {
        assert(s.drop_last().take(k) =~= s.take(k));
        lemma_group_prefix(s.drop_last(), k, n);
        lemma_group_rss_nonneg(s.drop_last(), n);
    } else {
        assert(s.take(k) =~= s);
        lemma_group_rss_nonneg(s, n);
    }
}

proof fn lemma_group_rss_nonneg(s: Seq<(u32, Seq<char>, u64, Option<u64>, u64)>, n: Seq<char>)
    ensures
        group_rss(s, n) >= 0,
    decreases s.len(),
{
    if s.len() > 0 {
        lemma_group_rss_nonneg(s.drop_last(), n);
    }
}

proof fn lemma_distinct_names(s: Seq<Seq<char>>)
    ensures
        forall|x: Seq<char>| distinct_names(s).contains(x) <==> s.contains(x),
        forall|a: int, b: int|
            0 <= a < b < distinct_names(s).len() ==> distinct_names(s)[a] != distinct_names(
                s,
            )[b],
    decreases s.len(),
{
    if s.len() > 0 {
        let d0 = s.drop_last();
        lemma_distinct_names(d0);
        let d = distinct_names(d0);
        let l = s.last();
        assert forall|x: Seq<char>| distinct_names(s).contains(x) <==> s.contains(x) by {
            if s.contains(x) {
                let i = choose|i: int| 0 <= i < s.len() && s[i] == x;
                if i < s.len() - 1 {
                    assert(d0[i] == x);
                    assert(d0.contains(x));
                    assert(d.contains(x));
                    if !d.contains(l) {
                        let k = choose|k: int| 0 <= k < d.len() && d[k] == x;
                        assert(d.push(l)[k] == x);
                    }
                } else {
                    assert(x == l);
                    if !d.contains(l) {
                        assert(d.push(l)[d.len() as int] == l);
                    }
                }
            }
            if distinct_names(s).contains(x) {
                if d.contains(l) {
                    assert(d.contains(x));
                    assert(d0.contains(x));
                    let i = choose|i: int| 0 <= i < d0.len() && d0[i] == x;
                    assert(s[i] == x);
                } else {
                    let k = choose|k: int| 0 <= k < d.push(l).len() && d.push(l)[k] == x;
                    if k < d.len() {
                        assert(d[k] == x);
                        assert(d.contains(x));
                        assert(d0.contains(x));
                        let i = choose|i: int| 0 <= i < d0.len() && d0[i] == x;
                        assert(s[i] == x);
                    } else {
                        assert(x == l);
                        assert(s[s.len() - 1] == x);
                    }
                }
            }
        }
        if !d.contains(l) {
            assert forall|a: int, b: int|
                0 <= a < b < distinct_names(s).len() implies distinct_names(s)[a]
                != distinct_names(s)[b] by {
                if b == d.len() {
                    assert(distinct_names(s)[a] == d[a]);
                    assert(distinct_names(s)[b] == l);
                } else {
                    assert(distinct_names(s)[a] == d[a]);
                    assert(distinct_names(s)[b] == d[b]);
                }
            }
        }
    }
}

/// `groups` are the apps of `procs`: one group for each distinct name, in
/// the order in which the names first appear; each group holds every
/// process of its name (positions and pids in scan order, their number, the
/// sum of their resident sizes); the names are distinct and every process
/// has its group.
pub open spec fn groups_ok(groups: Seq<AppGroup>, procs: Seq<ProcSample>) -> bool {
    &&& groups.map_values(|g: AppGroup| g.name@) == distinct_names(proc_names(sample_views(procs)))
    &&& forall|j: int|
        #![trigger groups[j]]
        0 <= j < groups.len() ==> {
            let g = groups[j];
            &&& g.members@ == group_members(sample_views(procs), g.name@)
            &&& g.pids@ == group_pids(sample_views(procs), g.name@)
            &&& g.rss_kb == group_rss(sample_views(procs), g.name@)
            &&& g.proc_count == group_members(sample_views(procs), g.name@).len()
        }
    &&& forall|a: int, b: int| 0 <= a < b < groups.len() ==> groups[a].name@ != groups[b].name@
    &&& forall|i: int|
        #![trigger procs[i]]
        0 <= i < procs.len() ==> exists|j: int|
            0 <= j < groups.len() && (#[trigger] groups[j]).name@ == procs[i].name@
}

/// Builds the group of the samples named `procs[first].name`.
fn collect_group(procs: &[ProcSample], first: usize) -> (g: AppGroup)
    requires
        first < procs@.len(),
        groups_fit(sample_views(procs@)),
    ensures
        g.name@ == procs@[first as int].name@,
        g.members@ == group_members(sample_views(procs@), g.name@),
        g.pids@ == group_pids(sample_views(procs@), g.name@),
        g.rss_kb == group_rss(sample_views(procs@), g.name@),
        g.proc_count == group_members(sample_views(procs@), g.name@).len(),
{
    let ghost sv = sample_views(procs@);
    let name = procs[first].name.clone();
    let ghost n = name@;
    let mut members: Vec<usize> = Vec::new();
    let mut pids: Vec<u32> = Vec::new();
    let mut rss: u64 = 0;
    let mut count: u32 = 0;
    let mut i: usize = 0;
    assert(sv.take(0) =~= seq![]);
    while i < procs.len()
        invariant
            0 <= i <= procs@.len(),
            sv == sample_views(procs@),
            sv.len() == procs@.len(),
            n == name@,
            groups_fit(sv),
            members@ == group_members(sv.take(i as int), n),
            pids@ == group_pids(sv.take(i as int), n),
            rss == group_rss(sv.take(i as int), n),
            count == members@.len(),
        decreases procs.len() - i,
    {
        let ghost t = sv.take(i + 1);
        assert(t.drop_last() =~= sv.take(i as int));
        assert(t.last() == sample_view(procs@[i as int]));
        if procs[i].name == name {
            proof {
                lemma_group_prefix(sv, i + 1, n);
                assert(group_members(sv, n).len() <= u32::MAX);
                assert(group_rss(sv, n) <= u64::MAX);
            }
            members.push(i);
            pids.push(procs[i].pid);
            rss = rss + procs[i].rss_kb;
            count = count + 1;
        }
        i += 1;
    }
    assert(sv.take(sv.len() as int) =~= sv);
    AppGroup { name, rss_kb: rss, proc_count: count, pids, members }
}

/// Groups processes by name into apps, in the order in which each name first
/// appears. Each group holds every process of its name: its members'
/// positions and pids in scan order, their number and the sum of their
/// resident sizes. The names of the groups are distinct, and every process
/// belongs to the group of its name.
pub fn group_processes(procs: &[ProcSample]) -> (groups: Vec<AppGroup>)
    requires
        groups_fit(sample_views(procs@)),
    ensures
        groups_ok(groups@, procs@),
{
    let ghost names = proc_names(sample_views(procs@));
    let mut groups: Vec<AppGroup> = Vec::new();
    let mut i: usize = 0;
    assert(names.take(0) =~= seq![]);
    assert(groups@.map_values(|g: AppGroup| g.name@) =~= seq![]);
    while i < procs.len()
        invariant
            0 <= i <= procs@.len(),
            names == proc_names(sample_views(procs@)),
            names.len() == procs@.len(),
            groups_fit(sample_views(procs@)),
            groups@.map_values(|g: AppGroup| g.name@) == distinct_names(names.take(i as int)),
            forall|j: int|
                #![trigger groups@[j]]
                0 <= j < groups@.len() ==> {
                    let g = groups@[j];
                    &&& g.members@ == group_members(sample_views(procs@), g.name@)
                    &&& g.pids@ == group_pids(sample_views(procs@), g.name@)
                    &&& g.rss_kb == group_rss(sample_views(procs@), g.name@)
                    &&& g.proc_count == group_members(sample_views(procs@), g.name@).len()
                },
        decreases procs.len() - i,
    {
        let ghost gn = groups@.map_values(|g: AppGroup| g.name@);
        assert(names.take(i + 1).drop_last() =~= names.take(i as int));
        assert(names.take(i + 1).last() == procs@[i as int].name@) by {
            assert(sample_views(procs@)[i as int] == sample_view(procs@[i as int]));
        }
        let mut found = false;
        let mut j: usize = 0;
        while j < groups.len()
            invariant
                0 <= j <= groups@.len(),
                gn == groups@.map_values(|g: AppGroup| g.name@),
                i < procs@.len(),
                found ==> gn.contains(procs@[i as int].name@),
                !found ==> forall|k: int| 0 <= k < j ==> gn[k] != procs@[i as int].name@,
            decreases groups.len() - j,
        {
            if groups[j].name == procs[i].name {
                assert(gn[j as int] == procs@[i as int].name@);
                found = true;
            }
            j += 1;
        }
        if !found {
            let g = collect_group(procs, i);
            groups.push(g);
            assert(groups@.map_values(|g: AppGroup| g.name@) =~= gn.push(procs@[i as int].name@));
        }
        i += 1;
    }
    assert(names.take(procs@.len() as int) =~= names);
    proof {
        lemma_distinct_names(names);
        let gn = groups@.map_values(|g: AppGroup| g.name@);
        assert forall|a: int, b: int|
            0 <= a < b < groups@.len() implies groups@[a].name@ != groups@[b].name@ by {
            assert(gn[a] == groups@[a].name@);
            assert(gn[b] == groups@[b].name@);
        }
        assert forall|i: int| #![trigger procs@[i]] 0 <= i < procs@.len() implies exists|j: int|
            0 <= j < groups@.len() && (#[trigger] groups@[j]).name@ == procs@[i].name@ by {
            assert(sample_views(procs@)[i] == sample_view(procs@[i]));
            assert(names[i] == procs@[i].name@);
            assert(names.contains(procs@[i].name@));
            assert(gn.contains(procs@[i].name@));
            let j = choose|j: int| 0 <= j < gn.len() && gn[j] == procs@[i].name@;
            assert(gn[j] == groups@[j].name@);
        }
    }
    groups
}

proof fn lemma_group_absent(s: Seq<(u32, Seq<char>, u64, Option<u64>, u64)>, n: Seq<char>)
    requires
        forall|i: int| 0 <= i < s.len() ==> (#[trigger] s[i]).1 != n,
    ensures
        group_members(s, n).len() == 0,
        group_rss(s, n) == 0,
    decreases s.len(),
{
    if s.len() > 0 {
        assert forall|i: int| 0 <= i < s.drop_last().len() implies (#[trigger] s.drop_last()[i]).1
            != n by {
            assert(s.drop_last()[i] == s[i]);
        }
        lemma_group_absent(s.drop_last(), n);
        assert(s[s.len() - 1].1 != n);
    }
}

/// Whether the group of the name of `procs[first]` fits its types.
fn group_within(procs: &[ProcSample], first: usize) -> (b: bool)
    requires
        first < procs@.len(),
    ensures
        b == (group_members(sample_views(procs@), procs@[first as int].name@).len() <= u32::MAX
            && group_rss(sample_views(procs@), procs@[first as int].name@) <= u64::MAX),
{
    let ghost sv = sample_views(procs@);
    let ghost n = procs@[first as int].name@;
    let mut count: u64 = 0;
    let mut rss: u64 = 0;
    let mut i: usize = 0;
    assert(sv.take(0) =~= seq![]);
    while i < procs.len()
        invariant
            0 <= i <= procs@.len(),
            first < procs@.len(),
            sv == sample_views(procs@),
            sv.len() == procs@.len(),
            n == procs@[first as int].name@,
            count == group_members(sv.take(i as int), n).len(),
            count <= i,
            rss == group_rss(sv.take(i as int), n),
        decreases procs.len() - i,
    {
        let ghost t = sv.take(i + 1);
        assert(t.drop_last() =~= sv.take(i as int));
        assert(t.last() == sample_view(procs@[i as int]));
        if procs[i].name == procs[first].name {
            if rss > u64::MAX - procs[i].rss_kb {
                proof {
                    lemma_group_prefix(sv, i + 1, n);
                }
                return false;
            }
            rss = rss + procs[i].rss_kb;
            count = count + 1;
        }
        i += 1;
    }
    assert(sv.take(sv.len() as int) =~= sv);
    count <= u32::MAX as u64
}

/// Whether grouping `procs` keeps every group's count and resident sum
/// within their types (see [`groups_fit`]).
pub fn groups_fit_check(procs: &[ProcSample]) -> (b: bool)
    ensures
        b == groups_fit(sample_views(procs@)),
{
    let ghost sv = sample_views(procs@);
    let mut i: usize = 0;
    while i < procs.len()
        invariant
            0 <= i <= procs@.len(),
            sv == sample_views(procs@),
            sv.len() == procs@.len(),
            forall|k: int|
                0 <= k < i ==> (group_members(sv, #[trigger] procs@[k].name@).len() <= u32::MAX
                    && group_rss(sv, procs@[k].name@) <= u64::MAX),
        decreases procs.len() - i,
    {
        if !group_within(procs, i) {
            return false;
        }
        i += 1;
    }
    assert forall|n: Seq<char>|
        #![trigger group_rss(sv, n)]
        #![trigger group_members(sv, n)]
        group_members(sv, n).len() <= u32::MAX && group_rss(sv, n) <= u64::MAX by {
        if exists|k: int| 0 <= k < procs@.len() && procs@[k].name@ == n {
            let k = choose|k: int| 0 <= k < procs@.len() && procs@[k].name@ == n;
            assert(group_members(sv, procs@[k].name@).len() <= u32::MAX);
        } else {
            assert forall|k: int| 0 <= k < sv.len() implies (#[trigger] sv[k]).1 != n by {
                assert(sv[k] == sample_view(procs@[k]));
            }
            lemma_group_absent(sv, n);
        }
    }
    true
}

// ---------------------------------------------------------------------------
// Every process is accounted for
// ---------------------------------------------------------------------------

/// The sum of the group sizes of the names `ns`.
pub open spec fn count_over(ns: Seq<Seq<char>>, s: Seq<(u32, Seq<char>, u64, Option<u64>, u64)>) -> int
    decreases ns.len(),
{
    if ns.len() == 0 {
        0
    } else {
        count_over(ns.drop_last(), s) + group_members(s, ns.last()).len()
    }
}

/// The sum of the group resident sizes of the names `ns`.
pub open spec fn rss_over(ns: Seq<Seq<char>>, s: Seq<(u32, Seq<char>, u64, Option<u64>, u64)>) -> int
    decreases ns.len(),
{
    if ns.len() == 0 {
        0
    } else {
        rss_over(ns.drop_last(), s) + group_rss(s, ns.last())
    }
}

/// The sum of the resident sizes of all samples.
pub open spec fn total_rss(s: Seq<(u32, Seq<char>, u64, Option<u64>, u64)>) -> int
    decreases s.len(),
{
    if s.len() == 0 {
        0
    } else {
        total_rss(s.drop_last()) + s.last().4
    }
}

/// The sum of the counts of the apps.
pub open spec fn apps_count(gs: Seq<AppGroup>) -> int
    decreases gs.len(),
{
    if gs.len() == 0 {
        0
    } else {
        apps_count(gs.drop_last()) + gs.last().proc_count
    }
}

/// The sum of the resident sizes of the apps.
pub open spec fn apps_rss(gs: Seq<AppGroup>) -> int
    decreases gs.len(),
{
    if gs.len() == 0 {
        0
    } else {
        apps_rss(gs.drop_last()) + gs.last().rss_kb
    }
}

proof fn lemma_over_other_name(
    ns: Seq<Seq<char>>,
    s: Seq<(u32, Seq<char>, u64, Option<u64>, u64)>,
    x: (u32, Seq<char>, u64, Option<u64>, u64),
)
    requires
        !ns.contains(x.1),
    ensures
        count_over(ns, s.push(x)) == count_over(ns, s),
        rss_over(ns, s.push(x)) == rss_over(ns, s),
    decreases ns.len(),
{
    if ns.len() > 0 {
        assert(s.push(x).drop_last() =~= s);
        if ns.drop_last().contains(x.1) {
            let i = choose|i: int| 0 <= i < ns.drop_last().len() && ns.drop_last()[i] == x.1;
            assert(ns[i] == x.1);
        }
        assert(ns[ns.len() - 1] != x.1);
        lemma_over_other_name(ns.drop_last(), s, x);
    }
}

proof fn lemma_over_own_name(
    ns: Seq<Seq<char>>,
    s: Seq<(u32, Seq<char>, u64, Option<u64>, u64)>,
    x: (u32, Seq<char>, u64, Option<u64>, u64),
)
    requires
        ns.contains(x.1),
        forall|a: int, b: int| 0 <= a < b < ns.len() ==> ns[a] != ns[b],
    ensures
        count_over(ns, s.push(x)) == count_over(ns, s) + 1,
        rss_over(ns, s.push(x)) == rss_over(ns, s) + x.4,
    decreases ns.len(),
{
    assert(s.push(x).drop_last() =~= s);
    let d = ns.drop_last();
    if ns.last() == x.1 {
        if d.contains(x.1) {
            let i = choose|i: int| 0 <= i < d.len() && d[i] == x.1;
            assert(ns[i] == ns[ns.len() - 1]);
        }
        lemma_over_other_name(d, s, x);
    } else {
        let i = choose|i: int| 0 <= i < ns.len() && ns[i] == x.1;
        assert(i < ns.len() - 1);
        assert(d[i] == x.1);
        assert forall|a: int, b: int| 0 <= a < b < d.len() implies d[a] != d[b] by {
            assert(d[a] == ns[a]);
            assert(d[b] == ns[b]);
        }
        lemma_over_own_name(d, s, x);
    }
}

proof fn lemma_totals(s: Seq<(u32, Seq<char>, u64, Option<u64>, u64)>)
    ensures
        count_over(distinct_names(proc_names(s)), s) == s.len(),
        rss_over(distinct_names(proc_names(s)), s) == total_rss(s),
    decreases s.len(),
{
    if s.len() > 0 {
        let t = s.drop_last();
        let x = s.last();
        assert(t.push(x) =~= s);
        assert(proc_names(s) =~= proc_names(t).push(x.1));
        assert(proc_names(s).drop_last() =~= proc_names(t));
        lemma_totals(t);
        lemma_distinct_names(proc_names(t));
        let dt = distinct_names(proc_names(t));
        if dt.contains(x.1) {
            lemma_over_own_name(dt, t, x);
        } else {
            lemma_over_other_name(dt, t, x);
            assert(dt.push(x.1).drop_last() =~= dt);
            assert forall|i: int| 0 <= i < t.len() implies (#[trigger] t[i]).1 != x.1 by {
                assert(proc_names(t)[i] == t[i].1);
                if t[i].1 == x.1 {
                    assert(proc_names(t).contains(x.1));
                }
            }
            lemma_group_absent(t, x.1);
        }
    }
}

proof fn lemma_apps_over(gs: Seq<AppGroup>, s: Seq<(u32, Seq<char>, u64, Option<u64>, u64)>)
    requires
        forall|j: int|
            #![trigger gs[j]]
            0 <= j < gs.len() ==> {
                &&& gs[j].rss_kb == group_rss(s, gs[j].name@)
                &&& gs[j].proc_count == group_members(s, gs[j].name@).len()
            },
    ensures
        apps_count(gs) == count_over(gs.map_values(|g: AppGroup| g.name@), s),
        apps_rss(gs) == rss_over(gs.map_values(|g: AppGroup| g.name@), s),
    decreases gs.len(),
{
    if gs.len() > 0 {
        let d = gs.drop_last();
        assert forall|j: int| #![trigger d[j]] 0 <= j < d.len() implies {
            &&& d[j].rss_kb == group_rss(s, d[j].name@)
            &&& d[j].proc_count == group_members(s, d[j].name@).len()
        } by {
            assert(d[j] == gs[j]);
        }
        lemma_apps_over(d, s);
        assert(gs.map_values(|g: AppGroup| g.name@).drop_last() =~= d.map_values(
            |g: AppGroup| g.name@,
        ));
        assert(gs[gs.len() - 1] == gs.last());
    }
}

/// The apps account for every process exactly once: their counts add up
/// to the number of processes, and their resident sizes to the processes'.
pub proof fn lemma_apps_account_for_every_process(groups: Seq<AppGroup>, procs: Seq<ProcSample>)
    requires
        groups_ok(groups, procs),
    ensures
        apps_count(groups) == procs.len(),
        apps_rss(groups) == total_rss(sample_views(procs)),
{
    let s = sample_views(procs);
    lemma_apps_over(groups, s);
    lemma_totals(s);
}

} // verus!
