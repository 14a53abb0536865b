//! Parsers for the kernel's text files: `/proc/meminfo`, the per-CPU lines of
//! `/proc/stat`, `/proc/<pid>/stat` and `/proc/<pid>/statm`, and the
//! wrap-around arithmetic of RAPL energy counters.
use vstd::prelude::*;

use crate::text::{
    chars_equal_str, chars_of, copy_range, parse_u64, parse_u64_chars, split_lines,
    split_ws, starts_with, starts_with_str, string_from_chars, tokens, lines, views,
};

verus! {

// ---------------------------------------------------------------------------
// /proc/meminfo
// ---------------------------------------------------------------------------

/// The first token of a line, or nothing.
pub open spec fn line_key(line: Seq<char>) -> Seq<char> {
    let t = tokens(line);
    if t.len() > 0 {
        t[0]
    } else {
        seq![]
    }
}

/// The second token of a line read as a `u64`, or 0 when it is missing or
/// is no number.
pub open spec fn line_value(line: Seq<char>) -> u64 {
    let t = tokens(line);
    if t.len() > 1 {
        match parse_u64(t[1]) {
            Some(v) => v,
            None => 0,
        }
    } else {
        0
    }
}

/// The position that a `/proc/meminfo` key fills in the result of
/// [`parse_meminfo`], if it is one of the nine keys read.
pub open spec fn meminfo_slot(key: Seq<char>) -> Option<int> {
    if key == "MemTotal:"@ {
        Some(0)
    } else if key == "MemFree:"@ {
        Some(1)
    } else if key == "MemAvailable:"@ {
        Some(2)
    } else if key == "Buffers:"@ {
        Some(3)
    } else if key == "Cached:"@ {
        Some(4)
    } else if key == "SwapTotal:"@ {
        Some(5)
    } else if key == "SwapFree:"@ {
        Some(6)
    } else if key == "Zswap:"@ {
        Some(7)
    } else if key == "Zswapped:"@ {
        Some(8)
    } else {
        None
    }
}

/// The nine values after reading the lines `ls` in order: each line whose key
/// is one of the nine sets that value, so the last such line wins; values
/// never set stay 0.
pub open spec fn meminfo_of_lines(ls: Seq<Seq<char>>) -> Seq<u64>
    decreases ls.len(),
{
    if ls.len() == 0 {
        Seq::new(9, |i: int| 0u64)
    } else {
        let acc = meminfo_of_lines(ls.drop_last());
        match meminfo_slot(line_key(ls.last())) {
            Some(k) => acc.update(k, line_value(ls.last())),
            None => acc,
        }
    }
}

/// `(MemTotal, MemFree, MemAvailable, Buffers, Cached, SwapTotal, SwapFree,
/// Zswap, Zswapped)` of a `/proc/meminfo` text, in kB.
pub open spec fn meminfo_spec(s: Seq<char>) -> (u64, u64, u64, u64, u64, u64, u64, u64, u64) {
    let v = meminfo_of_lines(lines(s));
    (v[0], v[1], v[2], v[3], v[4], v[5], v[6], v[7], v[8])
}

proof fn lemma_meminfo_len(ls: Seq<Seq<char>>)
    ensures
        meminfo_of_lines(ls).len() == 9,
    decreases ls.len(),
{
    if ls.len() > 0 {
        lemma_meminfo_len(ls.drop_last());
    }
}

fn meminfo_slot_of(key: &[char]) -> (r: Option<usize>)
    ensures
        match r {
            Some(k) => meminfo_slot(key@) == Some(k as int),
            None => meminfo_slot(key@) is None,
        },
{
    if chars_equal_str(key, "MemTotal:") {
        Some(0)
    } else if chars_equal_str(key, "MemFree:") {
        Some(1)
    } else if chars_equal_str(key, "MemAvailable:") {
        Some(2)
    } else if chars_equal_str(key, "Buffers:") {
        Some(3)
    } else if chars_equal_str(key, "Cached:") {
        Some(4)
    } else if chars_equal_str(key, "SwapTotal:") {
        Some(5)
    } else if chars_equal_str(key, "SwapFree:") {
        Some(6)
    } else if chars_equal_str(key, "Zswap:") {
        Some(7)
    } else if chars_equal_str(key, "Zswapped:") {
        Some(8)
    } else {
        None
    }
}

/// The slots of the nine keys.
pub(crate) proof fn lemma_meminfo_slot_values()
    ensures
        meminfo_slot("MemTotal:"@) == Some(0int),
        meminfo_slot("MemFree:"@) == Some(1int),
        meminfo_slot("MemAvailable:"@) == Some(2int),
        meminfo_slot("Buffers:"@) == Some(3int),
        meminfo_slot("Cached:"@) == Some(4int),
        meminfo_slot("SwapTotal:"@) == Some(5int),
        meminfo_slot("SwapFree:"@) == Some(6int),
{
    reveal_strlit("MemTotal:");
    reveal_strlit("MemFree:");
    reveal_strlit("MemAvailable:");
    reveal_strlit("Buffers:");
    reveal_strlit("Cached:");
    reveal_strlit("SwapTotal:");
    reveal_strlit("SwapFree:");
    assert("MemFree:"@[3] != "MemTotal:"@[3]);
    assert("MemAvailable:"@[3] != "MemTotal:"@[3]);
    assert("MemAvailable:"@[3] != "MemFree:"@[3]);
    assert("Buffers:"@[0] != "MemTotal:"@[0]);
    assert("Buffers:"@[0] != "MemFree:"@[0]);
    assert("Buffers:"@[0] != "MemAvailable:"@[0]);
    assert("Cached:"@[0] != "MemTotal:"@[0]);
    assert("Cached:"@[0] != "MemFree:"@[0]);
    assert("Cached:"@[0] != "MemAvailable:"@[0]);
    assert("Cached:"@[0] != "Buffers:"@[0]);
    assert("SwapTotal:"@[0] != "MemTotal:"@[0]);
    assert("SwapTotal:"@[0] != "MemFree:"@[0]);
    assert("SwapTotal:"@[0] != "MemAvailable:"@[0]);
    assert("SwapTotal:"@[0] != "Buffers:"@[0]);
    assert("SwapTotal:"@[0] != "Cached:"@[0]);
    assert("SwapFree:"@[0] != "MemTotal:"@[0]);
    assert("SwapFree:"@[0] != "MemFree:"@[0]);
    assert("SwapFree:"@[0] != "MemAvailable:"@[0]);
    assert("SwapFree:"@[0] != "Buffers:"@[0]);
    assert("SwapFree:"@[0] != "Cached:"@[0]);
    assert("SwapFree:"@[4] != "SwapTotal:"@[4]);
}

/// The value that the lines give a key of slot `k`: that of the last line
/// whose first token is the key, where that line carries a number.
pub(crate) proof fn lemma_meminfo_last_line_wins(ls: Seq<Seq<char>>, i: int, k: int)
    requires
        0 <= i < ls.len(),
        meminfo_slot(line_key(ls[i])) == Some(k),
        forall|j: int| i < j < ls.len() ==> #[trigger] line_key(ls[j]) != line_key(ls[i]),
    ensures
        meminfo_of_lines(ls)[k] == line_value(ls[i]),
    decreases ls.len(),
{
    lemma_meminfo_len(ls);
    if i < ls.len() - 1 {
        let d = ls.drop_last();
        assert forall|j: int| i < j < d.len() implies #[trigger] line_key(d[j]) != line_key(d[i]) by {
            assert(d[j] == ls[j]);
        }
        assert(d[i] == ls[i]);
        lemma_meminfo_last_line_wins(d, i, k);
        lemma_meminfo_len(d);
        assert(line_key(ls[ls.len() - 1]) != line_key(ls[i]));
        assert(ls.last() == ls[ls.len() - 1]);
    } else {
        assert(ls.last() == ls[i]);
        lemma_meminfo_len(ls.drop_last());
    }
}

/// A key that no line carries reads as 0.
pub(crate) proof fn lemma_meminfo_missing_key(ls: Seq<Seq<char>>, key: Seq<char>, k: int)
    requires
        meminfo_slot(key) == Some(k),
        forall|j: int| 0 <= j < ls.len() ==> #[trigger] line_key(ls[j]) != key,
    ensures
        meminfo_of_lines(ls)[k] == 0,
    decreases ls.len(),
{
    lemma_meminfo_len(ls);
    if ls.len() > 0 {
        let d = ls.drop_last();
        assert forall|j: int| 0 <= j < d.len() implies #[trigger] line_key(d[j]) != key by {
            assert(d[j] == ls[j]);
        }
        lemma_meminfo_missing_key(d, key, k);
        lemma_meminfo_len(d);
        assert(line_key(ls[ls.len() - 1]) != key);
        assert(ls.last() == ls[ls.len() - 1]);
    }
}

/// Reads `/proc/meminfo` text: `(MemTotal, MemFree, MemAvailable, Buffers,
/// Cached, SwapTotal, SwapFree, Zswap, Zswapped)` in kB. A key that is
/// missing reads as 0, as does a value that is no number; when a key occurs
/// twice, its last line wins.
pub fn parse_meminfo(s: &str) -> (r: (u64, u64, u64, u64, u64, u64, u64, u64, u64))
    ensures
        r == meminfo_spec(s@),
{
    let cs = chars_of(s);
    let ls = split_lines(cs.as_slice());
    let ghost lv = views(ls@);
    let mut acc: Vec<u64> = Vec::new();
    let mut k: usize = 0;
    while k < 9
        invariant
            0 <= k <= 9,
            acc@.len() == k,
            forall|j: int| 0 <= j < k ==> acc@[j] == 0,
        decreases 9 - k,
    {
        acc.push(0);
        k += 1;
    }
    assert(acc@ =~= meminfo_of_lines(lv.take(0)));
    let mut i: usize = 0;
    while i < ls.len()
        invariant
            lv == views(ls@),
            lv.len() == ls@.len(),
            0 <= i <= ls@.len(),
            acc@ == meminfo_of_lines(lv.take(i as int)),
        decreases ls.len() - i,
    {
        proof {
            lemma_meminfo_len(lv.take(i as int));
            assert(lv.take(i + 1).drop_last() =~= lv.take(i as int));
            assert(lv.take(i + 1).last() == ls@[i as int]@);
        }
        let toks = split_ws(ls[i].as_slice());
        proof {
            assert(views(toks@) == tokens(ls@[i as int]@));
        }
        let empty: Vec<char> = Vec::new();
        let key: &[char] = if toks.len() > 0 {
            assert(toks@[0]@ == views(toks@)[0]);
            toks[0].as_slice()
        } else {
            assert(empty@ =~= seq![]);
            empty.as_slice()
        };
        assert(key@ == line_key(ls@[i as int]@));
        match meminfo_slot_of(key) {
            Some(slot) => {
                let val: u64 = if toks.len() > 1 {
                    assert(toks@[1]@ == views(toks@)[1]);
                    match parse_u64_chars(toks[1].as_slice()) {
                        Some(v) => v,
                        None => 0,
                    }
                } else {
                    0
                };
                assert(val == line_value(ls@[i as int]@));
                acc.set(slot, val);
            },
            None => {},
        }
        i += 1;
    }
    assert(lv.take(ls@.len() as int) =~= lv);
    proof {
        lemma_meminfo_len(lv);
    }
    (acc[0], acc[1], acc[2], acc[3], acc[4], acc[5], acc[6], acc[7], acc[8])
}

// ---------------------------------------------------------------------------
// Per-CPU lines of /proc/stat
// ---------------------------------------------------------------------------

/// The tokens of `toks` that read as a `u64`, in order; the others are skipped.
pub open spec fn parsed_values(toks: Seq<Seq<char>>) -> Seq<u64>
    decreases toks.len(),
{
    if toks.len() == 0 {
        seq![]
    } else {
        let r = parsed_values(toks.drop_last());
        match parse_u64(toks.last()) {
            Some(v) => r.push(v),
            None => r,
        }
    }
}

/// The sum of a sequence of counters.
pub open spec fn sum_u64(s: Seq<u64>) -> int
    decreases s.len(),
{
    if s.len() == 0 {
        0
    } else {
        sum_u64(s.drop_last()) + s.last()
    }
}

/// The counters of a per-CPU line of `/proc/stat`: the line's first token
/// names one CPU (`cpu` followed by more, not the aggregate `cpu`), and at
/// least eight of the remaining tokens read as numbers.
pub open spec fn cpu_line_fields(line: Seq<char>) -> Option<Seq<u64>> {
    let t = tokens(line);
    if t.len() == 0 || t[0] == "cpu"@ || !starts_with(t[0], "cpu"@) {
        None
    } else {
        let vals = parsed_values(t.drop_first());
        if vals.len() < 8 {
            None
        } else {
            Some(vals)
        }
    }
}

/// The sum of a per-CPU line's counters fits in a `u64` (otherwise the sum
/// overflows).
pub open spec fn cpu_line_fits(line: Seq<char>) -> bool {
    match cpu_line_fields(line) {
        Some(v) => sum_u64(v) <= u64::MAX,
        None => true,
    }
}

/// `(busy, total)` ticks of a per-CPU line: `total` is the sum of its
/// counters, `busy` is `total` less idle (the 4th) and iowait (the 5th).
pub open spec fn cpu_line_spec(line: Seq<char>) -> Option<(u64, u64)> {
    match cpu_line_fields(line) {
        Some(v) => Some(((sum_u64(v) - v[3] - v[4]) as u64, sum_u64(v) as u64)),
        None => None,
    }
}

proof fn lemma_sum_nonneg(s: Seq<u64>)
    ensures
        sum_u64(s) >= 0,
    decreases s.len(),
{
    if s.len() > 0 {
        lemma_sum_nonneg(s.drop_last());
    }
}

proof fn lemma_sum_prefix_le(s: Seq<u64>, k: int)
    requires
        0 <= k <= s.len(),
    ensures
        sum_u64(s.take(k)) <= sum_u64(s),
    decreases s.len(),
{
    if k < s.len() {
        assert(s.drop_last().take(k) =~= s.take(k));
        lemma_sum_prefix_le(s.drop_last(), k);
    } else {
        assert(s.take(k) =~= s);
    }
}

proof fn lemma_sum_take_step(s: Seq<u64>, k: int)
    requires
        0 <= k < s.len(),
    ensures
        sum_u64(s.take(k + 1)) == sum_u64(s.take(k)) + s[k],
{
    assert(s.take(k + 1).drop_last() =~= s.take(k));
}

/// The counters of a per-CPU line (see [`cpu_line_fields`]).
fn cpu_line_values(cs: &[char]) -> (r: Option<Vec<u64>>)
    ensures
        match r {
            Some(v) => cpu_line_fields(cs@) == Some(v@),
            None => cpu_line_fields(cs@) is None,
        },
{
    let toks = split_ws(cs);
    let ghost tv = views(toks@);
    if toks.len() == 0 {
        return None;
    }
    assert(toks@[0]@ == tv[0]);
    if chars_equal_str(toks[0].as_slice(), "cpu") || !starts_with_str(toks[0].as_slice(), "cpu") {
        return None;
    }
    let mut vals: Vec<u64> = Vec::new();
    let mut i: usize = 1;
    assert(tv.subrange(1, 1) =~= seq![]);
    while i < toks.len()
        invariant
            tv == views(toks@),
            tv.len() == toks@.len(),
            1 <= i <= toks@.len(),
            vals@ == parsed_values(tv.subrange(1, i as int)),
        decreases toks.len() - i,
    {
        assert(tv.subrange(1, i + 1).drop_last() =~= tv.subrange(1, i as int));
        assert(tv.subrange(1, i + 1).last() == toks@[i as int]@);
        match parse_u64_chars(toks[i].as_slice()) {
            Some(v) => {
                vals.push(v);
            },
            None => {},
        }
        i += 1;
    }
    assert(tv.subrange(1, tv.len() as int) =~= tv.drop_first());
    if vals.len() < 8 {
        return None;
    }
    Some(vals)
}

/// Reads one line of `/proc/stat` as `(busy, total)` ticks. The aggregate
/// `cpu` line, lines of other kinds, and lines with fewer than eight numeric
/// fields give `None`.
pub fn parse_cpu_line(line: &str) -> (r: Option<(u64, u64)>)
    requires
        cpu_line_fits(line@),
    ensures
        r == cpu_line_spec(line@),
        r matches Some(p) ==> p.0 <= p.1,
{
    let cs = chars_of(line);
    parse_cpu_line_chars(cs.as_slice())
}

/// [`parse_cpu_line`] on the characters of a line.
pub fn parse_cpu_line_chars(line: &[char]) -> (r: Option<(u64, u64)>)
    requires
        cpu_line_fits(line@),
    ensures
        r == cpu_line_spec(line@),
        r matches Some(p) ==> p.0 <= p.1,
{
    let vals = match cpu_line_values(line) {
        Some(v) => v,
        None => {
            return None;
        },
    };
    let ghost v = vals@;
    let mut total: u64 = 0;
    let mut j: usize = 0;
    assert(v.take(0) =~= seq![]);
    while j < vals.len()
        invariant
            v == vals@,
            sum_u64(v) <= u64::MAX,
            0 <= j <= v.len(),
            total == sum_u64(v.take(j as int)),
        decreases vals.len() - j,
    {
        proof {
            lemma_sum_take_step(v, j as int);
            lemma_sum_prefix_le(v, j + 1);
        }
        total = total + vals[j];
        j += 1;
    }
    assert(v.take(v.len() as int) =~= v);
    proof {
        lemma_sum_take_step(v, 3);
        lemma_sum_take_step(v, 4);
        lemma_sum_nonneg(v.take(3));
        lemma_sum_prefix_le(v, 5);
    }
    let idle = vals[3];
    let iowait = vals[4];
    Some((total - idle - iowait, total))
}

/// Whether [`parse_cpu_line`] may be called on `line` (see [`cpu_line_fits`]).
pub fn cpu_line_fits_check(line: &[char]) -> (b: bool)
    ensures
        b == cpu_line_fits(line@),
{
    let vals = match cpu_line_values(line) {
        Some(v) => v,
        None => {
            return true;
        },
    };
    let ghost v = vals@;
    let mut total: u64 = 0;
    let mut j: usize = 0;
    assert(v.take(0) =~= seq![]);
    while j < vals.len()
        invariant
            v == vals@,
            cpu_line_fields(line@) == Some(v),
            0 <= j <= v.len(),
            total == sum_u64(v.take(j as int)),
        decreases vals.len() - j,
    {
        proof {
            lemma_sum_take_step(v, j as int);
        }
        if total > u64::MAX - vals[j] {
            proof {
                lemma_sum_prefix_le(v, j + 1);
                assert(sum_u64(v.take(j + 1)) == total + v[j as int]);
                assert(sum_u64(v) > u64::MAX);
                assert(cpu_line_fields(line@) == Some(v));
            }
            return false;
        }
        total = total + vals[j];
        j += 1;
    }
    assert(v.take(v.len() as int) =~= v);
    true
}

/// The aggregate `cpu` line of `/proc/stat` never reads as one CPU's counters.
pub proof fn lemma_aggregate_cpu_line_rejected(line: Seq<char>)
    requires
        tokens(line).len() > 0,
        tokens(line)[0] == "cpu"@,
    ensures
        cpu_line_spec(line) is None,
{
}

/// A line that does not begin with a token starting `cpu` never reads as a
/// CPU's counters.
pub proof fn lemma_other_lines_rejected(line: Seq<char>)
    requires
        tokens(line).len() == 0 || !starts_with(tokens(line)[0], "cpu"@),
    ensures
        cpu_line_spec(line) is None,
{
}

/// The ticks of a CPU split into busy, idle and iowait: `total` is the sum of
/// all counters, and `busy + idle + iowait == total`.
pub proof fn lemma_cpu_ticks_split(line: Seq<char>)
    requires
        cpu_line_fits(line),
        cpu_line_spec(line) is Some,
    ensures
        ({
            let v = cpu_line_fields(line)->0;
            let (busy, total) = cpu_line_spec(line)->0;
            &&& total == sum_u64(v)
            &&& busy + v[3] + v[4] == total
        }),
{
    let v = cpu_line_fields(line)->0;
    lemma_sum_take_step(v, 3);
    lemma_sum_take_step(v, 4);
    lemma_sum_nonneg(v.take(3));
    lemma_sum_prefix_le(v, 5);
}

/// Every per-CPU line reads, whatever the CPU's number: a line whose first
/// token is `cpu` followed by at least one more character (`cpu0`, `cpu12`,
/// `cpu127`) and that carries at least eight numbers gives `(busy, total)`,
/// where `total` is the sum of its numbers and `busy` leaves out the 4th
/// (idle) and 5th (iowait).
pub proof fn lemma_every_cpu_line_reads(line: Seq<char>)
    requires
        tokens(line).len() > 0,
        tokens(line)[0].len() > 3,
        tokens(line)[0].take(3) == "cpu"@,
        parsed_values(tokens(line).drop_first()).len() >= 8,
    ensures
        ({
            let v = parsed_values(tokens(line).drop_first());
            cpu_line_spec(line) == Some(((sum_u64(v) - v[3] - v[4]) as u64, sum_u64(v) as u64))
        }),
{
    reveal_strlit("cpu");
    let t0 = tokens(line)[0];
    assert(t0 != "cpu"@);
    assert(starts_with(t0, "cpu"@));
}

/// A per-CPU line with fewer than eight numbers gives nothing.
pub proof fn lemma_short_cpu_line_rejected(line: Seq<char>)
    requires
        tokens(line).len() > 0,
        parsed_values(tokens(line).drop_first()).len() < 8,
    ensures
        cpu_line_spec(line) is None,
{
}

// ---------------------------------------------------------------------------
// /proc/<pid>/stat and /proc/<pid>/statm
// ---------------------------------------------------------------------------

/// The position of the first `c` in `s`, or `s.len()` when there is none.
pub open spec fn first_index(s: Seq<char>, c: char) -> int
    decreases s.len(),
{
    if s.len() == 0 {
        0
    } else if s[0] == c {
        0
    } else {
        1 + first_index(s.drop_first(), c)
    }
}

/// The position of the last `c` in `s`, or -1 when there is none.
pub open spec fn last_index(s: Seq<char>, c: char) -> int
    decreases s.len(),
{
    if s.len() == 0 {
        -1
    } else if s.last() == c {
        s.len() - 1
    } else {
        last_index(s.drop_last(), c)
    }
}

/// `(name, utime, stime)` of a `/proc/<pid>/stat` line. The name lies
/// between the first `(` and the last `)`, so it may hold spaces and
/// parentheses; utime and stime are the 12th and 13th tokens after the `)`.
pub open spec fn proc_stat_spec(line: Seq<char>) -> Option<(Seq<char>, u64, u64)> {
    let o = first_index(line, '(');
    let c = last_index(line, ')');
    if o >= line.len() || c < 0 || c <= o {
        None
    } else {
        let rest = tokens(line.skip(c + 1));
        if rest.len() < 13 {
            None
        } else {
            match (parse_u64(rest[11]), parse_u64(rest[12])) {
                (Some(u), Some(st)) => Some((line.subrange(o + 1, c), u, st)),
                _ => None,
            }
        }
    }
}

pub(crate) proof fn lemma_first_index_at(s: Seq<char>, c: char, o: int)
    requires
        0 <= o < s.len(),
        s[o] == c,
        forall|k: int| 0 <= k < o ==> s[k] != c,
    ensures
        first_index(s, c) == o,
    decreases s.len(),
{
    if o > 0 {
        assert(s[0] != c);
        assert forall|k: int| 0 <= k < o - 1 implies s.drop_first()[k] != c by {
            assert(s.drop_first()[k] == s[k + 1]);
        }
        lemma_first_index_at(s.drop_first(), c, o - 1);
    }
}

proof fn lemma_last_index_at(s: Seq<char>, c: char, p: int)
    requires
        0 <= p < s.len(),
        s[p] == c,
        forall|k: int| p < k < s.len() ==> s[k] != c,
    ensures
        last_index(s, c) == p,
    decreases s.len(),
{
    if p < s.len() - 1 {
        assert(s.last() == s[s.len() - 1]);
        assert forall|k: int| p < k < s.drop_last().len() implies s.drop_last()[k] != c by {
            assert(s.drop_last()[k] == s[k]);
        }
        lemma_last_index_at(s.drop_last(), c, p);
    } else {
        assert(s.last() == s[p]);
    }
}

/// The name of a process is what lies between the first `(` and the last
/// `)` of its `stat` line, however many parentheses and spaces the name
/// itself holds, and utime and stime are the 12th and 13th fields after
/// that `)`.
pub proof fn lemma_proc_stat_name_between_outer_parens(
    line: Seq<char>,
    o: int,
    c: int,
    utime: u64,
    stime: u64,
)
    requires
        0 <= o < c < line.len(),
        line[o] == '(',
        forall|k: int| 0 <= k < o ==> line[k] != '(',
        line[c] == ')',
        forall|k: int| c < k < line.len() ==> line[k] != ')',
        tokens(line.skip(c + 1)).len() >= 13,
        parse_u64(tokens(line.skip(c + 1))[11]) == Some(utime),
        parse_u64(tokens(line.skip(c + 1))[12]) == Some(stime),
    ensures
        proc_stat_spec(line) == Some((line.subrange(o + 1, c), utime, stime)),
{
    lemma_first_index_at(line, '(', o);
    lemma_last_index_at(line, ')', c);
}

/// A `stat` line with no `(`, or with no `)` after its first `(`, gives
/// nothing.
pub proof fn lemma_proc_stat_needs_parens(line: Seq<char>)
    requires
        forall|k: int| 0 <= k < line.len() ==> line[k] != '(' || (forall|j: int|
            k < j < line.len() ==> line[j] != ')'),
    ensures
        proc_stat_spec(line) is None,
{
    lemma_first_index_bound(line, '(');
    lemma_last_index_bound(line, ')');
    let o = first_index(line, '(');
    let c = last_index(line, ')');
    if o < line.len() && c >= 0 && c > o {
        assert(line[o] == '(');
        assert(line[c] == ')');
        assert(o < c < line.len());
    }
}

pub(crate) proof fn lemma_first_index_bound(s: Seq<char>, c: char)
    ensures
        0 <= first_index(s, c) <= s.len(),
        first_index(s, c) < s.len() ==> s[first_index(s, c)] == c,
    decreases s.len(),
{
    if s.len() > 0 && s[0] != c {
        lemma_first_index_bound(s.drop_first(), c);
    }
}

proof fn lemma_last_index_bound(s: Seq<char>, c: char)
    ensures
        -1 <= last_index(s, c) < s.len(),
        last_index(s, c) >= 0 ==> s[last_index(s, c)] == c,
    decreases s.len(),
{
    if s.len() > 0 && s.last() != c {
        lemma_last_index_bound(s.drop_last(), c);
    }
}

pub fn find_first(s: &[char], c: char) -> (r: usize)
    ensures
        r == first_index(s@, c),
        r <= s@.len(),
        r < s@.len() ==> s@[r as int] == c,
{
    let n = s.len();
    let mut i: usize = 0;
    assert(s@.skip(0) =~= s@);
    while i < n && s[i] != c
        invariant
            n == s@.len(),
            0 <= i <= n,
            first_index(s@, c) == i + first_index(s@.skip(i as int), c),
        decreases n - i,
    {
        assert(s@.skip(i as int).drop_first() =~= s@.skip(i + 1));
        i += 1;
    }
    i
}

fn find_last(s: &[char], c: char) -> (r: Option<usize>)
    ensures
        match r {
            Some(k) => last_index(s@, c) == k && k < s@.len() && s@[k as int] == c,
            None => last_index(s@, c) == -1,
        },
{
    let mut j: usize = s.len();
    assert(s@.take(j as int) =~= s@);
    while j > 0 && s[j - 1] != c
        invariant
            j <= s@.len(),
            last_index(s@, c) == last_index(s@.take(j as int), c),
        decreases j,
    {
        assert(s@.take(j as int).drop_last() =~= s@.take(j - 1));
        j -= 1;
    }
    if j == 0 {
        assert(s@.take(0) =~= seq![]);
        None
    } else {
        Some(j - 1)
    }
}

/// Reads a `/proc/<pid>/stat` line as `(name, utime, stime)`. The name is
/// what lies between the first `(` and the last `)`; the line is refused
/// when either is missing, when they are out of order, when fewer than 13
/// tokens follow the `)`, or when utime or stime is no number.
pub fn parse_proc_stat(line: &str) -> (r: Option<(String, u64, u64)>)
    ensures
        match r {
            Some((name, u, st)) => proc_stat_spec(line@) == Some((name@, u, st)),
            None => proc_stat_spec(line@) is None,
        },
{
    let cs = chars_of(line);
    let open = find_first(cs.as_slice(), '(');
    if open >= cs.len() {
        return None;
    }
    let close = match find_last(cs.as_slice(), ')') {
        Some(c) => c,
        None => {
            return None;
        },
    };
    if close <= open {
        return None;
    }
    let tail = copy_range(cs.as_slice(), close + 1, cs.len());
    assert(tail@ =~= line@.skip(close + 1));
    let rest = split_ws(tail.as_slice());
    if rest.len() < 13 {
        return None;
    }
    assert(rest@[11]@ == views(rest@)[11]);
    assert(rest@[12]@ == views(rest@)[12]);
    let utime = match parse_u64_chars(rest[11].as_slice()) {
        Some(v) => v,
        None => {
            return None;
        },
    };
    let stime = match parse_u64_chars(rest[12].as_slice()) {
        Some(v) => v,
        None => {
            return None;
        },
    };
    let name_chars = copy_range(cs.as_slice(), open + 1, close);
    let name = string_from_chars(name_chars.as_slice());
    Some((name, utime, stime))
}

/// The resident pages of a `/proc/<pid>/statm` line: its second token.
pub open spec fn statm_resident(line: Seq<char>) -> Option<u64> {
    let t = tokens(line);
    if t.len() < 2 {
        None
    } else {
        parse_u64(t[1])
    }
}

/// The resident size is the second field of `statm`, whatever the others
/// hold: when that field is a number `p`, the resident pages are `p`.
pub proof fn lemma_statm_resident_is_second_field(line: Seq<char>, p: u64)
    requires
        tokens(line).len() >= 2,
        parse_u64(tokens(line)[1]) == Some(p),
    ensures
        statm_resident(line) == Some(p),
{
}

/// Two `statm` lines with the same second field give the same resident
/// pages: the size, shared and text fields play no part.
pub proof fn lemma_statm_ignores_other_fields(a: Seq<char>, b: Seq<char>)
    requires
        tokens(a).len() >= 2,
        tokens(b).len() >= 2,
        tokens(a)[1] == tokens(b)[1],
    ensures
        statm_resident(a) == statm_resident(b),
{
}

/// The resident size in kB fits in a `u64` (otherwise the product overflows).
pub open spec fn statm_fits(line: Seq<char>, page_size_kb: u64) -> bool {
    match statm_resident(line) {
        Some(pages) => pages * page_size_kb <= u64::MAX,
        None => true,
    }
}

/// Reads a `/proc/<pid>/statm` line as the resident size in kB: its second
/// token (resident pages) times the page size.
pub fn parse_statm_rss(line: &str, page_size_kb: u64) -> (r: Option<u64>)
    requires
        statm_fits(line@, page_size_kb),
    ensures
        r == (match statm_resident(line@) {
            Some(pages) => Some((pages * page_size_kb) as u64),
            None => None::<u64>,
        }),
{
    let cs = chars_of(line);
    let toks = split_ws(cs.as_slice());
    if toks.len() < 2 {
        return None;
    }
    assert(toks@[1]@ == views(toks@)[1]);
    match parse_u64_chars(toks[1].as_slice()) {
        Some(pages) => Some(pages * page_size_kb),
        None => None,
    }
}

/// Whether [`parse_statm_rss`] may be called on `line` (see [`statm_fits`]).
pub fn statm_fits_check(line: &str, page_size_kb: u64) -> (b: bool)
    ensures
        b == statm_fits(line@, page_size_kb),
{
    let cs = chars_of(line);
    let toks = split_ws(cs.as_slice());
    if toks.len() < 2 {
        return true;
    }
    assert(toks@[1]@ == views(toks@)[1]);
    match parse_u64_chars(toks[1].as_slice()) {
        Some(pages) => pages.checked_mul(page_size_kb).is_some(),
        None => true,
    }
}

// ---------------------------------------------------------------------------
// RAPL energy counters
// ---------------------------------------------------------------------------

/// The energy used between two readings of a RAPL counter that counts up to
/// `max` and then starts again from 0.
pub open spec fn rapl_delta_spec(prev: u64, cur: u64, max: u64) -> int {
    if cur < prev {
        cur + max - prev
    } else {
        cur - prev
    }
}

/// The computation of [`rapl_energy_delta`] stays within a `u64`.
pub open spec fn rapl_delta_fits(prev: u64, cur: u64, max: u64) -> bool {
    cur < prev ==> (cur + max <= u64::MAX && cur + max >= prev)
}

/// The energy in µJ between two readings `prev` and `cur` of a RAPL counter
/// whose range is `max`: when the counter went back (it wrapped), the
/// distance goes through `max`.
pub fn rapl_energy_delta(prev: u64, cur: u64, max: u64) -> (d: u64)
    requires
        rapl_delta_fits(prev, cur, max),
    ensures
        d == rapl_delta_spec(prev, cur, max),
        cur >= prev ==> d == cur - prev,
{
    if cur < prev {
        cur + max - prev
    } else {
        cur - prev
    }
}

} // verus!
