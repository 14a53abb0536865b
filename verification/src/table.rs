//! The rules of the apps and processes tables that do not depend on the
//! widgets: which rows the search keeps, and which rows leave the table.
use vstd::prelude::*;

use crate::text::{chars_of, contains, contains_chars, same_chars};

verus! {

// ---------------------------------------------------------------------------
// Search
// ---------------------------------------------------------------------------

/// The lowercase form of a text under Unicode's case mapping, as
/// `str::to_lowercase` gives it.
pub uninterp spec fn lowercase(s: Seq<char>) -> Seq<char>;

/// `str::to_lowercase`: the text in lowercase. Its result depends on the
/// text alone, and is named [`lowercase`]; nothing more of it is stated.
#[verifier::external_body]
fn lowercase_string(s: &str) -> (r: String)
    ensures
        r@ == lowercase(s@),
{
    s.to_lowercase()
}

/// The ASCII digit for `d < 10`.
pub open spec fn digit_char(d: nat) -> char {
    ((d + 0x30) as u32) as char
}

/// The decimal digits of `n`, as `to_string` writes an unsigned number.
pub open spec fn decimal(n: nat) -> Seq<char>
    decreases n,
{
    if n < 10 {
        seq![digit_char(n)]
    } else {
        decimal(n / 10).push(digit_char(n % 10))
    }
}

fn digit_char_exec(d: u32) -> (c: char)
    requires
        d < 10,
    ensures
        c == digit_char(d as nat),
{
    if d == 0 {
        '0'
    } else if d == 1 {
        '1'
    } else if d == 2 {
        '2'
    } else if d == 3 {
        '3'
    } else if d == 4 {
        '4'
    } else if d == 5 {
        '5'
    } else if d == 6 {
        '6'
    } else if d == 7 {
        '7'
    } else if d == 8 {
        '8'
    } else {
        '9'
    }
}

/// The decimal digits of `n` (see [`decimal`]).
pub fn decimal_chars(n: u32) -> (r: Vec<char>)
    ensures
        r@ == decimal(n as nat),
    decreases n,
{
    if n < 10 {
        let mut v: Vec<char> = Vec::new();
        v.push(digit_char_exec(n));
        assert(v@ =~= seq![digit_char(n as nat)]);
        v
    } else {
        let mut v = decimal_chars(n / 10);
        v.push(digit_char_exec(n % 10));
        v
    }
}

/// An app row stays in view under the search `query`: the query is empty,
/// or the app's name contains it, both in lowercase.
pub open spec fn app_matches_spec(name: Seq<char>, query: Seq<char>) -> bool {
    query.len() == 0 || contains(lowercase(name), lowercase(query))
}

/// A process row stays in view under the search `query`: the query is
/// empty, or the lowercase name or the pid's digits contain the lowercase
/// query.
pub open spec fn proc_matches_spec(name: Seq<char>, pid: u32, query: Seq<char>) -> bool {
    query.len() == 0 || contains(lowercase(name), lowercase(query)) || contains(
        decimal(pid as nat),
        lowercase(query),
    )
}

/// The apps search keeps a row exactly when the query is empty or, in
/// lowercase, the query occurs somewhere in the name: at its start, in its
/// middle or at its end (`fox` finds `Firefox`).
pub proof fn lemma_app_search_finds_anywhere(name: Seq<char>, query: Seq<char>)
    ensures
        app_matches_spec(name, query) <==> (query.len() == 0 || exists|i: int|
            0 <= i && i + lowercase(query).len() <= lowercase(name).len() && #[trigger] lowercase(
                name,
            ).subrange(i, i + lowercase(query).len()) == lowercase(query)),
{
    let n = lowercase(name);
    let q = lowercase(query);
    if query.len() > 0 {
        if app_matches_spec(name, query) {
            let i = choose|i: int| crate::text::occurs_at(n, q, i);
            assert(n.subrange(i, i + q.len()) == q);
        }
        if exists|i: int| 0 <= i && i + q.len() <= n.len() && #[trigger] n.subrange(i, i + q.len()) == q {
            let i = choose|i: int| 0 <= i && i + q.len() <= n.len() && #[trigger] n.subrange(i, i + q.len()) == q;
            assert(crate::text::occurs_at(n, q, i));
        }
    }
}

/// The processes search keeps a row exactly when the query is empty or, in
/// lowercase, the query occurs somewhere in the name or somewhere in the
/// pid's decimal digits (`20` finds pid 1200).
pub proof fn lemma_proc_search_finds_anywhere(name: Seq<char>, pid: u32, query: Seq<char>)
    ensures
        proc_matches_spec(name, pid, query) <==> (query.len() == 0 || (exists|i: int|
            0 <= i && i + lowercase(query).len() <= lowercase(name).len() && #[trigger] lowercase(
                name,
            ).subrange(i, i + lowercase(query).len()) == lowercase(query)) || (exists|i: int|
            0 <= i && i + lowercase(query).len() <= decimal(pid as nat).len() && #[trigger] decimal(
                pid as nat,
            ).subrange(i, i + lowercase(query).len()) == lowercase(query))),
{
    let n = lowercase(name);
    let d = decimal(pid as nat);
    let q = lowercase(query);
    if query.len() > 0 {
        if contains(n, q) {
            let i = choose|i: int| crate::text::occurs_at(n, q, i);
            assert(n.subrange(i, i + q.len()) == q);
        }
        if contains(d, q) {
            let i = choose|i: int| crate::text::occurs_at(d, q, i);
            assert(d.subrange(i, i + q.len()) == q);
        }
        if exists|i: int| 0 <= i && i + q.len() <= n.len() && #[trigger] n.subrange(i, i + q.len()) == q {
            let i = choose|i: int| 0 <= i && i + q.len() <= n.len() && #[trigger] n.subrange(i, i + q.len()) == q;
            assert(crate::text::occurs_at(n, q, i));
        }
        if exists|i: int| 0 <= i && i + q.len() <= d.len() && #[trigger] d.subrange(i, i + q.len()) == q {
            let i = choose|i: int| 0 <= i && i + q.len() <= d.len() && #[trigger] d.subrange(i, i + q.len()) == q;
            assert(crate::text::occurs_at(d, q, i));
        }
    }
}

/// The pid's digits are its decimal writing: they are ASCII digits, the
/// first is no `0` unless the pid is 0, and read back they give the pid.
pub proof fn lemma_decimal_reads_back(n: nat)
    ensures
        decimal(n).len() > 0,
        crate::text::all_digits(decimal(n)),
        crate::text::digits_value(decimal(n)) == n,
        n > 0 ==> decimal(n)[0] != '0',
    decreases n,
{
    let d = n % 10;
    assert(crate::text::digit_val(digit_char(d)) == d);
    assert(n == (n / 10) * 10 + d);
    if n >= 10 {
        lemma_decimal_reads_back(n / 10);
        let r = decimal(n / 10);
        assert(decimal(n).drop_last() =~= r);
        assert(decimal(n).last() == digit_char(d));
        assert(crate::text::digits_value(decimal(n)) == crate::text::digits_value(r) * 10
            + crate::text::digit_val(digit_char(d)));
        assert(decimal(n)[0] == r[0]);
        assert forall|i: int| 0 <= i < decimal(n).len() implies crate::text::is_digit(#[trigger] decimal(n)[i]) by {
            if i < r.len() {
                assert(decimal(n)[i] == r[i]);
            }
        }
    } else {
        assert(decimal(n).drop_last() =~= Seq::<char>::empty());
        assert(decimal(n).last() == digit_char(d));
        assert(crate::text::digits_value(Seq::<char>::empty()) == 0);
        assert(crate::text::digits_value(decimal(n)) == crate::text::digit_val(digit_char(d)));
    }
}

/// Whether the apps table shows the app `name` under the search `query`.
pub fn app_matches(name: &str, query: &str) -> (b: bool)
    ensures
        b == app_matches_spec(name@, query@),
{
    let q = chars_of(query);
    if q.len() == 0 {
        return true;
    }
    let ql = lowercase_string(query);
    let nl = lowercase_string(name);
    let qc = chars_of(ql.as_str());
    let nc = chars_of(nl.as_str());
    contains_chars(nc.as_slice(), qc.as_slice())
}

/// Whether the processes table shows the process `pid` named `name` under
/// the search `query`.
pub fn proc_matches(name: &str, pid: u32, query: &str) -> (b: bool)
    ensures
        b == proc_matches_spec(name@, pid, query@),
{
    let q = chars_of(query);
    if q.len() == 0 {
        return true;
    }
    let ql = lowercase_string(query);
    let nl = lowercase_string(name);
    let qc = chars_of(ql.as_str());
    let nc = chars_of(nl.as_str());
    if contains_chars(nc.as_slice(), qc.as_slice()) {
        return true;
    }
    let dc = decimal_chars(pid);
    contains_chars(dc.as_slice(), qc.as_slice())
}

// ---------------------------------------------------------------------------
// Rows that leave
// ---------------------------------------------------------------------------

/// The pids of `known`, in order, that `seen` does not hold.
pub open spec fn pids_gone_spec(known: Seq<u32>, seen: Seq<u32>) -> Seq<u32>
    decreases known.len(),
{
    if known.len() == 0 {
        seq![]
    } else {
        let r = pids_gone_spec(known.drop_last(), seen);
        if seen.contains(known.last()) {
            r
        } else {
            r.push(known.last())
        }
    }
}

/// The names of `known`, in order, that `seen` does not hold.
pub open spec fn names_gone_spec(known: Seq<Seq<char>>, seen: Seq<Seq<char>>) -> Seq<Seq<char>>
    decreases known.len(),
{
    if known.len() == 0 {
        seq![]
    } else {
        let r = names_gone_spec(known.drop_last(), seen);
        if seen.contains(known.last()) {
            r
        } else {
            r.push(known.last())
        }
    }
}

fn holds_pid(seen: &[u32], p: u32) -> (b: bool)
    ensures
        b == seen@.contains(p),
{
    let mut j: usize = 0;
    while j < seen.len()
        invariant
            0 <= j <= seen@.len(),
            forall|k: int| 0 <= k < j ==> seen@[k] != p,
        decreases seen.len() - j,
    {
        if seen[j] == p {
            assert(seen@[j as int] == p);
            return true;
        }
        j += 1;
    }
    false
}

fn holds_name(seen: &[String], n: &[char]) -> (b: bool)
    ensures
        b == seen@.map_values(|s: String| s@).contains(n@),
{
    let ghost sv = seen@.map_values(|s: String| s@);
    let mut j: usize = 0;
    while j < seen.len()
        invariant
            0 <= j <= seen@.len(),
            sv == seen@.map_values(|s: String| s@),
            forall|k: int| 0 <= k < j ==> sv[k] != n@,
        decreases seen.len() - j,
    {
        let c = chars_of(seen[j].as_str());
        if same_chars(c.as_slice(), n) {
            assert(sv[j as int] == n@);
            return true;
        }
        j += 1;
    }
    false
}

/// The rows of the processes table that leave it: the pids it shows
/// (`known`) that the new sample does not hold (`seen`), in order.
pub fn pids_gone(known: &[u32], seen: &[u32]) -> (gone: Vec<u32>)
    ensures
        gone@ == pids_gone_spec(known@, seen@),
{
    let mut gone: Vec<u32> = Vec::new();
    let mut i: usize = 0;
    assert(known@.take(0) =~= seq![]);
    while i < known.len()
        invariant
            0 <= i <= known@.len(),
            gone@ == pids_gone_spec(known@.take(i as int), seen@),
        decreases known.len() - i,
    {
        assert(known@.take(i + 1).drop_last() =~= known@.take(i as int));
        assert(known@.take(i + 1).last() == known@[i as int]);
        if !holds_pid(seen, known[i]) {
            gone.push(known[i]);
        }
        i += 1;
    }
    assert(known@.take(known@.len() as int) =~= known@);
    gone
}

/// The rows of the apps table that leave it: the app names it shows
/// (`known`) that the new sample does not hold (`seen`), in order.
pub fn names_gone(known: &[String], seen: &[String]) -> (gone: Vec<String>)
    ensures
        gone@.map_values(|s: String| s@) == names_gone_spec(
            known@.map_values(|s: String| s@),
            seen@.map_values(|s: String| s@),
        ),
{
    let ghost kv = known@.map_values(|s: String| s@);
    let ghost sv = seen@.map_values(|s: String| s@);
    let mut gone: Vec<String> = Vec::new();
    let mut i: usize = 0;
    assert(kv.take(0) =~= seq![]);
    assert(gone@.map_values(|s: String| s@) =~= seq![]);
    while i < known.len()
        invariant
            0 <= i <= known@.len(),
            kv == known@.map_values(|s: String| s@),
            sv == seen@.map_values(|s: String| s@),
            gone@.map_values(|s: String| s@) == names_gone_spec(kv.take(i as int), sv),
        decreases known.len() - i,
    {
        assert(kv.take(i + 1).drop_last() =~= kv.take(i as int));
        assert(kv.take(i + 1).last() == known@[i as int]@);
        let c = chars_of(known[i].as_str());
        if !holds_name(seen, c.as_slice()) {
            let ghost before = gone@.map_values(|s: String| s@);
            gone.push(known[i].clone());
            assert(gone@.map_values(|s: String| s@) =~= before.push(known@[i as int]@));
        }
        i += 1;
    }
    assert(kv.take(kv.len() as int) =~= kv);
    gone
}

/// A row leaves exactly when the new sample no longer holds it: every pid
/// that leaves was shown and is not seen, and every shown pid that is not
/// seen leaves.
pub proof fn lemma_gone_rows_are_the_unseen(known: Seq<u32>, seen: Seq<u32>, p: u32)
    ensures
        pids_gone_spec(known, seen).contains(p) <==> (known.contains(p) && !seen.contains(p)),
    decreases known.len(),
{
    if known.len() > 0 {
        let d = known.drop_last();
        lemma_gone_rows_are_the_unseen(d, seen, p);
        let r = pids_gone_spec(d, seen);
        if known.contains(p) && !d.contains(p) {
            let i = choose|i: int| 0 <= i < known.len() && known[i] == p;
            if i < known.len() - 1 {
                assert(d[i] == p);
            }
        }
        if d.contains(p) {
            let i = choose|i: int| 0 <= i < d.len() && d[i] == p;
            assert(known[i] == p);
        }
        if !seen.contains(known.last()) {
            assert(r.push(known.last()).last() == known.last());
            if r.contains(p) {
                let i = choose|i: int| 0 <= i < r.len() && r[i] == p;
                assert(r.push(known.last())[i] == p);
            }
            if r.push(known.last()).contains(p) {
                let i = choose|i: int| 0 <= i < r.len() + 1 && r.push(known.last())[i] == p;
                if i < r.len() {
                    assert(r[i] == p);
                }
            }
        }
        assert(known[known.len() - 1] == known.last());
    }
}

/// A row leaves exactly when the new sample no longer holds it: every app
/// name that leaves was shown and is not seen, and every shown name that is not
/// seen leaves.
pub proof fn lemma_gone_apps_are_the_unseen(known: Seq<Seq<char>>, seen: Seq<Seq<char>>, p: Seq<char>)
    ensures
        names_gone_spec(known, seen).contains(p) <==> (known.contains(p) && !seen.contains(p)),
    decreases known.len(),
{
    if known.len() > 0 {
        let d = known.drop_last();
        lemma_gone_apps_are_the_unseen(d, seen, p);
        let r = names_gone_spec(d, seen);
        if known.contains(p) && !d.contains(p) {
            let i = choose|i: int| 0 <= i < known.len() && known[i] == p;
            if i < known.len() - 1 {
                assert(d[i] == p);
            }
        }
        if d.contains(p) {
            let i = choose|i: int| 0 <= i < d.len() && d[i] == p;
            assert(known[i] == p);
        }
        if !seen.contains(known.last()) {
            assert(r.push(known.last()).last() == known.last());
            if r.contains(p) {
                let i = choose|i: int| 0 <= i < r.len() && r[i] == p;
                assert(r.push(known.last())[i] == p);
            }
            if r.push(known.last()).contains(p) {
                let i = choose|i: int| 0 <= i < r.len() + 1 && r.push(known.last())[i] == p;
                if i < r.len() {
                    assert(r[i] == p);
                }
            }
        }
        assert(known[known.len() - 1] == known.last());
    }
}

} // verus!
