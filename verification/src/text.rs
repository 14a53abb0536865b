//! Text handling shared by the parsers: whitespace, lines, tokens, trimming
//! and integer parsing, each stated over the characters of the text.
use vstd::prelude::*;

verus! {

// ---------------------------------------------------------------------------
// Specifications
// ---------------------------------------------------------------------------

/// Whitespace as `char::is_whitespace` defines it (the Unicode `White_Space` property).
pub open spec fn is_ws(c: char) -> bool {
    let u = c as u32;
    ||| u == 0x20
    ||| (0x09 <= u && u <= 0x0D)
    ||| u == 0x85
    ||| u == 0xA0
    ||| u == 0x1680
    ||| (0x2000 <= u && u <= 0x200A)
    ||| u == 0x2028
    ||| u == 0x2029
    ||| u == 0x202F
    ||| u == 0x205F
    ||| u == 0x3000
}

/// An ASCII decimal digit.
pub open spec fn is_digit(c: char) -> bool {
    0x30 <= (c as u32) && (c as u32) <= 0x39
}

/// The value of an ASCII decimal digit.
pub open spec fn digit_val(c: char) -> int {
    (c as u32) - 0x30
}

/// Every character of `s` is an ASCII digit.
pub open spec fn all_digits(s: Seq<char>) -> bool {
    forall|i: int| 0 <= i < s.len() ==> is_digit(#[trigger] s[i])
}

/// The number written by the decimal digits `s` (0 for no digits).
pub open spec fn digits_value(s: Seq<char>) -> int
    decreases s.len(),
{
    if s.len() == 0 {
        0
    } else {
        digits_value(s.drop_last()) * 10 + digit_val(s.last())
    }
}

/// The digits of an unsigned literal: an optional leading `+` is dropped.
pub open spec fn unsigned_digits(s: Seq<char>) -> Seq<char> {
    if s.len() > 0 && s[0] == '+' {
        s.drop_first()
    } else {
        s
    }
}

/// What `str::parse::<u64>` gives: an optional `+`, then one or more ASCII
/// digits whose value fits in a `u64`.
pub open spec fn parse_u64(s: Seq<char>) -> Option<u64> {
    let d = unsigned_digits(s);
    if d.len() > 0 && all_digits(d) && digits_value(d) <= u64::MAX {
        Some(digits_value(d) as u64)
    } else {
        None
    }
}

/// What `str::parse::<i64>` gives: an optional sign, then one or more ASCII
/// digits whose signed value fits in an `i64`.
pub open spec fn parse_i64(s: Seq<char>) -> Option<i64> {
    if s.len() > 0 && s[0] == '-' {
        let d = s.drop_first();
        if d.len() > 0 && all_digits(d) && digits_value(d) <= 0x8000_0000_0000_0000 {
            Some((-digits_value(d)) as i64)
        } else {
            None
        }
    } else {
        let d = unsigned_digits(s);
        if d.len() > 0 && all_digits(d) && digits_value(d) <= i64::MAX {
            Some(digits_value(d) as i64)
        } else {
            None
        }
    }
}

/// What `str::parse::<usize>` gives.
pub open spec fn parse_usize(s: Seq<char>) -> Option<usize> {
    let d = unsigned_digits(s);
    if d.len() > 0 && all_digits(d) && digits_value(d) <= usize::MAX {
        Some(digits_value(d) as usize)
    } else {
        None
    }
}

/// What `str::parse::<u32>` gives.
pub open spec fn parse_u32(s: Seq<char>) -> Option<u32> {
    let d = unsigned_digits(s);
    if d.len() > 0 && all_digits(d) && digits_value(d) <= u32::MAX {
        Some(digits_value(d) as u32)
    } else {
        None
    }
}

/// The token collected so far, as a list of zero or one tokens.
pub open spec fn close_token(cur: Seq<char>) -> Seq<Seq<char>> {
    if cur.len() > 0 {
        seq![cur]
    } else {
        seq![]
    }
}

/// The whitespace-separated tokens of `s`, where `cur` is a token already begun.
pub open spec fn tokens_from(s: Seq<char>, cur: Seq<char>) -> Seq<Seq<char>>
    decreases s.len(),
{
    if s.len() == 0 {
        close_token(cur)
    } else if is_ws(s[0]) {
        close_token(cur) + tokens_from(s.drop_first(), seq![])
    } else {
        tokens_from(s.drop_first(), cur.push(s[0]))
    }
}

/// What `str::split_whitespace` gives: the maximal runs of non-whitespace characters.
pub open spec fn tokens(s: Seq<char>) -> Seq<Seq<char>> {
    tokens_from(s, seq![])
}

/// A line without its terminator: a `\r` before the `\n` is dropped too.
pub open spec fn strip_cr(line: Seq<char>) -> Seq<char> {
    if line.len() > 0 && line.last() == '\r' {
        line.drop_last()
    } else {
        line
    }
}

/// The lines of `s`, where `cur` is a line already begun.
pub open spec fn lines_from(s: Seq<char>, cur: Seq<char>) -> Seq<Seq<char>>
    decreases s.len(),
{
    if s.len() == 0 {
        close_token(cur)
    } else if s[0] == '\n' {
        seq![strip_cr(cur)] + lines_from(s.drop_first(), seq![])
    } else {
        lines_from(s.drop_first(), cur.push(s[0]))
    }
}

/// What `str::lines` gives: the text split at each `\n`, a `\r` before the
/// `\n` removed, and no empty line after a final `\n`.
pub open spec fn lines(s: Seq<char>) -> Seq<Seq<char>> {
    lines_from(s, seq![])
}

/// The pieces of `s` between occurrences of `sep`, where `cur` is a piece
/// already begun.
pub open spec fn pieces_from(s: Seq<char>, sep: char, cur: Seq<char>) -> Seq<Seq<char>>
    decreases s.len(),
{
    if s.len() == 0 {
        seq![cur]
    } else if s[0] == sep {
        seq![cur] + pieces_from(s.drop_first(), sep, seq![])
    } else {
        pieces_from(s.drop_first(), sep, cur.push(s[0]))
    }
}

/// What `str::split(sep)` gives: one more piece than there are separators,
/// empty pieces included.
pub open spec fn pieces(s: Seq<char>, sep: char) -> Seq<Seq<char>> {
    pieces_from(s, sep, seq![])
}

/// Splitting always gives at least one piece.
pub proof fn lemma_pieces_nonempty(s: Seq<char>, sep: char, cur: Seq<char>)
    ensures
        pieces_from(s, sep, cur).len() >= 1,
    decreases s.len(),
{
    if s.len() > 0 {
        if s[0] == sep {
            lemma_pieces_nonempty(s.drop_first(), sep, seq![]);
        } else {
            lemma_pieces_nonempty(s.drop_first(), sep, cur.push(s[0]));
        }
    }
}

/// `s` without its leading whitespace.
pub open spec fn trim_start(s: Seq<char>) -> Seq<char>
    decreases s.len(),
{
    if s.len() > 0 && is_ws(s[0]) {
        trim_start(s.drop_first())
    } else {
        s
    }
}

/// `s` without its trailing whitespace.
pub open spec fn trim_end(s: Seq<char>) -> Seq<char>
    decreases s.len(),
{
    if s.len() > 0 && is_ws(s.last()) {
        trim_end(s.drop_last())
    } else {
        s
    }
}

/// What `str::trim` gives.
pub open spec fn trim(s: Seq<char>) -> Seq<char> {
    trim_end(trim_start(s))
}

/// `p` is a prefix of `s`.
pub open spec fn starts_with(s: Seq<char>, p: Seq<char>) -> bool {
    p.len() <= s.len() && s.take(p.len() as int) == p
}

/// `p` occurs in `s` at position `i`.
pub open spec fn occurs_at(s: Seq<char>, p: Seq<char>, i: int) -> bool {
    0 <= i && i + p.len() <= s.len() && s.subrange(i, i + p.len()) == p
}

/// `p` occurs somewhere in `s` (the empty text occurs everywhere).
pub open spec fn contains(s: Seq<char>, p: Seq<char>) -> bool {
    exists|i: int| occurs_at(s, p, i)
}

/// The views of a list of character vectors.
pub open spec fn views(v: Seq<Vec<char>>) -> Seq<Seq<char>> {
    v.map_values(|t: Vec<char>| t@)
}

/// The value of a run of digits is never negative.
pub proof fn lemma_digits_value_nonneg(s: Seq<char>)
    requires
        all_digits(s),
    ensures
        digits_value(s) >= 0,
    decreases s.len(),
{
    if s.len() > 0 {
        assert(all_digits(s.drop_last())) by {
            assert forall|i: int| 0 <= i < s.drop_last().len() implies is_digit(
                #[trigger] s.drop_last()[i],
            ) by {
                assert(s.drop_last()[i] == s[i]);
            }
        }
        lemma_digits_value_nonneg(s.drop_last());
        assert(is_digit(s[s.len() - 1]));
    }
}

// ---------------------------------------------------------------------------
// Executable counterparts
// ---------------------------------------------------------------------------

/// The characters of `s`, in order.
pub fn chars_of(s: &str) -> (v: Vec<char>)
    ensures
        v@ == s@,
{
    broadcast use vstd::string::group_string_axioms;

    let mut v: Vec<char> = Vec::new();
    for c in it: s.chars()
        invariant
            it.seq() == s@,
            v@ == it.seq().take(it.index()),
    {
        v.push(c);
    }
    v
}

/// Builds a `String` from characters: `Iterator::collect` into a `String`
/// (std's `FromIterator<&char> for String`), which pushes each character in
/// order, so the string holds exactly these characters.
#[verifier::external_body]
pub(crate) fn string_from_chars(chars: &[char]) -> (s: String)
    ensures
        s@ == chars@,
{
    chars.iter().collect()
}

/// `c` is whitespace (see [`is_ws`]).
pub fn is_ws_char(c: char) -> (b: bool)
    ensures
        b == is_ws(c),
{
    let u = c as u32;
    u == 0x20 || (0x09 <= u && u <= 0x0D) || u == 0x85 || u == 0xA0 || u == 0x1680 || (0x2000
        <= u && u <= 0x200A) || u == 0x2028 || u == 0x2029 || u == 0x202F || u == 0x205F || u
        == 0x3000
}

/// `c` is an ASCII digit.
pub fn is_digit_char(c: char) -> (b: bool)
    ensures
        b == is_digit(c),
{
    let u = c as u32;
    0x30 <= u && u <= 0x39
}

/// A copy of `s[a..b]`.
pub fn copy_range(s: &[char], a: usize, b: usize) -> (r: Vec<char>)
    requires
        a <= b <= s@.len(),
    ensures
        r@ == s@.subrange(a as int, b as int),
{
    let mut r: Vec<char> = Vec::new();
    let mut i = a;
    while i < b
        invariant
            a <= i <= b <= s@.len(),
            r@ == s@.subrange(a as int, i as int),
        decreases b - i,
    {
        r.push(s[i]);
        i += 1;
        assert(r@ =~= s@.subrange(a as int, i as int));
    }
    r
}

/// `a` and `b` hold the same characters.
pub fn same_chars(a: &[char], b: &[char]) -> (r: bool)
    ensures
        r == (a@ == b@),
{
    if a.len() != b.len() {
        return false;
    }
    let mut i: usize = 0;
    while i < a.len()
        invariant
            a@.len() == b@.len(),
            0 <= i <= a@.len(),
            forall|k: int| 0 <= k < i ==> a@[k] == b@[k],
        decreases a.len() - i,
    {
        if a[i] != b[i] {
            return false;
        }
        i += 1;
    }
    assert(a@ =~= b@);
    true
}

/// `s` holds the characters of the text `t`.
pub fn chars_equal_str(s: &[char], t: &str) -> (r: bool)
    ensures
        r == (s@ == t@),
{
    let tc = chars_of(t);
    same_chars(s, tc.as_slice())
}

/// `p` is a prefix of `s`.
pub fn starts_with_chars(s: &[char], p: &[char]) -> (r: bool)
    ensures
        r == starts_with(s@, p@),
{
    if p.len() > s.len() {
        return false;
    }
    let mut i: usize = 0;
    while i < p.len()
        invariant
            p@.len() <= s@.len(),
            0 <= i <= p@.len(),
            forall|k: int| 0 <= k < i ==> s@[k] == p@[k],
        decreases p.len() - i,
    {
        if s[i] != p[i] {
            assert(s@.take(p@.len() as int)[i as int] != p@[i as int]);
            return false;
        }
        i += 1;
    }
    assert(s@.take(p@.len() as int) =~= p@);
    true
}

/// `s` begins with the text `t`.
pub fn starts_with_str(s: &[char], t: &str) -> (r: bool)
    ensures
        r == starts_with(s@, t@),
{
    let tc = chars_of(t);
    starts_with_chars(s, tc.as_slice())
}

/// `p` occurs at position `i` of `s`.
fn occurs_at_chars(s: &[char], p: &[char], i: usize) -> (r: bool)
    requires
        i + p@.len() <= s@.len(),
    ensures
        r == occurs_at(s@, p@, i as int),
{
    let n: usize = s.len();
    let mut k: usize = 0;
    while k < p.len()
        invariant
            n == s@.len(),
            i + p@.len() <= s@.len(),
            0 <= k <= p@.len(),
            forall|j: int| 0 <= j < k ==> s@[i + j] == p@[j],
        decreases p.len() - k,
    {
        assert(i + k < s@.len());
        if s[i + k] != p[k] {
            assert(s@.subrange(i as int, i + p@.len())[k as int] != p@[k as int]);
            return false;
        }
        k += 1;
    }
    assert(s@.subrange(i as int, i + p@.len()) =~= p@);
    true
}

/// `p` occurs somewhere in `s`.
pub fn contains_chars(s: &[char], p: &[char]) -> (r: bool)
    ensures
        r == contains(s@, p@),
{
    if p.len() > s.len() {
        assert(forall|i: int| !occurs_at(s@, p@, i));
        return false;
    }
    if p.len() == 0 {
        assert(s@.subrange(0, 0) =~= p@);
        assert(occurs_at(s@, p@, 0));
        return true;
    }
    let last: usize = s.len() - p.len();
    let mut i: usize = 0;
    while i <= last
        invariant
            last < s@.len(),
            s@.len() == s.len(),
            last + p@.len() == s@.len(),
            0 <= i <= last + 1,
            forall|j: int| 0 <= j < i ==> !occurs_at(s@, p@, j),
        decreases last + 1 - i,
    {
        if occurs_at_chars(s, p, i) {
            return true;
        }
        i += 1;
    }
    assert forall|j: int| !occurs_at(s@, p@, j) by {
        if 0 <= j && j + p@.len() <= s@.len() {
            assert(j < i);
        }
    }
    false
}

/// `s` contains the text `t`.
pub fn contains_str(s: &[char], t: &str) -> (r: bool)
    ensures
        r == contains(s@, t@),
{
    let tc = chars_of(t);
    contains_chars(s, tc.as_slice())
}

/// The whitespace-separated tokens of `s` (see [`tokens`]).
pub fn split_ws(s: &[char]) -> (toks: Vec<Vec<char>>)
    ensures
        views(toks@) == tokens(s@),
{
    let mut toks: Vec<Vec<char>> = Vec::new();
    let mut cur: Vec<char> = Vec::new();
    let mut i: usize = 0;
    assert(s@.skip(0) =~= s@);
    assert(views(toks@) =~= seq![]);
    while i < s.len()
        invariant
            0 <= i <= s@.len(),
            views(toks@) + tokens_from(s@.skip(i as int), cur@) == tokens(s@),
        decreases s.len() - i,
    {
        let ghost rest = s@.skip(i as int);
        let ghost before = views(toks@);
        let ghost cv = cur@;
        assert(rest.drop_first() =~= s@.skip(i + 1));
        assert(rest[0] == s@[i as int]);
        let c = s[i];
        if is_ws_char(c) {
            if cur.len() > 0 {
                toks.push(cur);
                assert(views(toks@) =~= before.push(cv));
            }
            cur = Vec::new();
            assert(views(toks@) =~= before + close_token(cv));
            assert(tokens_from(rest, cv) == close_token(cv) + tokens_from(s@.skip(i + 1), seq![]));
            assert(views(toks@) + tokens_from(s@.skip(i + 1), cur@) =~= before + tokens_from(
                rest,
                cv,
            ));
        } else {
            cur.push(c);
            assert(tokens_from(rest, cv) == tokens_from(s@.skip(i + 1), cur@));
        }
        i += 1;
    }
    let ghost before = views(toks@);
    if cur.len() > 0 {
        let ghost cv = cur@;
        toks.push(cur);
        assert(views(toks@) =~= before.push(cv));
    }
    toks
}

/// The lines of `s` (see [`lines`]).
pub fn split_lines(s: &[char]) -> (ls: Vec<Vec<char>>)
    ensures
        views(ls@) == lines(s@),
{
    let mut ls: Vec<Vec<char>> = Vec::new();
    let mut cur: Vec<char> = Vec::new();
    let mut i: usize = 0;
    assert(s@.skip(0) =~= s@);
    assert(views(ls@) =~= seq![]);
    while i < s.len()
        invariant
            0 <= i <= s@.len(),
            views(ls@) + lines_from(s@.skip(i as int), cur@) == lines(s@),
        decreases s.len() - i,
    {
        let ghost rest = s@.skip(i as int);
        let ghost before = views(ls@);
        let ghost cv = cur@;
        assert(rest.drop_first() =~= s@.skip(i + 1));
        assert(rest[0] == s@[i as int]);
        let c = s[i];
        if c == '\n' {
            let line = if cur.len() > 0 && cur[cur.len() - 1] == '\r' {
                let n = cur.len() - 1;
                copy_range(cur.as_slice(), 0, n)
            } else {
                cur
            };
            assert(line@ =~= strip_cr(cv));
            ls.push(line);
            assert(views(ls@) =~= before.push(strip_cr(cv)));
            cur = Vec::new();
            assert(lines_from(rest, cv) == seq![strip_cr(cv)] + lines_from(s@.skip(i + 1), seq![]));
            assert(views(ls@) + lines_from(s@.skip(i + 1), cur@) =~= before + lines_from(rest, cv));
        } else {
            cur.push(c);
            assert(lines_from(rest, cv) == lines_from(s@.skip(i + 1), cur@));
        }
        i += 1;
    }
    let ghost before = views(ls@);
    if cur.len() > 0 {
        let ghost cv = cur@;
        ls.push(cur);
        assert(views(ls@) =~= before.push(cv));
    }
    ls
}

/// The pieces of `s` between occurrences of `sep` (see [`pieces`]).
pub fn split_on(s: &[char], sep: char) -> (ps: Vec<Vec<char>>)
    ensures
        views(ps@) == pieces(s@, sep),
{
    let mut ps: Vec<Vec<char>> = Vec::new();
    let mut cur: Vec<char> = Vec::new();
    let mut i: usize = 0;
    assert(s@.skip(0) =~= s@);
    assert(views(ps@) =~= seq![]);
    while i < s.len()
        invariant
            0 <= i <= s@.len(),
            views(ps@) + pieces_from(s@.skip(i as int), sep, cur@) == pieces(s@, sep),
        decreases s.len() - i,
    {
        let ghost rest = s@.skip(i as int);
        let ghost before = views(ps@);
        let ghost cv = cur@;
        assert(rest.drop_first() =~= s@.skip(i + 1));
        assert(rest[0] == s@[i as int]);
        let c = s[i];
        if c == sep {
            ps.push(cur);
            assert(views(ps@) =~= before.push(cv));
            cur = Vec::new();
            assert(pieces_from(rest, sep, cv) == seq![cv] + pieces_from(
                s@.skip(i + 1),
                sep,
                seq![],
            ));
            assert(views(ps@) + pieces_from(s@.skip(i + 1), sep, cur@) =~= before + pieces_from(
                rest,
                sep,
                cv,
            ));
        } else {
            cur.push(c);
            assert(pieces_from(rest, sep, cv) == pieces_from(s@.skip(i + 1), sep, cur@));
        }
        i += 1;
    }
    let ghost before = views(ps@);
    let ghost cv = cur@;
    ps.push(cur);
    assert(views(ps@) =~= before.push(cv));
    ps
}

/// The bounds of `trim(s)` inside `s`.
pub fn trim_bounds(s: &[char]) -> (r: (usize, usize))
    ensures
        r.0 <= r.1 <= s@.len(),
        s@.subrange(r.0 as int, r.1 as int) == trim(s@),
{
    let n = s.len();
    let mut a: usize = 0;
    assert(s@.skip(0) =~= s@);
    while a < n && is_ws_char(s[a])
        invariant
            n == s@.len(),
            0 <= a <= n,
            trim_start(s@) == trim_start(s@.skip(a as int)),
        decreases n - a,
    {
        assert(s@.skip(a as int).drop_first() =~= s@.skip(a + 1));
        a += 1;
    }
    assert(trim_start(s@) == s@.skip(a as int));
    let mut b: usize = n;
    assert(s@.skip(a as int) =~= s@.subrange(a as int, n as int));
    while b > a && is_ws_char(s[b - 1])
        invariant
            n == s@.len(),
            a <= b <= n,
            trim(s@) == trim_end(s@.subrange(a as int, b as int)),
        decreases b - a,
    {
        assert(s@.subrange(a as int, b as int).drop_last() =~= s@.subrange(a as int, b - 1));
        b -= 1;
    }
    (a, b)
}

/// A copy of `trim(s)`.
pub fn trim_chars(s: &[char]) -> (r: Vec<char>)
    ensures
        r@ == trim(s@),
{
    let (a, b) = trim_bounds(s);
    copy_range(s, a, b)
}

/// The value of the decimal digits `s[start..]`, where there is at least one
/// digit, all are digits and the value fits in a `u64`.
fn parse_digits(s: &[char], start: usize) -> (r: Option<u64>)
    requires
        start <= s@.len(),
    ensures
        r == (if s@.skip(start as int).len() > 0 && all_digits(s@.skip(start as int))
            && digits_value(s@.skip(start as int)) <= u64::MAX {
            Some(digits_value(s@.skip(start as int)) as u64)
        } else {
            None::<u64>
        }),
{
    let n = s.len();
    let ghost d = s@.skip(start as int);
    if start >= n {
        return None;
    }
    let mut val: u64 = 0;
    let mut over = false;
    let ghost mut g: int = 0;
    let mut i: usize = start;
    assert(s@.subrange(start as int, start as int) =~= seq![]);
    while i < n
        invariant
            n == s@.len(),
            d == s@.skip(start as int),
            start <= i <= n,
            g == digits_value(s@.subrange(start as int, i as int)),
            all_digits(s@.subrange(start as int, i as int)),
            g >= 0,
            over ==> g > u64::MAX,
            !over ==> val == g,
        decreases n - i,
    {
        let c = s[i];
        if !is_digit_char(c) {
            assert(d[i - start] == c);
            return None;
        }
        let dv: u64 = (c as u32 - 0x30) as u64;
        proof {
            assert(s@.subrange(start as int, i + 1).drop_last() =~= s@.subrange(
                start as int,
                i as int,
            ));
            assert(s@.subrange(start as int, i + 1).last() == c);
            g = g * 10 + dv;
            assert(all_digits(s@.subrange(start as int, i + 1))) by {
                assert forall|k: int| 0 <= k < i + 1 - start implies is_digit(
                    #[trigger] s@.subrange(start as int, i + 1)[k],
                ) by {
                    if k < i - start {
                        assert(s@.subrange(start as int, i + 1)[k] == s@.subrange(
                            start as int,
                            i as int,
                        )[k]);
                    }
                }
            }
        }
        if !over {
            if val > 1844674407370955161 || (val == 1844674407370955161 && dv > 5) {
                over = true;
            } else {
                val = val * 10 + dv;
            }
        }
        i += 1;
    }
    assert(s@.subrange(start as int, n as int) =~= d);
    if over {
        None
    } else {
        Some(val)
    }
}

/// What `str::parse::<u64>` gives on `s` (see [`parse_u64`]).
pub fn parse_u64_chars(s: &[char]) -> (r: Option<u64>)
    ensures
        r == parse_u64(s@),
{
    if s.len() > 0 && s[0] == '+' {
        assert(s@.skip(1) =~= s@.drop_first());
        parse_digits(s, 1)
    } else {
        assert(s@.skip(0) =~= s@);
        parse_digits(s, 0)
    }
}

/// What `str::parse::<usize>` gives on `s` (see [`parse_usize`]).
pub fn parse_usize_chars(s: &[char]) -> (r: Option<usize>)
    ensures
        r == parse_usize(s@),
{
    let ghost d = unsigned_digits(s@);
    match parse_u64_chars(s) {
        Some(v) => {
            proof { lemma_digits_value_nonneg(d); }
            assert(v == digits_value(d));
            if v as u128 <= usize::MAX as u128 {
                Some(v as usize)
            } else {
                None
            }
        },
        None => None,
    }
}

/// What `str::parse::<u32>` gives on `s` (see [`parse_u32`]).
pub fn parse_u32_chars(s: &[char]) -> (r: Option<u32>)
    ensures
        r == parse_u32(s@),
{
    let ghost d = unsigned_digits(s@);
    match parse_u64_chars(s) {
        Some(v) => {
            proof { lemma_digits_value_nonneg(d); }
            assert(v == digits_value(d));
            if v <= u32::MAX as u64 {
                Some(v as u32)
            } else {
                None
            }
        },
        None => None,
    }
}

/// What `str::parse::<i64>` gives on `s` (see [`parse_i64`]).
pub fn parse_i64_chars(s: &[char]) -> (r: Option<i64>)
    ensures
        r == parse_i64(s@),
{
    if s.len() > 0 && s[0] == '-' {
        assert(s@.skip(1) =~= s@.drop_first());
        let ghost d = s@.drop_first();
        match parse_digits(s, 1) {
            Some(m) => {
                proof { lemma_digits_value_nonneg(d); }
                assert(m == digits_value(d));
                if m < 0x8000_0000_0000_0000 {
                    Some(-(m as i64))
                } else if m == 0x8000_0000_0000_0000 {
                    Some(i64::MIN)
                } else {
                    None
                }
            },
            None => None,
        }
    } else {
        let start: usize = if s.len() > 0 && s[0] == '+' {
            1
        } else {
            0
        };
        assert(s@.skip(start as int) =~= unsigned_digits(s@));
        let ghost d = unsigned_digits(s@);
        match parse_digits(s, start) {
            Some(m) => {
                proof { lemma_digits_value_nonneg(d); }
                assert(m == digits_value(d));
                if m <= 0x7FFF_FFFF_FFFF_FFFF {
                    Some(m as i64)
                } else {
                    None
                }
            },
            None => None,
        }
    }
}

/// What `s.trim().parse::<u64>()` gives.
pub fn parse_trimmed_u64(s: &[char]) -> (r: Option<u64>)
    ensures
        r == parse_u64(trim(s@)),
{
    let t = trim_chars(s);
    parse_u64_chars(t.as_slice())
}

/// What `s.trim().parse::<i64>()` gives.
pub fn parse_trimmed_i64(s: &[char]) -> (r: Option<i64>)
    ensures
        r == parse_i64(trim(s@)),
{
    let t = trim_chars(s);
    parse_i64_chars(t.as_slice())
}

} // verus!
