//! The icon names to try, in order, for a process of a given name.
use vstd::prelude::*;

use crate::text::{chars_of, is_digit_char, starts_with, starts_with_chars, string_from_chars};

verus! {

/// ASCII lowercase of a character (other characters are kept).
pub open spec fn ascii_lower(c: char) -> char {
    if 0x41 <= (c as u32) && (c as u32) <= 0x5A {
        ((c as u32) + 32) as char
    } else {
        c
    }
}

/// What `str::to_ascii_lowercase` gives.
pub open spec fn ascii_lowercase(s: Seq<char>) -> Seq<char> {
    s.map_values(|c: char| ascii_lower(c))
}

/// `s` without its trailing ASCII digits.
pub open spec fn trim_end_digits(s: Seq<char>) -> Seq<char>
    decreases s.len(),
{
    if s.len() > 0 && 0x30 <= (s.last() as u32) && (s.last() as u32) <= 0x39 {
        trim_end_digits(s.drop_last())
    } else {
        s
    }
}

/// The processes whose icons go by another name: `(name prefix, icon)`.
pub open spec fn icon_aliases() -> Seq<(Seq<char>, Seq<char>)> {
    seq![
        ("code"@, "code"@),
        ("chrome"@, "google-chrome"@),
        ("chromium"@, "chromium"@),
        ("firefox"@, "firefox"@),
        ("gnome-shell"@, "gnome-shell"@),
        ("gnome-terminal"@, "utilities-terminal"@),
        ("nautilus"@, "org.gnome.Nautilus"@),
        ("thunderbird"@, "thunderbird"@),
        ("spotify"@, "spotify"@),
        ("discord"@, "discord"@),
        ("telegram"@, "telegram"@),
    ]
}

/// The position of the first alias at or after `i` whose name begins the
/// lowercased name, or the number of aliases.
pub open spec fn first_alias(lower: Seq<char>, i: int) -> int
    decreases 11 - i,
{
    if i < 0 || i >= 11 {
        11
    } else if lower == icon_aliases()[i].0 || starts_with(lower, icon_aliases()[i].0) {
        i
    } else {
        first_alias(lower, i + 1)
    }
}

/// The icon names to try for a process: for a name that an alias begins
/// (case aside), the alias's icon; otherwise the lowercased name, then that
/// name without its trailing digits (when it has any); and last the
/// generic `application-x-executable`.
pub open spec fn icon_candidates_spec(name: Seq<char>) -> Seq<Seq<char>> {
    let lower = ascii_lowercase(name);
    let a = first_alias(lower, 0);
    if a < 11 {
        seq![icon_aliases()[a].1, "application-x-executable"@]
    } else {
        let stripped = trim_end_digits(lower);
        if stripped != lower {
            seq![lower, stripped, "application-x-executable"@]
        } else {
            seq![lower, "application-x-executable"@]
        }
    }
}

fn alias_at(i: usize) -> (r: (&'static str, &'static str))
    requires
        i < 11,
    ensures
        (r.0@, r.1@) == icon_aliases()[i as int],
{
    if i == 0 {
        ("code", "code")
    } else if i == 1 {
        ("chrome", "google-chrome")
    } else if i == 2 {
        ("chromium", "chromium")
    } else if i == 3 {
        ("firefox", "firefox")
    } else if i == 4 {
        ("gnome-shell", "gnome-shell")
    } else if i == 5 {
        ("gnome-terminal", "utilities-terminal")
    } else if i == 6 {
        ("nautilus", "org.gnome.Nautilus")
    } else if i == 7 {
        ("thunderbird", "thunderbird")
    } else if i == 8 {
        ("spotify", "spotify")
    } else if i == 9 {
        ("discord", "discord")
    } else {
        ("telegram", "telegram")
    }
}

fn lowercase_chars(s: &[char]) -> (r: Vec<char>)
    ensures
        r@ == ascii_lowercase(s@),
{
    let mut r: Vec<char> = Vec::new();
    let mut i: usize = 0;
    while i < s.len()
        invariant
            0 <= i <= s@.len(),
            r@ == ascii_lowercase(s@.take(i as int)),
        decreases s.len() - i,
    {
        let c = s[i];
        let u = c as u32;
        let l = if 0x41 <= u && u <= 0x5A {
            let v: u32 = u + 32;
            assert(v == (c as u32) + 32);
            let lc = (v as u8) as char;
            assert(lc == ascii_lower(c)) by {
                assert(v < 256);
            }
            lc
        } else {
            c
        };
        r.push(l);
        i += 1;
        assert(r@ =~= ascii_lowercase(s@.take(i as int)));
    }
    assert(s@.take(s@.len() as int) =~= s@);
    r
}

/// The icon names to try, in order, for a process called `name` (see
/// [`icon_candidates_spec`]). The last one is always the generic
/// `application-x-executable`.
pub fn proc_icon_candidates(name: &str) -> (r: Vec<String>)
    ensures
        r@.map_values(|s: String| s@) == icon_candidates_spec(name@),
        r@.len() > 0,
        r@.last()@ == "application-x-executable"@,
{
    let cs = chars_of(name);
    let lower = lowercase_chars(cs.as_slice());
    let mut i: usize = 0;
    while i < 11
        invariant
            0 <= i <= 11,
            lower@ == ascii_lowercase(name@),
            first_alias(lower@, 0) == first_alias(lower@, i as int),
        decreases 11 - i,
    {
        let (k, v) = alias_at(i);
        let kc = chars_of(k);
        if starts_with_chars(lower.as_slice(), kc.as_slice()) {
            let mut r: Vec<String> = Vec::new();
            r.push(v.to_owned());
            r.push("application-x-executable".to_owned());
            assert(r@.map_values(|s: String| s@) =~= icon_candidates_spec(name@));
            return r;
        }
        proof {
            if lower@ == kc@ {
                assert(lower@.take(kc@.len() as int) =~= lower@);
            }
            assert(icon_aliases()[i as int].0 == kc@);
        }
        i += 1;
    }
    let mut end: usize = lower.len();
    assert(lower@.take(end as int) =~= lower@);
    while end > 0 && is_digit_char(lower[end - 1])
        invariant
            end <= lower@.len(),
            trim_end_digits(lower@) == trim_end_digits(lower@.take(end as int)),
        decreases end,
    {
        assert(lower@.take(end as int).drop_last() =~= lower@.take(end - 1));
        end -= 1;
    }
    let mut r: Vec<String> = Vec::new();
    r.push(string_from_chars(lower.as_slice()));
    if end < lower.len() {
        let mut stripped: Vec<char> = Vec::new();
        let mut j: usize = 0;
        while j < end
            invariant
                end <= lower@.len(),
                0 <= j <= end,
                stripped@ == lower@.take(j as int),
            decreases end - j,
        {
            stripped.push(lower[j]);
            j += 1;
            assert(stripped@ =~= lower@.take(j as int));
        }
        assert(stripped@ == trim_end_digits(lower@));
        assert(stripped@.len() < lower@.len());
        r.push(string_from_chars(stripped.as_slice()));
    } else {
        assert(trim_end_digits(lower@) == lower@);
    }
    r.push("application-x-executable".to_owned());
    assert(r@.map_values(|s: String| s@) =~= icon_candidates_spec(name@));
    r
}

} // verus!
