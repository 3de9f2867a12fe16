//! The grammar of journal entry lines.
//!
//! An entry line is a list item: leading whitespace, a marker (`- ` or a
//! number followed by `. `), an optional checkbox `[c]`, an optional
//! `HH:MM:SS` clock followed by whitespace, and the message text.  Digits
//! and whitespace are the Unicode classes `Nd` and `White_Space`; the
//! scanners below are greedy, as a regular-expression matcher would be.
use vstd::prelude::*;
use crate::text::{char_is_decimal, char_is_space, is_decimal, is_space};

verus! {

/// Length of the run of whitespace that starts at `i`.
pub open spec fn space_run(s: Seq<char>, i: int) -> int
    decreases s.len() - i,
{
    if 0 <= i < s.len() && is_space(s[i]) {
        1 + space_run(s, i + 1)
    } else {
        0
    }
}

/// Length of the run of decimal digits that starts at `i`.
pub open spec fn decimal_run(s: Seq<char>, i: int) -> int
    decreases s.len() - i,
{
    if 0 <= i < s.len() && is_decimal(s[i]) {
        1 + decimal_run(s, i + 1)
    } else {
        0
    }
}

pub proof fn lemma_space_run(s: Seq<char>, i: int)
    requires
        0 <= i <= s.len(),
    ensures
        0 <= space_run(s, i) <= s.len() - i,
        forall|j: int| i <= j < i + space_run(s, i) ==> is_space(#[trigger] s[j]),
        i + space_run(s, i) == s.len() || !is_space(s[i + space_run(s, i)]),
    decreases s.len() - i,
{
    if i < s.len() && is_space(s[i]) {
        lemma_space_run(s, i + 1);
    }
}

pub proof fn lemma_decimal_run(s: Seq<char>, i: int)
    requires
        0 <= i <= s.len(),
    ensures
        0 <= decimal_run(s, i) <= s.len() - i,
        forall|j: int| i <= j < i + decimal_run(s, i) ==> is_decimal(#[trigger] s[j]),
        i + decimal_run(s, i) == s.len() || !is_decimal(s[i + decimal_run(s, i)]),
    decreases s.len() - i,
{
    if i < s.len() && is_decimal(s[i]) {
        lemma_decimal_run(s, i + 1);
    }
}

/// Index just past the whitespace run that starts at `i`.
pub fn skip_spaces(v: &[char], i: usize) -> (r: usize)
    requires
        i <= v.len(),
    ensures
        r == i + space_run(v@, i as int),
        i <= r <= v.len(),
{
    let mut j = i;
    while j < v.len() && char_is_space(v[j])
        invariant
            i <= j <= v.len(),
            space_run(v@, i as int) == (j - i) + space_run(v@, j as int),
        decreases v.len() - j,
    {
        j = j + 1;
    }
    j
}

/// Index just past the decimal-digit run that starts at `i`.
pub fn skip_decimals(v: &[char], i: usize) -> (r: usize)
    requires
        i <= v.len(),
    ensures
        r == i + decimal_run(v@, i as int),
        i <= r <= v.len(),
{
    let mut j = i;
    while j < v.len() && char_is_decimal(v[j])
        invariant
            i <= j <= v.len(),
            decimal_run(v@, i as int) == (j - i) + decimal_run(v@, j as int),
        decreases v.len() - j,
    {
        j = j + 1;
    }
    j
}

/// `\d{2}:\d{2}:\d{2}` stands at `i`.
pub open spec fn clock_shape_at(s: Seq<char>, i: int) -> bool {
    &&& 0 <= i
    &&& i + 8 <= s.len()
    &&& is_decimal(s[i])
    &&& is_decimal(s[i + 1])
    &&& s[i + 2] == ':'
    &&& is_decimal(s[i + 3])
    &&& is_decimal(s[i + 4])
    &&& s[i + 5] == ':'
    &&& is_decimal(s[i + 6])
    &&& is_decimal(s[i + 7])
}

pub fn clock_shape(v: &[char], i: usize) -> (r: bool)
    requires
        i <= v.len(),
    ensures
        r == clock_shape_at(v@, i as int),
{
    if v.len() - i < 8 {
        return false;
    }
    char_is_decimal(v[i]) && char_is_decimal(v[i + 1]) && v[i + 2] == ':' && char_is_decimal(
        v[i + 3],
    ) && char_is_decimal(v[i + 4]) && v[i + 5] == ':' && char_is_decimal(v[i + 6])
        && char_is_decimal(v[i + 7])
}

/// Index just past the list marker that starts at `a`, or `-1`.  The
/// marker is `-` (or, when `stars` holds, also `*` or `+`) followed by one
/// whitespace character, or one or more decimal digits, `.`, and one
/// whitespace character.
pub open spec fn marker_end(s: Seq<char>, a: int, stars: bool) -> int {
    let d = decimal_run(s, a);
    if 0 <= a && a + 1 < s.len() && (s[a] == '-' || (stars && (s[a] == '*' || s[a] == '+')))
        && is_space(s[a + 1]) {
        a + 2
    } else if d > 0 && a + d + 1 < s.len() && s[a + d] == '.' && is_space(s[a + d + 1]) {
        a + d + 2
    } else {
        -1
    }
}

pub fn scan_marker(v: &[char], a: usize, stars: bool) -> (r: Option<usize>)
    requires
        a <= v.len(),
    ensures
        match r {
            Some(b) => b == marker_end(v@, a as int, stars) && a < b <= v.len(),
            None => marker_end(v@, a as int, stars) == -1,
        },
{
    proof {
        lemma_decimal_run(v@, a as int);
    }
    if a < v.len() && a + 1 < v.len() && (v[a] == '-' || (stars && (v[a] == '*' || v[a] == '+')))
        && char_is_space(v[a + 1]) {
        return Some(a + 2);
    }
    let e = skip_decimals(v, a);
    if e > a && e < v.len() && e + 1 < v.len() && v[e] == '.' && char_is_space(v[e + 1]) {
        Some(e + 2)
    } else {
        None
    }
}

/// The pieces of an entry line.
pub struct EntryParts {
    /// The character between `[` and `]`, when there is a checkbox.
    pub checkbox: Option<char>,
    /// The `HH:MM:SS` text, when there is one.
    pub clock: Option<Seq<char>>,
    /// The message text.
    pub message: Seq<char>,
}

/// The position after the optional checkbox `[c]` and its trailing
/// whitespace, when the line has a marker ending at `b`.
pub open spec fn checkbox_at(s: Seq<char>, b: int) -> bool {
    0 <= b && b + 3 <= s.len() && s[b] == '[' && s[b + 1] != '\n' && s[b + 2] == ']'
}

pub open spec fn after_checkbox(s: Seq<char>, b: int) -> int {
    if checkbox_at(s, b) {
        b + 3 + space_run(s, b + 3)
    } else {
        b
    }
}

/// A clock followed by at least one whitespace character stands at `e`.
pub open spec fn clock_at(s: Seq<char>, e: int) -> bool {
    clock_shape_at(s, e) && e + 8 < s.len() && is_space(s[e + 8])
}

/// Whether `s` has no `'\n'` from `m` on.
pub open spec fn no_newline_from(s: Seq<char>, m: int) -> bool {
    forall|j: int| m <= j < s.len() ==> s[j] != '\n'
}

/// The entry grammar.  With `is_all` the clock is optional; without it a
/// memo must carry a clock, while a task (an entry with a checkbox) may
/// go without.  The message runs to the end of the line and holds no
/// `'\n'`.
pub open spec fn parse_entry(s: Seq<char>, is_all: bool) -> Option<EntryParts> {
    let a = space_run(s, 0);
    let b = marker_end(s, a, false);
    if b < 0 {
        None
    } else {
        let e = after_checkbox(s, b);
        let checkbox = if checkbox_at(s, b) {
            Some(s[b + 1])
        } else {
            None
        };
        if clock_at(s, e) {
            let m = e + 8 + space_run(s, e + 8);
            if no_newline_from(s, m) {
                Some(
                    EntryParts {
                        checkbox,
                        clock: Some(s.subrange(e, e + 8)),
                        message: s.skip(m),
                    },
                )
            } else {
                None
            }
        } else if (is_all || checkbox_at(s, b)) && no_newline_from(s, e) {
            Some(EntryParts { checkbox, clock: None, message: s.skip(e) })
        } else {
            None
        }
    }
}

/// The prefix that an edited entry keeps: indentation, marker (`-`, `*`,
/// `+` or a number), an optional checkbox `[ ]`, `[x]` or `[X]` with its
/// trailing whitespace, and an optional clock with its trailing whitespace.
/// `None` when the line has no marker.
pub open spec fn entry_prefix_len(s: Seq<char>) -> Option<int> {
    let a = space_run(s, 0);
    let b = marker_end(s, a, true);
    if b < 0 {
        None
    } else {
        let e = if b + 3 <= s.len() && s[b] == '[' && (s[b + 1] == ' ' || s[b + 1] == 'x'
            || s[b + 1] == 'X') && s[b + 2] == ']' {
            b + 3 + space_run(s, b + 3)
        } else {
            b
        };
        if clock_at(s, e) {
            Some(e + 8 + space_run(s, e + 8))
        } else {
            Some(e)
        }
    }
}

/// Whether no `'\n'` stands in `v[m..]`.
pub fn newline_free_from(v: &[char], m: usize) -> (r: bool)
    requires
        m <= v.len(),
    ensures
        r == no_newline_from(v@, m as int),
{
    let mut j = m;
    while j < v.len()
        invariant
            m <= j <= v.len(),
            forall|k: int| m <= k < j ==> v@[k] != '\n',
        decreases v.len() - j,
    {
        if v[j] == '\n' {
            return false;
        }
        j = j + 1;
    }
    true
}

/// The entry pieces as positions: checkbox character, clock start, and
/// message start.
pub fn scan_entry(v: &[char], is_all: bool) -> (r: Option<(Option<char>, Option<usize>, usize)>)
    ensures
        match r {
            Some((cb, clock, m)) => {
                &&& parse_entry(v@, is_all) is Some
                &&& m <= v.len()
                &&& parse_entry(v@, is_all)->0.checkbox == cb
                &&& parse_entry(v@, is_all)->0.message == v@.skip(m as int)
                &&& match clock {
                    Some(e) => e + 8 <= v.len() && parse_entry(v@, is_all)->0.clock == Some(
                        v@.subrange(e as int, e + 8),
                    ),
                    None => parse_entry(v@, is_all)->0.clock is None,
                }
            },
            None => parse_entry(v@, is_all) is None,
        },
{
    let a = skip_spaces(v, 0);
    let b = match scan_marker(v, a, false) {
        Some(b) => b,
        None => return None,
    };
    let has_box = b < v.len() && v.len() - b >= 3 && v[b] == '[' && v[b + 1] != '\n' && v[b + 2]
        == ']';
    let (cb, e) = if has_box {
        (Some(v[b + 1]), skip_spaces(v, b + 3))
    } else {
        (None, b)
    };
    if clock_shape(v, e) && e + 8 < v.len() && char_is_space(v[e + 8]) {
        let m = skip_spaces(v, e + 8);
        if newline_free_from(v, m) {
            Some((cb, Some(e), m))
        } else {
            None
        }
    } else if (is_all || has_box) && newline_free_from(v, e) {
        Some((cb, None, e))
    } else {
        None
    }
}

/// Length of the prefix an edit keeps, as `entry_prefix_len` states.
pub fn scan_entry_prefix(v: &[char]) -> (r: Option<usize>)
    ensures
        match r {
            Some(m) => entry_prefix_len(v@) == Some(m as int) && m <= v.len(),
            None => entry_prefix_len(v@) is None,
        },
{
    let a = skip_spaces(v, 0);
    let b = match scan_marker(v, a, true) {
        Some(b) => b,
        None => return None,
    };
    let e = if b < v.len() && v.len() - b >= 3 && v[b] == '[' && (v[b + 1] == ' ' || v[b + 1]
        == 'x' || v[b + 1] == 'X') && v[b + 2] == ']' {
        skip_spaces(v, b + 3)
    } else {
        b
    };
    if clock_shape(v, e) && e + 8 < v.len() && char_is_space(v[e + 8]) {
        Some(skip_spaces(v, e + 8))
    } else {
        Some(e)
    }
}

} // verus!
