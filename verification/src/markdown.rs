//! Recognisers for the Markdown line kinds the journal works with.
use vstd::prelude::*;
use crate::text::{
    is_space, trim_end, views, chars_eq, trim_chars,
    ascii_digit_run, char_is_ascii_digit, char_is_ascii_space, chars_of, is_ascii_digit,
    is_ascii_space, lemma_ascii_digit_run_at, trim, trim_bounds, trim_start,
};

verus! {

/// A heading: the line, without leading whitespace, starts with `#`.
pub open spec fn spec_is_heading(s: Seq<char>) -> bool {
    let l = trim_start(s);
    l.len() > 0 && l[0] == '#'
}

/// A blank line: nothing but whitespace.
pub open spec fn spec_is_blank(s: Seq<char>) -> bool {
    trim(s).len() == 0
}

/// A list item: after leading whitespace, either `-` or `*` followed by an
/// ASCII space character, or one or more ASCII digits, a `.`, and an ASCII
/// space character.
pub open spec fn spec_is_list(s: Seq<char>) -> bool {
    let l = trim_start(s);
    if l.len() > 0 && (l[0] == '-' || l[0] == '*') {
        l.len() > 1 && is_ascii_space(l[1])
    } else {
        let p = ascii_digit_run(l);
        &&& p > 0
        &&& p + 1 < l.len()
        &&& l[p] == '.'
        &&& is_ascii_space(l[p + 1])
    }
}

pub fn heading_chars(v: &[char]) -> (r: bool)
    ensures
        r == spec_is_heading(v@),
{
    let (a, _b) = trim_bounds(v);
    a < v.len() && v[a] == '#'
}

pub fn blank_chars(v: &[char]) -> (r: bool)
    ensures
        r == spec_is_blank(v@),
{
    let (a, b) = trim_bounds(v);
    a == b
}

pub fn list_chars(v: &[char]) -> (r: bool)
    ensures
        r == spec_is_list(v@),
{
    let (a, _b) = trim_bounds(v);
    let ghost l = v@.skip(a as int);
    if a < v.len() && (v[a] == '-' || v[a] == '*') {
        return a + 1 < v.len() && char_is_ascii_space(v[a + 1]);
    }
    let mut i: usize = a;
    while i < v.len() && char_is_ascii_digit(v[i])
        invariant
            a <= i <= v.len(),
            l == v@.skip(a as int),
            forall|j: int| a <= j < i ==> is_ascii_digit(#[trigger] v@[j]),
        decreases v.len() - i,
    {
        i = i + 1;
    }
    proof {
        assert forall|j: int| 0 <= j < i - a implies is_ascii_digit(#[trigger] l[j]) by {
            assert(l[j] == v@[j + a]);
        }
        lemma_ascii_digit_run_at(l, i - a);
    }
    i > a && i < v.len() && i + 1 < v.len() && v[i] == '.' && char_is_ascii_space(v[i + 1])
}

/// Check: the line is a Markdown heading.
pub fn is_heading(line: &str) -> (r: bool)
    ensures
        r == spec_is_heading(line@),
{
    heading_chars(&chars_of(line))
}

/// Check: the line is blank.
pub fn is_blank(line: &str) -> (r: bool)
    ensures
        r == spec_is_blank(line@),
{
    blank_chars(&chars_of(line))
}

/// Check: the line is a bullet or numbered list item.
pub fn is_list(line: &str) -> (r: bool)
    ensures
        r == spec_is_list(line@),
{
    list_chars(&chars_of(line))
}

} // verus!

verus! {

/// First index `>= i` whose line is a heading, or `ls.len()`.
pub open spec fn next_heading(ls: Seq<Seq<char>>, i: int) -> int
    decreases ls.len() - i,
{
    if i < 0 || i >= ls.len() {
        ls.len() as int
    } else if spec_is_heading(ls[i]) {
        i
    } else {
        next_heading(ls, i + 1)
    }
}

/// First index `>= i` whose line is not blank, or `ls.len()`.
pub open spec fn next_nonblank(ls: Seq<Seq<char>>, i: int) -> int
    decreases ls.len() - i,
{
    if i < 0 || i >= ls.len() {
        ls.len() as int
    } else if !spec_is_blank(ls[i]) {
        i
    } else {
        next_nonblank(ls, i + 1)
    }
}

/// Last index `< i` whose trimmed line equals `target`, or `-1`.
pub open spec fn last_trimmed_eq(ls: Seq<Seq<char>>, i: int, target: Seq<char>) -> int
    decreases i,
{
    if i <= 0 || i > ls.len() {
        -1
    } else if trim(ls[i - 1]) == target {
        i - 1
    } else {
        last_trimmed_eq(ls, i - 1, target)
    }
}

pub proof fn lemma_next_heading_bounds(ls: Seq<Seq<char>>, i: int)
    requires
        0 <= i <= ls.len(),
    ensures
        i <= next_heading(ls, i) <= ls.len(),
        next_heading(ls, i) < ls.len() ==> spec_is_heading(ls[next_heading(ls, i)]),
        forall|j: int| i <= j < next_heading(ls, i) ==> !spec_is_heading(#[trigger] ls[j]),
    decreases ls.len() - i,
{
    if i < ls.len() && !spec_is_heading(ls[i]) {
        lemma_next_heading_bounds(ls, i + 1);
    }
}

pub proof fn lemma_next_nonblank_bounds(ls: Seq<Seq<char>>, i: int)
    requires
        0 <= i <= ls.len(),
    ensures
        i <= next_nonblank(ls, i) <= ls.len(),
        next_nonblank(ls, i) < ls.len() ==> !spec_is_blank(ls[next_nonblank(ls, i)]),
        forall|j: int| i <= j < next_nonblank(ls, i) ==> spec_is_blank(#[trigger] ls[j]),
    decreases ls.len() - i,
{
    if i < ls.len() && spec_is_blank(ls[i]) {
        lemma_next_nonblank_bounds(ls, i + 1);
    }
}

pub proof fn lemma_last_trimmed_eq_bounds(ls: Seq<Seq<char>>, i: int, target: Seq<char>)
    requires
        0 <= i <= ls.len(),
    ensures
        -1 <= last_trimmed_eq(ls, i, target) < i,
        last_trimmed_eq(ls, i, target) >= 0 ==> trim(ls[last_trimmed_eq(ls, i, target)])
            == target,
        forall|j: int|
            last_trimmed_eq(ls, i, target) < j < i ==> trim(#[trigger] ls[j]) != target,
    decreases i,
{
    if i > 0 && trim(ls[i - 1]) != target {
        lemma_last_trimmed_eq_bounds(ls, i - 1, target);
    }
}

/// A heading is never blank.
pub proof fn lemma_heading_not_blank(s: Seq<char>)
    requires
        spec_is_heading(s),
    ensures
        !spec_is_blank(s),
{
    let l = trim_start(s);
    lemma_trim_end_keeps_first(l);
}

/// Trimming the end of a sequence that starts with a non-space keeps that start.
pub proof fn lemma_trim_end_keeps_first(l: Seq<char>)
    requires
        l.len() > 0,
        !is_space(l[0]),
    ensures
        trim_end(l).len() > 0,
        trim_end(l)[0] == l[0],
    decreases l.len(),
{
    if is_space(l.last()) {
        assert(l.len() > 1);
        lemma_trim_end_keeps_first(l.drop_last());
    }
}

pub proof fn lemma_trim_start_not_space(s: Seq<char>)
    ensures
        trim_start(s).len() > 0 ==> !is_space(trim_start(s)[0]),
    decreases s.len(),
{
    if s.len() > 0 && is_space(s[0]) {
        lemma_trim_start_not_space(s.drop_first());
    }
}

/// A list item is never a heading and never blank.
pub proof fn lemma_list_not_heading(s: Seq<char>)
    requires
        spec_is_list(s),
    ensures
        !spec_is_heading(s),
        !spec_is_blank(s),
{
    let l = trim_start(s);
    lemma_trim_start_not_space(s);
    if !(l[0] == '-' || l[0] == '*') {
        let p = ascii_digit_run(l);
        lemma_ascii_digit_run_first(l);
    }
    lemma_trim_end_keeps_first(l);
}

pub proof fn lemma_ascii_digit_run_first(s: Seq<char>)
    ensures
        ascii_digit_run(s) > 0 ==> s.len() > 0 && is_ascii_digit(s[0]),
{
}

/// Index of the last line whose trimmed text equals `target`.
pub fn rposition_trimmed(lines: &Vec<String>, target: &[char]) -> (r: Option<usize>)
    ensures
        match r {
            Some(i) => i < lines@.len() && i == last_trimmed_eq(
                views(lines@),
                lines@.len() as int,
                target@,
            ),
            None => last_trimmed_eq(views(lines@), lines@.len() as int, target@) == -1,
        },
{
    let ghost ls = views(lines@);
    let mut i: usize = lines.len();
    while i > 0
        invariant
            i <= lines.len(),
            ls == views(lines@),
            last_trimmed_eq(ls, i as int, target@) == last_trimmed_eq(
                ls,
                lines@.len() as int,
                target@,
            ),
        decreases i,
    {
        let t = trim_chars(&chars_of(lines[i - 1].as_str()));
        assert(ls[i - 1] == lines@[i - 1]@);
        if chars_eq(&t, target) {
            return Some(i - 1);
        }
        i = i - 1;
    }
    None
}

} // verus!
