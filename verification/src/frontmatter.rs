//! YAML frontmatter: updating a date-time field in place.
use vstd::prelude::*;
use vstd::string::StringExecFns;
use crate::clock::{local_now, Moment};
use crate::config::{opt_view, stamp_view_opt, CreatedConfig, StampFieldView};
use crate::error::QwaError;
use crate::paths::{render_at, rendered};
use crate::tags::char_pos;
use crate::tags::lemma_char_pos;
use crate::text::{
    chars_eq, chars_of, extend_chars, join_lines, join_with, lemma_trim_start_at, lines_of,
    split_lines, string_of, sub_chars, trim, trim_bounds, trim_chars, trim_start, views,
};

verus! {

pub open spec fn rule() -> Seq<char> {
    seq!['-', '-', '-']
}

/// First index `>= i` whose trimmed line is `---`, or `ls.len()`.
pub open spec fn next_rule(ls: Seq<Seq<char>>, i: int) -> int
    decreases ls.len() - i,
{
    if i < 0 || i >= ls.len() {
        ls.len() as int
    } else if trim(ls[i]) == rule() {
        i
    } else {
        next_rule(ls, i + 1)
    }
}

/// The index of the closing `---` of the frontmatter, or `-1` when the
/// file does not start with a frontmatter block.
pub open spec fn frontmatter_end(ls: Seq<Seq<char>>) -> int {
    if ls.len() > 0 && trim(ls[0]) == rule() && next_rule(ls, 1) < ls.len() {
        next_rule(ls, 1)
    } else {
        -1
    }
}

/// The line is `key: value` with the key (trimmed) equal to `field`.
pub open spec fn is_field_line(line: Seq<char>, field: Seq<char>) -> bool {
    let t = trim_start(line);
    let k = char_pos(t, ':');
    k < t.len() && trim(t.take(k)) == field
}

/// First index in `[i, to)` holding the field, or `to`.
pub open spec fn next_field(ls: Seq<Seq<char>>, i: int, to: int, field: Seq<char>) -> int
    decreases to - i,
{
    if i < 0 || i >= to {
        to
    } else if is_field_line(ls[i], field) {
        i
    } else {
        next_field(ls, i + 1, to, field)
    }
}

/// The line with the field's value replaced, keeping its indentation.
pub open spec fn field_line(line: Seq<char>, field: Seq<char>, value: Seq<char>) -> Seq<char> {
    line.take(line.len() - trim_start(line).len()) + field + seq![':', ' '] + value
}

pub proof fn lemma_next_rule(ls: Seq<Seq<char>>, i: int)
    requires
        0 <= i <= ls.len(),
    ensures
        i <= next_rule(ls, i) <= ls.len(),
    decreases ls.len() - i,
{
    if i < ls.len() && trim(ls[i]) != rule() {
        lemma_next_rule(ls, i + 1);
    }
}

pub proof fn lemma_next_field(ls: Seq<Seq<char>>, i: int, to: int, field: Seq<char>)
    requires
        0 <= i <= to,
    ensures
        i <= next_field(ls, i, to, field) <= to,
    decreases to - i,
{
    if i < to && !is_field_line(ls[i], field) {
        lemma_next_field(ls, i + 1, to, field);
    }
}

/// The lines after updating the field, or `None` where that is an error.
pub open spec fn spec_with_field(ls: Seq<Seq<char>>, field: Seq<char>, pattern: Seq<char>, now: Moment) -> Option<Seq<Seq<char>>> {
    let end = frontmatter_end(ls);
    let f = next_field(ls, 1, end, field);
    if end < 0 {
        Some(ls)
    } else {
        match rendered(now, pattern) {
            None => None,
            Some(v) => if f < end {
                Some(ls.update(f, field_line(ls[f], field, v)))
            } else {
                None
            },
        }
    }
}

pub proof fn lemma_outcome_with_field(
    before: Seq<String>,
    after: Seq<String>,
    field: Seq<char>,
    pattern: Seq<char>,
    now: Moment,
    r: Result<(), QwaError>,
)
    requires
        frontmatter_outcome(before, after, field, pattern, now, r),
    ensures
        r is Ok <==> spec_with_field(views(before), field, pattern, now) is Some,
        r is Ok ==> spec_with_field(views(before), field, pattern, now) == Some(views(after)),
        r is Err ==> after == before,
{
}

/// What updating the field does: nothing without frontmatter; an error
/// when the pattern does not render or the field is missing; else the
/// field's first line rewritten.
pub open spec fn frontmatter_outcome(
    before: Seq<String>,
    after: Seq<String>,
    field: Seq<char>,
    pattern: Seq<char>,
    now: Moment,
    r: Result<(), QwaError>,
) -> bool {
    let ls = views(before);
    let end = frontmatter_end(ls);
    let f = next_field(ls, 1, end, field);
    if end < 0 {
        r is Ok && after == before
    } else {
        match rendered(now, pattern) {
            None => (r matches Err(QwaError::InvalidTimeFormat(p)) && p@ == pattern) && after
                == before,
            Some(v) => if f < end {
                r is Ok && views(after) == ls.update(f, field_line(ls[f], field, v))
            } else {
                (r matches Err(QwaError::FrontmatterFieldNotFound(n)) && n@ == field) && after
                    == before
            },
        }
    }
}

fn line_is_rule(lines: &Vec<String>, i: usize, rule_chars: &Vec<char>) -> (r: bool)
    requires
        i < lines.len(),
        rule_chars@ == rule(),
    ensures
        r == (trim(views(lines@)[i as int]) == rule()),
{
    let t = trim_chars(&chars_of(lines[i].as_str()));
    chars_eq(&t, rule_chars)
}

fn line_has_field(line: &[char], field: &[char]) -> (r: bool)
    ensures
        r == is_field_line(line@, field@),
{
    let (a, _b) = trim_bounds(line);
    let t = sub_chars(line, a, line.len());
    let mut k: usize = 0;
    while k < t.len() && t[k] != ':'
        invariant
            k <= t.len(),
            forall|j: int| 0 <= j < k ==> t@[j] != ':',
        decreases t.len() - k,
    {
        k = k + 1;
    }
    proof {
        crate::tags::lemma_char_pos_at(t@, ':', k as int);
    }
    if k >= t.len() {
        return false;
    }
    let key = trim_chars(&sub_chars(&t, 0, k));
    assert(t@.subrange(0, k as int) =~= t@.take(k as int));
    chars_eq(&key, field)
}

fn render_field_line(line: &[char], field: &[char], value: &[char]) -> (r: Vec<char>)
    ensures
        r@ == field_line(line@, field@, value@),
{
    let (a, _b) = trim_bounds(line);
    let mut v = sub_chars(line, 0, a);
    extend_chars(&mut v, field);
    v.push(':');
    v.push(' ');
    extend_chars(&mut v, value);
    proof {
        assert(trim_start(line@).len() == line@.len() - a);
        assert(v@ =~= field_line(line@, field@, value@));
    }
    v
}

/// Sets the frontmatter field `field_name` to `now` rendered with
/// `format_pattern`.  A file without frontmatter is left as it is; a
/// frontmatter without the field is an error.  Only the first line of the
/// field changes, and it keeps its indentation.
pub fn update_frontmatter_field_at(
    lines: &mut Vec<String>,
    field_name: &str,
    format_pattern: &str,
    now: &Moment,
) -> (r: Result<(), QwaError>)
    ensures
        frontmatter_outcome(old(lines)@, final(lines)@, field_name@, format_pattern@, *now, r),
{
    let ghost ls = views(lines@);
    let rule_chars = vec!['-', '-', '-'];
    if lines.len() == 0 {
        return Ok(());
    }
    let first = trim_chars(&chars_of(lines[0].as_str()));
    if !chars_eq(&first, &rule_chars) {
        return Ok(());
    }
    let mut end: usize = 1;
    proof {
        lemma_next_rule(ls, 1);
    }
    while end < lines.len() && !line_is_rule(lines, end, &rule_chars)
        invariant
            1 <= end <= lines.len(),
            ls == views(lines@),
            rule_chars@ == rule(),
            next_rule(ls, end as int) == next_rule(ls, 1),
        decreases lines.len() - end,
    {
        end = end + 1;
    }
    if end >= lines.len() {
        return Ok(());
    }
    let pattern = string_of(&chars_of(format_pattern));
    let value = match render_at(now, &pattern) {
        Ok(v) => v,
        Err(e) => return Err(e),
    };
    let field = chars_of(field_name);
    let mut i: usize = 1;
    proof {
        lemma_next_field(ls, 1, end as int, field@);
    }
    assert(first@ == trim(ls[0]));
    assert(end as int == frontmatter_end(ls));
    while i < end
        invariant
            1 <= i <= end < lines.len(),
            ls == views(lines@),
            lines@ == old(lines)@,
            end as int == frontmatter_end(ls),
            field@ == field_name@,
            rendered(*now, format_pattern@) == Some(value@),
            next_field(ls, i as int, end as int, field@) == next_field(ls, 1, end as int, field@),
        decreases end - i,
    {
        let line = chars_of(lines[i].as_str());
        assert(ls[i as int] == line@);
        if line_has_field(&line, &field) {
            let new_line = string_of(&render_field_line(&line, &field, &value));
            let ghost prev = lines@;
            lines.set(i, new_line);
            proof {
                assert(views(lines@) =~= ls.update(i as int, field_line(ls[i as int], field_name@, value@)));
            }
            return Ok(());
        }
        i = i + 1;
    }
    Err(QwaError::FrontmatterFieldNotFound(string_of(&field)))
}

/// As `update_frontmatter_field_at`, at the current local time.
pub fn update_frontmatter_field(lines: &mut Vec<String>, field_name: &str, format_pattern: &str) -> (r: Result<(), QwaError>)
    ensures
        exists|now: Moment| #[trigger] frontmatter_outcome(old(lines)@, final(lines)@, field_name@, format_pattern@, now, r),
{
    let now = local_now();
    update_frontmatter_field_at(lines, field_name, format_pattern, &now)
}

/// The pattern a creation stamp is written with: the configured one, else
/// `%Y-%m-%d %H:%M:%S`.
pub open spec fn created_pattern(format: Option<Seq<char>>) -> Seq<char> {
    match format {
        Some(f) => f,
        None => seq!['%', 'Y', '-', '%', 'm', '-', '%', 'd', ' ', '%', 'H', ':', '%', 'M', ':', '%', 'S'],
    }
}

/// What stamping a newly created file gives: with no `created` field
/// configured it stays as it is (`Ok(None)`); else its lines with the field
/// set to `now` (as `spec_with_field` states), joined by `'\n'`; where the
/// update fails, `InvalidTimeFormat` for a pattern that does not render,
/// else `FrontmatterFieldNotFound` for the field.
pub open spec fn created_outcome(
    contents: Seq<char>,
    created: Option<StampFieldView>,
    now: Moment,
    r: Result<Option<String>, QwaError>,
) -> bool {
    match created {
        Some(c) => match c.field {
            Some(f) => match spec_with_field(lines_of(contents), f, created_pattern(c.format), now) {
                Some(ls) => r matches Ok(Some(s)) && s@ == join_with(ls, seq!['\n']),
                None => match rendered(now, created_pattern(c.format)) {
                    None => r matches Err(QwaError::InvalidTimeFormat(p)) && p@ == created_pattern(c.format),
                    Some(_) => r matches Err(QwaError::FrontmatterFieldNotFound(n)) && n@ == f,
                },
            },
            None => r == Ok::<Option<String>, QwaError>(None),
        },
        None => r == Ok::<Option<String>, QwaError>(None),
    }
}

/// Stamps a newly created file at `now`, as `created_outcome` states.
pub fn stamp_created_at(contents: &str, created: &Option<CreatedConfig>, now: &Moment) -> (r: Result<Option<String>, QwaError>)
    ensures
        created_outcome(contents@, stamp_view_opt(*created), *now, r),
{
    match created {
        Some(c) => match &c.field {
            Some(field) => {
                let pattern = match &c.format {
                    Some(f) => f.clone(),
                    None => String::from_str("%Y-%m-%d %H:%M:%S"),
                };
                proof {
                    reveal_strlit("%Y-%m-%d %H:%M:%S");
                }
                assert(pattern@ == created_pattern(opt_view(c.format)));
                let mut lines = split_lines(contents);
                let ghost before = lines@;
                let res = update_frontmatter_field_at(&mut lines, field.as_str(), pattern.as_str(), now);
                proof {
                    lemma_outcome_with_field(before, lines@, field@, pattern@, *now, res);
                }
                match res {
                    Ok(()) => Ok(Some(join_lines(&lines))),
                    Err(e) => Err(e),
                }
            },
            None => Ok(None),
        },
        None => Ok(None),
    }
}

/// Stamps a newly created file at the current local time.
pub fn stamp_created(contents: &str, created: &Option<CreatedConfig>) -> (r: Result<Option<String>, QwaError>)
    ensures
        exists|now: Moment| #[trigger] created_outcome(contents@, stamp_view_opt(*created), now, r),
{
    let now = local_now();
    stamp_created_at(contents, created, &now)
}

} // verus!
