//! `--last-edit`: finding the memo that was inserted last and rewriting it.
use vstd::prelude::*;
use crate::add::{formatted_message, render_message, stamp_pattern, with_modified};
use crate::datalog::opt_str;
use crate::frontmatter::lemma_outcome_with_field;
use crate::clock::{local_now, Moment};
use crate::config::{check_command_exists, opt_view, opt_views, CommandView, Config};
use crate::error::QwaError;
use crate::frontmatter::update_frontmatter_field_at;
use crate::grammar::{entry_prefix_len, scan_entry_prefix};
use crate::markdown::{
    blank_chars, heading_chars, last_trimmed_eq, lemma_last_trimmed_eq_bounds,
    lemma_next_heading_bounds, list_chars, next_heading, rposition_trimmed, spec_is_blank,
    spec_is_heading, spec_is_list,
};
use crate::add::find_next_heading;
use crate::paths::{render_at, rendered};
use crate::tags::{combine_tags, combined_tags, render_tag_prefix, tag_prefix};
use vstd::string::StringExecFns;
use crate::text::{chars_eq, chars_of, extend_chars, string_of, sub_chars, trim, trim_chars, views};

verus! {

/// First index in `[i, to)` holding a list item, or `to`.
pub open spec fn first_list_in(ls: Seq<Seq<char>>, i: int, to: int) -> int
    decreases to - i,
{
    if i < 0 || i >= to || to > ls.len() {
        to
    } else if spec_is_list(ls[i]) {
        i
    } else {
        first_list_in(ls, i + 1, to)
    }
}

/// Last index in `[from, i)` holding a list item, or `-1`.
pub open spec fn last_list_in(ls: Seq<Seq<char>>, from: int, i: int) -> int
    decreases i - from,
{
    if i <= from || i > ls.len() || from < 0 {
        -1
    } else if spec_is_list(ls[i - 1]) {
        i - 1
    } else {
        last_list_in(ls, from, i - 1)
    }
}

/// The line can stand for a memo when no list item is found: it is not
/// blank, not a heading and not `---`.
pub open spec fn editable(l: Seq<char>) -> bool {
    !spec_is_blank(l) && !spec_is_heading(l) && trim(l) != seq!['-', '-', '-']
}

/// Last index below `i` holding an editable line, or `-1`.
pub open spec fn last_editable(ls: Seq<Seq<char>>, i: int) -> int
    decreases i,
{
    if i <= 0 || i > ls.len() {
        -1
    } else if editable(ls[i - 1]) {
        i - 1
    } else {
        last_editable(ls, i - 1)
    }
}

/// Where the last memo was inserted, before falling back: with an anchor,
/// the first (or, with `end_line`, last) list item of the anchor's section;
/// without one, the first list item after the frontmatter (or, with
/// `end_line`, the last list item of the file).  `-1` when there is none.
pub open spec fn primary_target(ls: Seq<Seq<char>>, anchor: Option<Seq<char>>, end_line: bool) -> int {
    let n = ls.len() as int;
    match anchor {
        Some(t) => {
            let a = last_trimmed_eq(ls, n, t);
            let h = next_heading(ls, a + 1);
            if !end_line {
                let f = first_list_in(ls, a + 1, h);
                if f < h {
                    f
                } else {
                    -1
                }
            } else {
                last_list_in(ls, a + 1, h)
            }
        },
        None => {
            if !end_line {
                let start = last_trimmed_eq(ls, n, seq!['-', '-', '-']) + 1;
                let f = first_list_in(ls, start, n);
                if f < n {
                    f
                } else {
                    -1
                }
            } else {
                last_list_in(ls, 0, n)
            }
        },
    }
}

/// The line `--last-edit` rewrites: the primary target, else the last
/// editable line; `-1` when there is none.
pub open spec fn spec_last_inserted(ls: Seq<Seq<char>>, anchor: Option<Seq<char>>, end_line: bool) -> int {
    let p = primary_target(ls, anchor, end_line);
    if p >= 0 {
        p
    } else {
        last_editable(ls, ls.len() as int)
    }
}

pub proof fn lemma_first_list_in(ls: Seq<Seq<char>>, i: int, to: int)
    requires
        0 <= i <= to <= ls.len(),
    ensures
        i <= first_list_in(ls, i, to) <= to,
        first_list_in(ls, i, to) < to ==> spec_is_list(ls[first_list_in(ls, i, to)]),
    decreases to - i,
{
    if i < to && !spec_is_list(ls[i]) {
        lemma_first_list_in(ls, i + 1, to);
    }
}

pub proof fn lemma_last_list_in(ls: Seq<Seq<char>>, from: int, i: int)
    requires
        0 <= from <= i <= ls.len(),
    ensures
        last_list_in(ls, from, i) == -1 || (from <= last_list_in(ls, from, i) < i && spec_is_list(
            ls[last_list_in(ls, from, i)],
        )),
    decreases i - from,
{
    if i > from && !spec_is_list(ls[i - 1]) {
        lemma_last_list_in(ls, from, i - 1);
    }
}

pub proof fn lemma_last_editable(ls: Seq<Seq<char>>, i: int)
    requires
        0 <= i <= ls.len(),
    ensures
        -1 <= last_editable(ls, i) < i,
    decreases i,
{
    if i > 0 && !editable(ls[i - 1]) {
        lemma_last_editable(ls, i - 1);
    }
}

fn is_list_at(lines: &Vec<String>, i: usize) -> (r: bool)
    requires
        i < lines.len(),
    ensures
        r == spec_is_list(views(lines@)[i as int]),
{
    list_chars(&chars_of(lines[i].as_str()))
}

fn first_list_between(lines: &Vec<String>, from: usize, to: usize) -> (r: usize)
    requires
        from <= to <= lines.len(),
    ensures
        r == first_list_in(views(lines@), from as int, to as int),
{
    let ghost ls = views(lines@);
    let mut i = from;
    while i < to && !is_list_at(lines, i)
        invariant
            from <= i <= to <= lines.len(),
            ls == views(lines@),
            first_list_in(ls, i as int, to as int) == first_list_in(ls, from as int, to as int),
        decreases to - i,
    {
        i = i + 1;
    }
    i
}

fn last_list_between(lines: &Vec<String>, from: usize, to: usize) -> (r: Option<usize>)
    requires
        from <= to <= lines.len(),
    ensures
        match r {
            Some(k) => k as int == last_list_in(views(lines@), from as int, to as int) && k < to,
            None => last_list_in(views(lines@), from as int, to as int) == -1,
        },
{
    let ghost ls = views(lines@);
    let mut i = to;
    while i > from && !is_list_at(lines, i - 1)
        invariant
            from <= i <= to <= lines.len(),
            ls == views(lines@),
            last_list_in(ls, from as int, i as int) == last_list_in(ls, from as int, to as int),
        decreases i,
    {
        i = i - 1;
    }
    if i > from {
        Some(i - 1)
    } else {
        None
    }
}

fn is_editable_at(lines: &Vec<String>, i: usize) -> (r: bool)
    requires
        i < lines.len(),
    ensures
        r == editable(views(lines@)[i as int]),
{
    let v = chars_of(lines[i].as_str());
    let t = trim_chars(&v);
    !blank_chars(&v) && !heading_chars(&v) && !chars_eq(&t, &vec!['-', '-', '-'])
}

/// The line `--last-edit` rewrites, as `spec_last_inserted` states; an
/// anchor that is not in the file is an error.
pub fn find_last_inserted_index(lines: &Vec<String>, anchor: Option<&str>, end_line: bool) -> (r: Result<usize, QwaError>)
    ensures
        ({
            let ls = views(lines@);
            let missing = match anchor {
                Some(t) => last_trimmed_eq(ls, ls.len() as int, t@) == -1,
                None => false,
            };
            let av = match anchor {
                Some(t) => Some(t@),
                None => None,
            };
            match r {
                Ok(i) => !missing && i == spec_last_inserted(ls, av, end_line) && i < ls.len(),
                Err(QwaError::InsertLineNotFound(t)) => missing && anchor is Some && t@ == anchor->0@,
                Err(QwaError::NoEntryToEdit) => !missing && spec_last_inserted(ls, av, end_line) == -1,
                Err(_) => false,
            }
        }),
{
    let ghost ls = views(lines@);
    let n = lines.len();
    let primary: Option<usize> = match anchor {
        Some(text) => {
            let target = chars_of(text);
            let a = match rposition_trimmed(lines, &target) {
                Some(a) => a,
                None => return Err(QwaError::InsertLineNotFound(string_of(&target))),
            };
            assert(a < n);
            let h = find_next_heading(lines, a + 1);
            proof {
                lemma_next_heading_bounds(ls, a + 1);
            }
            if !end_line {
                let f = first_list_between(lines, a + 1, h);
                if f < h {
                    Some(f)
                } else {
                    None
                }
            } else {
                last_list_between(lines, a + 1, h)
            }
        },
        None => {
            let rule = vec!['-', '-', '-'];
            let start = match rposition_trimmed(lines, &rule) {
                Some(k) => k + 1,
                None => 0,
            };
            if !end_line {
                let f = first_list_between(lines, start, n);
                if f < n {
                    Some(f)
                } else {
                    None
                }
            } else {
                last_list_between(lines, 0, n)
            }
        },
    };
    proof {
        let av = match anchor {
            Some(t) => Some(t@),
            None => None,
        };
        match primary {
            Some(p) => {
                assert(p as int == primary_target(ls, av, end_line));
            },
            None => {
                assert(primary_target(ls, av, end_line) == -1);
            },
        }
    }
    if let Some(p) = primary {
        return Ok(p);
    }
    let mut i = n;
    while i > 0 && !is_editable_at(lines, i - 1)
        invariant
            i <= n == lines.len(),
            ls == views(lines@),
            last_editable(ls, i as int) == last_editable(ls, n as int),
        decreases i,
    {
        i = i - 1;
    }
    if i > 0 {
        Ok(i - 1)
    } else {
        Err(QwaError::NoEntryToEdit)
    }
}


// ---------------------------------------------------------------------------
// Rewriting the line
// ---------------------------------------------------------------------------

/// The rewritten line: the target's prefix (indentation, marker, checkbox,
/// clock) kept, followed by the `#tag` prefix and the new message; a target
/// without a list marker becomes a `- ` item.
pub open spec fn edited_line(target: Seq<char>, tags: Seq<Seq<char>>, message: Seq<char>, link: Option<Seq<char>>) -> Seq<char> {
    let body = tag_prefix(tags) + formatted_message(message, link);
    match entry_prefix_len(target) {
        Some(m) => target.take(m) + body,
        None => seq!['-', ' '] + body,
    }
}

/// The file's lines after `--last-edit` at `now`; `None` where the command
/// is unknown, the file is empty, the anchor pattern does not render or is
/// not in the file, or there is no line to rewrite.  A failing
/// modified-field update leaves the rewritten lines as they are.
pub open spec fn spec_edit(
    config: crate::config::ConfigView,
    command_name: Seq<char>,
    ls: Seq<Seq<char>>,
    message: Seq<char>,
    link: Option<Seq<char>>,
    extra_tags: Seq<Seq<char>>,
    now: Moment,
) -> Option<Seq<Seq<char>>> {
    if !config.commands.contains_key(command_name) || ls.len() == 0 {
        None
    } else {
        let cmd = config.commands[command_name];
        let anchor = match cmd.insert {
            Some(p) => match rendered(now, p) {
                Some(a) => Some(Some(a)),
                None => None,
            },
            None => Some(None),
        };
        match anchor {
            None => None,
            Some(av) => {
                let missing = match av {
                    Some(t) => last_trimmed_eq(ls, ls.len() as int, t) == -1,
                    None => false,
                };
                let idx = spec_last_inserted(ls, av, cmd.end_line);
                if missing || idx < 0 {
                    None
                } else {
                    let ls1 = ls.update(
                        idx,
                        edited_line(ls[idx], combined_tags(cmd.tags, extra_tags), message, link),
                    );
                    match with_modified(config, ls1, now) {
                        Some(ls2) => Some(ls2),
                        None => Some(ls1),
                    }
                }
            },
        }
    }
}

/// Which error `--last-edit` at `now` reports where `spec_edit` fails:
/// the unknown command; the empty file, named by its path; the anchor
/// pattern that does not render; the anchor line that is not in the file;
/// or that there is no line to rewrite.
pub open spec fn edit_failure(
    config: crate::config::ConfigView,
    command_name: Seq<char>,
    file_path: Seq<char>,
    ls: Seq<Seq<char>>,
    now: Moment,
    e: QwaError,
) -> bool {
    if !config.commands.contains_key(command_name) {
        e matches QwaError::UnknownCommand(n) && n@ == command_name
    } else if ls.len() == 0 {
        e matches QwaError::EmptyFile(p) && p@ == file_path
    } else {
        match config.commands[command_name].insert {
            Some(p) => match rendered(now, p) {
                None => e matches QwaError::InvalidTimeFormat(q) && q@ == p,
                Some(a) => if last_trimmed_eq(ls, ls.len() as int, a) == -1 {
                    e matches QwaError::InsertLineNotFound(t) && t@ == a
                } else {
                    e == QwaError::NoEntryToEdit
                },
            },
            None => e == QwaError::NoEntryToEdit,
        }
    }
}

fn render_edited(target: &[char], tags: &Vec<String>, message: &str, link: Option<&str>) -> (r: Vec<char>)
    ensures
        r@ == edited_line(target@, views(tags@), message@, opt_str(link)),
{
    let mut v: Vec<char> = match scan_entry_prefix(target) {
        Some(m) => {
            let p = sub_chars(target, 0, m);
            assert(p@ =~= target@.take(m as int));
            p
        },
        None => vec!['-', ' '],
    };
    let ghost head = v@;
    extend_chars(&mut v, &render_tag_prefix(tags));
    extend_chars(&mut v, &render_message(message, link));
    assert(v@ =~= head + (tag_prefix(views(tags@)) + formatted_message(message@, opt_str(link))));
    v
}

/// Rewrites the last inserted memo of the command's file (read from
/// `file_path`) at `now`, as `spec_edit` states; a failure reports the
/// error `edit_failure` names.
pub fn edit_last_message_at(
    config: &Config,
    command_name: &str,
    file_path: &str,
    lines: Vec<String>,
    new_message: &str,
    link: Option<&str>,
    clap_tag: &Vec<String>,
    now: &Moment,
) -> (r: Result<Vec<String>, QwaError>)
    requires
        config.wf(),
    ensures
        ({
            let spec = spec_edit(config@, command_name@, views(lines@), new_message@, opt_str(link), views(clap_tag@), *now);
            match r {
                Ok(v) => spec == Some(views(v@)),
                Err(e) => spec is None && edit_failure(config@, command_name@, file_path@, views(lines@), *now, e),
            }
        }),
{
    let command = match check_command_exists(config, command_name) {
        Ok(c) => c,
        Err(e) => return Err(e),
    };
    if lines.len() == 0 {
        return Err(QwaError::EmptyFile(file_path.to_owned()));
    }
    let ghost ls = views(lines@);
    let ghost cmd = config@.commands[command_name@];
    assert(command@ == cmd);
    let anchor: Option<String> = match &command.insert {
        Some(p) => match render_at(now, p) {
            Ok(a) => Some(string_of(&a)),
            Err(e) => return Err(e),
        },
        None => None,
    };
    let target_index = match &anchor {
        Some(a) => find_last_inserted_index(&lines, Some(a.as_str()), command.end_line),
        None => find_last_inserted_index(&lines, None, command.end_line),
    };
    let target_index = match target_index {
        Ok(i) => i,
        Err(e) => return Err(e),
    };
    let tags = combine_tags(&command.tags, clap_tag);
    let target = chars_of(lines[target_index].as_str());
    let new_line = string_of(&render_edited(&target, &tags, new_message, link));
    let mut lines = lines;
    lines.set(target_index, new_line);
    let ghost ls1 = views(lines@);
    assert(ls1 =~= ls.update(target_index as int, edited_line(ls[target_index as int], combined_tags(cmd.tags, views(clap_tag@)), new_message@, opt_str(link))));
    match &config.modified {
        Some(m) => match &m.field {
            Some(field) => {
                let pattern = match &m.format {
                    Some(f) => f.clone(),
                    None => String::from_str("%Y-%m-%d %H:%M:%S"),
                };
                let ghost before = lines@;
                let res = update_frontmatter_field_at(&mut lines, field.as_str(), pattern.as_str(), now);
                proof {
                    lemma_outcome_with_field(before, lines@, field@, pattern@, *now, res);
                }
            },
            None => {},
        },
        None => {},
    }
    Ok(lines)
}

/// `--last-edit` now: `edit_last_message_at` at the current local time.
pub fn edit_last_message(
    config: &Config,
    command_name: &str,
    file_path: &str,
    lines: Vec<String>,
    new_message: &str,
    link: Option<&str>,
    clap_tag: &Vec<String>,
) -> (r: Result<Vec<String>, QwaError>)
    requires
        config.wf(),
    ensures
        exists|now: Moment| {
            let spec = #[trigger] spec_edit(config@, command_name@, views(lines@), new_message@, opt_str(link), views(clap_tag@), now);
            match r {
                Ok(v) => spec == Some(views(v@)),
                Err(e) => spec is None && edit_failure(config@, command_name@, file_path@, views(lines@), now, e),
            }
        },
{
    let now = local_now();
    edit_last_message_at(config, command_name, file_path, lines, new_message, link, clap_tag, &now)
}

} // verus!
