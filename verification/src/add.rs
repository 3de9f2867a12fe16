//! Where a new memo goes in a journal file, and what line it becomes.
use vstd::prelude::*;
use crate::error::QwaError;
use crate::markdown::{
    blank_chars, heading_chars, lemma_heading_not_blank, lemma_next_heading_bounds,
    lemma_next_nonblank_bounds, list_chars, next_heading, next_nonblank, rposition_trimmed,
    last_trimmed_eq, spec_is_blank, spec_is_heading, spec_is_list,
};
use crate::clock::{local_now, Moment};
use crate::datalog::opt_str;
use crate::config::{check_command_exists, opt_view, opt_views, CommandView, Config, ConfigView, StampFieldView};
use crate::frontmatter::{lemma_outcome_with_field, spec_with_field, update_frontmatter_field_at};
use crate::paths::{render_at, rendered};
use crate::tags::{combine_tags, combined_tags, render_tag_prefix, tag_prefix};
use crate::text::{chars_of, extend_chars, string_of, views};
use vstd::string::StringExecFns;

verus! {

/// A line keeps a list block going: it is a list item, or a blank line
/// directly followed by a list item.
pub open spec fn continues_block(ls: Seq<Seq<char>>, i: int) -> bool {
    ||| spec_is_list(ls[i])
    ||| (spec_is_blank(ls[i]) && i + 1 < ls.len() && spec_is_list(ls[i + 1]))
}

/// First index in `[i, stop)` that does not continue the list block, or `stop`.
pub open spec fn block_run_end(ls: Seq<Seq<char>>, i: int, stop: int) -> int
    decreases stop - i,
{
    if i >= stop {
        stop
    } else if continues_block(ls, i) {
        block_run_end(ls, i + 1, stop)
    } else {
        i
    }
}

/// The end of the block that begins at `start`: if the first non-blank line
/// from `start` is a list item, the end of that list (blank lines between
/// list items belong to it), else the next heading (or the end of the file).
pub open spec fn spec_block_end(ls: Seq<Seq<char>>, start: int) -> int {
    let h = next_heading(ls, start);
    let f = next_nonblank(ls, start);
    if f >= ls.len() || !spec_is_list(ls[f]) {
        h
    } else {
        block_run_end(ls, f, h)
    }
}

/// Where a memo is inserted below the anchor line at `anchor`: right after
/// it, or (with `end_line`) at the end of its block.
pub open spec fn spec_insert_index(ls: Seq<Seq<char>>, anchor: int, end_line: bool) -> int {
    if !end_line {
        anchor + 1
    } else {
        spec_block_end(ls, anchor + 1)
    }
}

pub proof fn lemma_block_run_end_bounds(ls: Seq<Seq<char>>, i: int, stop: int)
    requires
        0 <= i <= stop <= ls.len(),
    ensures
        i <= block_run_end(ls, i, stop) <= stop,
        forall|j: int| i <= j < block_run_end(ls, i, stop) ==> continues_block(ls, j),
        block_run_end(ls, i, stop) < stop ==> !continues_block(
            ls,
            block_run_end(ls, i, stop),
        ),
    decreases stop - i,
{
    if i < stop && continues_block(ls, i) {
        lemma_block_run_end_bounds(ls, i + 1, stop);
    }
}

pub proof fn lemma_block_end_bounds(ls: Seq<Seq<char>>, start: int)
    requires
        0 <= start <= ls.len(),
    ensures
        start <= spec_block_end(ls, start) <= next_heading(ls, start) <= ls.len(),
{
    lemma_next_heading_bounds(ls, start);
    lemma_next_nonblank_bounds(ls, start);
    let h = next_heading(ls, start);
    let f = next_nonblank(ls, start);
    if f < ls.len() && spec_is_list(ls[f]) {
        if h < f {
            lemma_heading_not_blank(ls[h]);
        }
        lemma_block_run_end_bounds(ls, f, h);
    }
}

fn line_is_list(lines: &Vec<String>, i: usize) -> (r: bool)
    requires
        i < lines.len(),
    ensures
        r == spec_is_list(views(lines@)[i as int]),
{
    list_chars(&chars_of(lines[i].as_str()))
}

fn line_is_blank(lines: &Vec<String>, i: usize) -> (r: bool)
    requires
        i < lines.len(),
    ensures
        r == spec_is_blank(views(lines@)[i as int]),
{
    blank_chars(&chars_of(lines[i].as_str()))
}

fn line_is_heading(lines: &Vec<String>, i: usize) -> (r: bool)
    requires
        i < lines.len(),
    ensures
        r == spec_is_heading(views(lines@)[i as int]),
{
    heading_chars(&chars_of(lines[i].as_str()))
}

fn line_continues_block(lines: &Vec<String>, i: usize) -> (r: bool)
    requires
        i < lines.len(),
    ensures
        r == continues_block(views(lines@), i as int),
{
    if line_is_list(lines, i) {
        return true;
    }
    line_is_blank(lines, i) && i + 1 < lines.len() && line_is_list(lines, i + 1)
}

/// Index of the first heading at or after `start`, or `lines.len()`.
pub fn find_next_heading(lines: &Vec<String>, start: usize) -> (r: usize)
    requires
        start <= lines.len(),
    ensures
        r == next_heading(views(lines@), start as int),
{
    let ghost ls = views(lines@);
    let mut i = start;
    while i < lines.len()
        invariant
            start <= i <= lines.len(),
            ls == views(lines@),
            next_heading(ls, i as int) == next_heading(ls, start as int),
        decreases lines.len() - i,
    {
        if line_is_heading(lines, i) {
            return i;
        }
        i = i + 1;
    }
    i
}

/// The end of the block that begins at `start`.
pub fn find_block_end(lines: &Vec<String>, start: usize) -> (r: usize)
    requires
        start <= lines.len(),
    ensures
        r == spec_block_end(views(lines@), start as int),
        start <= r <= lines.len(),
{
    let ghost ls = views(lines@);
    proof {
        lemma_block_end_bounds(ls, start as int);
        lemma_next_heading_bounds(ls, start as int);
        lemma_next_nonblank_bounds(ls, start as int);
    }
    let next_heading_index = find_next_heading(lines, start);
    let mut first = start;
    while first < lines.len() && line_is_blank(lines, first)
        invariant
            start <= first <= lines.len(),
            ls == views(lines@),
            next_nonblank(ls, first as int) == next_nonblank(ls, start as int),
        decreases lines.len() - first,
    {
        first = first + 1;
    }
    if first >= lines.len() {
        return next_heading_index;
    }
    if !line_is_list(lines, first) {
        return next_heading_index;
    }
    proof {
        if next_heading_index < first {
            lemma_heading_not_blank(ls[next_heading_index as int]);
        }
    }
    let mut index = first;
    while index < next_heading_index && line_continues_block(lines, index)
        invariant
            first <= index <= next_heading_index <= lines.len(),
            ls == views(lines@),
            block_run_end(ls, index as int, next_heading_index as int) == block_run_end(
                ls,
                first as int,
                next_heading_index as int,
            ),
        decreases next_heading_index - index,
    {
        index = index + 1;
    }
    index
}

/// The index at which a memo goes when an anchor line is configured: the
/// anchor is the last line that equals `insert` once trimmed.
pub fn find_insert_index(lines: &Vec<String>, insert: &str, end_line: bool) -> (r: Result<
    usize,
    QwaError,
>)
    ensures
        ({
            let ls = views(lines@);
            let anchor = last_trimmed_eq(ls, ls.len() as int, insert@);
            match r {
                Ok(i) => anchor >= 0 && i == spec_insert_index(ls, anchor, end_line) && i
                    <= ls.len(),
                Err(QwaError::InsertLineNotFound(text)) => anchor == -1 && text@ == insert@,
                Err(_) => false,
            }
        }),
{
    let target = chars_of(insert);
    match rposition_trimmed(lines, &target) {
        None => Err(QwaError::InsertLineNotFound(string_of(&target))),
        Some(anchor) => {
            let n = lines.len();
            assert(anchor < n);
            proof {
                lemma_block_end_bounds(views(lines@), anchor + 1);
            }
            if !end_line {
                Ok(anchor + 1)
            } else {
                Ok(find_block_end(lines, anchor + 1))
            }
        },
    }
}


// ---------------------------------------------------------------------------
// The memo line and where it goes
// ---------------------------------------------------------------------------

/// The message, as a Markdown link `[message](link)` when a link is given.
pub open spec fn formatted_message(message: Seq<char>, link: Option<Seq<char>>) -> Seq<char> {
    match link {
        Some(l) => seq!['['] + message + seq![']', '('] + l + seq![')'],
        None => message,
    }
}

/// The line of a new memo: `- `, `[ ] ` for a checkbox, the time text, the
/// `#tag` prefix and the message.
pub open spec fn entry_message(
    time: Seq<char>,
    tags: Seq<Seq<char>>,
    message: Seq<char>,
    link: Option<Seq<char>>,
    checkbox: bool,
) -> Seq<char> {
    seq!['-', ' '] + (if checkbox {
        seq!['[', ' ', ']', ' ']
    } else {
        Seq::empty()
    }) + time + tag_prefix(tags) + formatted_message(message, link)
}

/// The lines with the memo placed: under the anchor line (see
/// `spec_insert_index`), or, without an anchor, at the end of the file
/// (`end_line`) or right after the last `---` (else at the top).  `None`
/// when the anchor is not in the file.
pub open spec fn place_entry(ls: Seq<Seq<char>>, entry: Seq<char>, anchor: Option<Seq<char>>, end_line: bool) -> Option<Seq<Seq<char>>> {
    let n = ls.len() as int;
    match anchor {
        Some(t) => {
            let a = last_trimmed_eq(ls, n, t);
            if a < 0 {
                None
            } else {
                Some(ls.insert(spec_insert_index(ls, a, end_line), entry))
            }
        },
        None => if end_line {
            Some(ls.push(entry))
        } else {
            Some(ls.insert(last_trimmed_eq(ls, n, seq!['-', '-', '-']) + 1, entry))
        },
    }
}

pub open spec fn time_pattern(config: ConfigView) -> Seq<char> {
    match config.time_format {
        Some(t) => t,
        None => "%H:%M:%S"@,
    }
}

pub open spec fn stamp_pattern(f: StampFieldView) -> Seq<char> {
    match f.format {
        Some(t) => t,
        None => "%Y-%m-%d %H:%M:%S"@,
    }
}

/// The lines after the modified-field update the configuration asks for.
pub open spec fn with_modified(config: ConfigView, ls: Seq<Seq<char>>, now: Moment) -> Option<Seq<Seq<char>>> {
    match config.modified {
        Some(m) => match m.field {
            Some(f) => spec_with_field(ls, f, stamp_pattern(m), now),
            None => Some(ls),
        },
        None => Some(ls),
    }
}

/// The file's lines after adding a memo at `now`; `None` where the
/// command is unknown, a pattern does not render, the modified field is
/// missing from the frontmatter, or the anchor is not in the file.
pub open spec fn spec_append(
    config: ConfigView,
    command_name: Seq<char>,
    ls: Seq<Seq<char>>,
    message: Seq<char>,
    link: Option<Seq<char>>,
    extra_tags: Seq<Seq<char>>,
    checkbox: bool,
    now: Moment,
) -> Option<Seq<Seq<char>>> {
    if !config.commands.contains_key(command_name) {
        None
    } else {
        let cmd = config.commands[command_name];
        let tags = combined_tags(cmd.tags, extra_tags);
        let time = if cmd.not_format {
            Some(Seq::<char>::empty())
        } else {
            match rendered(now, time_pattern(config)) {
                Some(t) => Some(t + seq![' ']),
                None => None,
            }
        };
        match time {
            None => None,
            Some(tm) => {
                let entry = entry_message(tm, tags, message, link, checkbox);
                match with_modified(config, ls, now) {
                    None => None,
                    Some(ls1) => match cmd.insert {
                        Some(p) => match rendered(now, p) {
                            None => None,
                            Some(anchor) => place_entry(ls1, entry, Some(anchor), cmd.end_line),
                        },
                        None => place_entry(ls1, entry, None, cmd.end_line),
                    },
                }
            },
        }
    }
}

pub fn render_message(message: &str, link: Option<&str>) -> (r: Vec<char>)
    ensures
        r@ == formatted_message(message@, opt_str(link)),
{
    match link {
        Some(l) => {
            let mut v: Vec<char> = Vec::new();
            v.push('[');
            extend_chars(&mut v, &chars_of(message));
            v.push(']');
            v.push('(');
            extend_chars(&mut v, &chars_of(l));
            v.push(')');
            assert(v@ =~= seq!['['] + message@ + seq![']', '('] + l@ + seq![')']);
            v
        },
        None => chars_of(message),
    }
}

fn render_entry(time: &[char], tags: &Vec<String>, message: &str, link: Option<&str>, checkbox: bool) -> (r: Vec<char>)
    ensures
        r@ == entry_message(time@, views(tags@), message@, opt_str(link), checkbox),
{
    let mut v: Vec<char> = Vec::new();
    v.push('-');
    v.push(' ');
    if checkbox {
        v.push('[');
        v.push(' ');
        v.push(']');
        v.push(' ');
    }
    extend_chars(&mut v, time);
    extend_chars(&mut v, &render_tag_prefix(tags));
    extend_chars(&mut v, &render_message(message, link));
    proof {
        let cb = if checkbox {
            seq!['[', ' ', ']', ' ']
        } else {
            Seq::<char>::empty()
        };
        assert(v@ =~= seq!['-', ' '] + cb + time@ + tag_prefix(views(tags@)) + formatted_message(message@, opt_str(link)));
    }
    v
}

/// Places the memo line, as `place_entry` states.
pub fn place_line(lines: &mut Vec<String>, entry: String, anchor: Option<&str>, end_line: bool) -> (r: Result<(), QwaError>)
    ensures
        ({
            let ls = views(old(lines)@);
            let av = match anchor {
                Some(t) => Some(t@),
                None => None,
            };
            match place_entry(ls, entry@, av, end_line) {
                Some(placed) => r is Ok && views(final(lines)@) == placed,
                None => (r matches Err(QwaError::InsertLineNotFound(t)) && t@ == anchor->0@) && final(lines)@ == old(lines)@,
            }
        }),
{
    let ghost ls = views(lines@);
    let ghost prev = lines@;
    match anchor {
        Some(text) => {
            let idx = match find_insert_index(lines, text, end_line) {
                Ok(i) => i,
                Err(e) => return Err(e),
            };
            lines.insert(idx, entry);
            assert(views(lines@) =~= ls.insert(idx as int, entry@));
            Ok(())
        },
        None => {
            if end_line {
                lines.push(entry);
                assert(views(lines@) =~= ls.push(entry@));
            } else {
                let rule = vec!['-', '-', '-'];
                let n = lines.len();
                let idx = match rposition_trimmed(lines, &rule) {
                    Some(k) => {
                        assert(k < n);
                        k + 1
                    },
                    None => 0,
                };
                lines.insert(idx, entry);
                assert(views(lines@) =~= ls.insert(idx as int, entry@));
            }
            Ok(())
        },
    }
}

/// Which error the modified-field update reports where it fails: the
/// stamp pattern that does not render, or the field missing from the
/// frontmatter.
pub open spec fn modified_failure(config: ConfigView, now: Moment, e: QwaError) -> bool {
    match config.modified {
        Some(m) => match m.field {
            Some(f) => match rendered(now, stamp_pattern(m)) {
                None => e matches QwaError::InvalidTimeFormat(p) && p@ == stamp_pattern(m),
                Some(_) => e matches QwaError::FrontmatterFieldNotFound(n) && n@ == f,
            },
            None => false,
        },
        None => false,
    }
}

/// Which error adding a memo at `now` reports where `spec_append` fails,
/// in the order the steps are taken: the unknown command, the time pattern
/// that does not render, the modified-field update, the anchor pattern that
/// does not render, and the anchor line that is not in the file.
pub open spec fn append_failure(
    config: ConfigView,
    command_name: Seq<char>,
    ls: Seq<Seq<char>>,
    now: Moment,
    e: QwaError,
) -> bool {
    if !config.commands.contains_key(command_name) {
        e matches QwaError::UnknownCommand(n) && n@ == command_name
    } else {
        let cmd = config.commands[command_name];
        if !cmd.not_format && rendered(now, time_pattern(config)) is None {
            e matches QwaError::InvalidTimeFormat(p) && p@ == time_pattern(config)
        } else if with_modified(config, ls, now) is None {
            modified_failure(config, now, e)
        } else {
            match cmd.insert {
                Some(p) => match rendered(now, p) {
                    None => e matches QwaError::InvalidTimeFormat(q) && q@ == p,
                    Some(anchor) => e matches QwaError::InsertLineNotFound(t) && t@ == anchor,
                },
                None => false,
            }
        }
    }
}

fn pattern_or(o: &Option<String>, default: &str) -> (r: String)
    ensures
        r@ == match opt_view(*o) {
            Some(t) => t,
            None => default@,
        },
{
    match o {
        Some(t) => t.clone(),
        None => String::from_str(default),
    }
}

/// Adds a memo to the lines of the command's file at `now`, as
/// `spec_append` states; a failure reports the error `append_failure`
/// names.
pub fn append_message_at(
    config: &Config,
    command_name: &str,
    lines: Vec<String>,
    message: &str,
    link: Option<&str>,
    clap_tag: &Vec<String>,
    is_checkbox: bool,
    now: &Moment,
) -> (r: Result<Vec<String>, QwaError>)
    requires
        config.wf(),
    ensures
        ({
            let spec = spec_append(config@, command_name@, views(lines@), message@, opt_str(link), views(clap_tag@), is_checkbox, *now);
            match r {
                Ok(v) => spec == Some(views(v@)),
                Err(e) => spec is None && append_failure(config@, command_name@, views(lines@), *now, e),
            }
        }),
{
    let command = match check_command_exists(config, command_name) {
        Ok(c) => c,
        Err(e) => return Err(e),
    };
    let tags = combine_tags(&command.tags, clap_tag);
    let time: Vec<char> = if command.not_format {
        Vec::new()
    } else {
        let pattern = pattern_or(&config.time_format, "%H:%M:%S");
        match render_at(now, &pattern) {
            Ok(t) => {
                let mut t = t;
                t.push(' ');
                t
            },
            Err(e) => return Err(e),
        }
    };
    let entry = string_of(&render_entry(&time, &tags, message, link, is_checkbox));
    let mut lines = lines;
    let ghost ls0 = views(lines@);
    let ghost cmd = config@.commands[command_name@];
    assert(command@ == cmd);
    assert(views(tags@) == combined_tags(cmd.tags, views(clap_tag@)));
    assert(cmd.not_format ==> time@ == Seq::<char>::empty());
    assert(!cmd.not_format ==> rendered(*now, time_pattern(config@)) == Some(time@.drop_last()) && time@ == time@.drop_last() + seq![' ']);
    assert(entry@ == entry_message(time@, combined_tags(cmd.tags, views(clap_tag@)), message@, opt_str(link), is_checkbox));
    match &config.modified {
        Some(m) => match &m.field {
            Some(field) => {
                let pattern = pattern_or(&m.format, "%Y-%m-%d %H:%M:%S");
                let ghost before = lines@;
                let res = update_frontmatter_field_at(&mut lines, field.as_str(), pattern.as_str(), now);
                proof {
                    lemma_outcome_with_field(before, lines@, field@, pattern@, *now, res);
                }
                if res.is_err() {
                    return Err(res.unwrap_err());
                }
            },
            None => {},
        },
        None => {},
    }
    let placed = match &command.insert {
        Some(p) => {
            let anchor = match render_at(now, p) {
                Ok(a) => string_of(&a),
                Err(e) => return Err(e),
            };
            place_line(&mut lines, entry, Some(anchor.as_str()), command.end_line)
        },
        None => place_line(&mut lines, entry, None, command.end_line),
    };
    assert(with_modified(config@, ls0, *now) is Some);
    match placed {
        Ok(()) => Ok(lines),
        Err(e) => Err(e),
    }
}

/// Adds a memo now: `append_message_at` at the current local time.
pub fn append_message(
    config: &Config,
    command_name: &str,
    lines: Vec<String>,
    message: &str,
    link: Option<&str>,
    clap_tag: &Vec<String>,
    is_checkbox: bool,
) -> (r: Result<Vec<String>, QwaError>)
    requires
        config.wf(),
    ensures
        exists|now: Moment| {
            let spec = #[trigger] spec_append(config@, command_name@, views(lines@), message@, opt_str(link), views(clap_tag@), is_checkbox, now);
            match r {
                Ok(v) => spec == Some(views(v@)),
                Err(e) => spec is None && append_failure(config@, command_name@, views(lines@), now, e),
            }
        },
{
    let now = local_now();
    append_message_at(config, command_name, lines, message, link, clap_tag, is_checkbox, &now)
}

} // verus!
