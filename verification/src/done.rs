//! Open tasks: finding them in journal files, ordering them, picking one by
//! its place in the list, and ticking its checkbox.
use vstd::prelude::*;
use crate::clock::{clock_value, parse_clock_text, time_le, time_or_midnight, Time};
use crate::error::QwaError;
use crate::datalog::{is_fence, is_quote, is_rule, later_than, time_key};
use crate::grammar::{parse_entry, scan_entry};
use crate::list::{chars_lex_lt, lex_lt};
use crate::markdown::{blank_chars, heading_chars, spec_is_blank, spec_is_heading};
use crate::tags::{message_matches_tags, spec_matches_tags};
use crate::text::{
    chars_eq, chars_of, chars_start_with, join_lines, join_with, lines_of, split_lines, string_of,
    sub_chars, trim, trim_chars, views,
};

verus! {

/// An open task of a journal file: its date, file, line (from 0) and time.
#[derive(Debug, Clone)]
pub struct TaskEntry {
    pub date_stamp: String,
    pub file_path: String,
    pub line_number: usize,
    pub timestamp: Option<Time>,
}

pub struct TaskView {
    pub date_stamp: Seq<char>,
    pub file_path: Seq<char>,
    pub line_number: int,
    pub timestamp: Option<Time>,
}

impl View for TaskEntry {
    type V = TaskView;

    open spec fn view(&self) -> TaskView {
        TaskView {
            date_stamp: self.date_stamp@,
            file_path: self.file_path@,
            line_number: self.line_number as int,
            timestamp: self.timestamp,
        }
    }
}

pub open spec fn task_views(v: Seq<TaskEntry>) -> Seq<TaskView> {
    v.map_values(|t: TaskEntry| t@)
}

/// The state of a pass over a file looking for tasks.  Once a fence opens a
/// code block, only a `---` line ends it.
pub struct TaskScan {
    pub in_frontmatter: bool,
    pub in_code_block: bool,
    pub tasks: Seq<TaskView>,
}

/// One line of the pass: a line that the entry grammar without `--all`
/// reads with a checkbox (a clock is then optional), and whose message
/// passes the tag filters, is a task.
pub open spec fn task_step(
    st: TaskScan,
    line: Seq<char>,
    n: int,
    stamp: Seq<char>,
    path: Seq<char>,
    filters: Seq<Seq<char>>,
) -> TaskScan {
    let t = trim(line);
    if is_rule(t) {
        TaskScan { in_frontmatter: !st.in_frontmatter, in_code_block: false, tasks: st.tasks }
    } else if st.in_frontmatter || st.in_code_block {
        st
    } else if is_fence(t) {
        TaskScan { in_frontmatter: st.in_frontmatter, in_code_block: !st.in_code_block, tasks: st.tasks }
    } else if spec_is_blank(t) || spec_is_heading(t) || is_quote(t) {
        st
    } else {
        match parse_entry(line, false) {
            Some(p) => if p.checkbox is Some && spec_matches_tags(p.message, filters) {
                TaskScan {
                    in_frontmatter: st.in_frontmatter,
                    in_code_block: st.in_code_block,
                    tasks: st.tasks.push(
                        TaskView {
                            date_stamp: stamp,
                            file_path: path,
                            line_number: n,
                            timestamp: match p.clock {
                                Some(c) => clock_value(c),
                                None => None,
                            },
                        },
                    ),
                }
            } else {
                st
            },
            None => st,
        }
    }
}

pub open spec fn task_scan(ls: Seq<Seq<char>>, stamp: Seq<char>, path: Seq<char>, filters: Seq<Seq<char>>) -> TaskScan
    decreases ls.len(),
{
    if ls.len() == 0 {
        TaskScan { in_frontmatter: false, in_code_block: false, tasks: Seq::empty() }
    } else {
        task_step(task_scan(ls.drop_last(), stamp, path, filters), ls.last(), ls.len() - 1, stamp, path, filters)
    }
}

/// Collect: the tasks of one file, as `task_scan` states.
pub fn task_entries_in_file(
    contents: &str,
    date_stamp: &str,
    file_path: &str,
    tag_filters: &Vec<String>,
) -> (r: Vec<TaskEntry>)
    ensures
        task_views(r@) == task_scan(lines_of(contents@), date_stamp@, file_path@, views(tag_filters@)).tasks,
{
    let lines = split_lines(contents);
    let ghost ls = views(lines@);
    let ghost fs = views(tag_filters@);
    let mut in_frontmatter = false;
    let mut in_code_block = false;
    let mut tasks: Vec<TaskEntry> = Vec::new();
    let rule = vec!['-', '-', '-'];
    let fence = vec!['`', '`', '`'];
    let mut i: usize = 0;
    assert(ls.take(0) =~= Seq::<Seq<char>>::empty());
    assert(task_views(tasks@) =~= Seq::<TaskView>::empty());
    while i < lines.len()
        invariant
            i <= lines.len(),
            ls == views(lines@),
            ls == lines_of(contents@),
            fs == views(tag_filters@),
            rule@ == seq!['-', '-', '-'],
            fence@ == seq!['`', '`', '`'],
            (TaskScan { in_frontmatter, in_code_block, tasks: task_views(tasks@) }) == task_scan(
                ls.take(i as int),
                date_stamp@,
                file_path@,
                fs,
            ),
        decreases lines.len() - i,
    {
        let line = chars_of(lines[i].as_str());
        let trimmed = trim_chars(&line);
        proof {
            assert(ls.take(i + 1).drop_last() =~= ls.take(i as int));
            assert(ls.take(i + 1).last() == line@);
        }
        if chars_eq(&trimmed, &rule) {
            in_frontmatter = !in_frontmatter;
            in_code_block = false;
        } else if in_frontmatter || in_code_block {
        } else if chars_start_with(&trimmed, &fence) {
            in_code_block = !in_code_block;
        } else if blank_chars(&trimmed) || heading_chars(&trimmed) || (trimmed.len() > 0
            && trimmed[0] == '>') {
        } else {
            match scan_entry(&line, false) {
                Some((checkbox, clock, m)) => {
                    let message = string_of(&sub_chars(&line, m, line.len()));
                    assert(message@ =~= line@.skip(m as int));
                    if checkbox.is_some() && message_matches_tags(message.as_str(), tag_filters.as_slice()) {
                        let timestamp = match clock {
                            Some(e) => {
                                let text = string_of(&sub_chars(&line, e, e + 8));
                                parse_clock_text(text.as_str())
                            },
                            None => None,
                        };
                        let t = TaskEntry {
                            date_stamp: date_stamp.to_owned(),
                            file_path: file_path.to_owned(),
                            line_number: i,
                            timestamp,
                        };
                        let ghost prev = tasks@;
                        tasks.push(t);
                        proof {
                            assert(task_views(tasks@) =~= task_views(prev).push(t@));
                        }
                    }
                },
                None => {},
            }
        }
        i = i + 1;
    }
    assert(ls.take(lines.len() as int) =~= ls);
    tasks
}

/// The line still holds an open task: the strict entry grammar reads it
/// with a checkbox that is neither `x` nor `X`.
pub open spec fn spec_is_open_task(line: Seq<char>) -> bool {
    match parse_entry(line, false) {
        Some(p) => p.checkbox is Some && p.checkbox != Some('x') && p.checkbox != Some('X'),
        None => false,
    }
}

/// Whether the line still holds an open task.
pub fn is_open_task_line(line: &str) -> (r: bool)
    ensures
        r == spec_is_open_task(line@),
{
    match scan_entry(&chars_of(line), false) {
        Some((Some(c), _, _)) => c != 'x' && c != 'X',
        _ => false,
    }
}

/// Task `a` is strictly earlier than task `b`: an earlier date, or the same
/// date and an earlier time (a missing time counts as midnight).
pub open spec fn task_earlier(a: TaskView, b: TaskView) -> bool {
    ||| lex_lt(a.date_stamp, b.date_stamp)
    ||| (a.date_stamp == b.date_stamp && !time_le(time_or_midnight(b.timestamp), time_or_midnight(a.timestamp)))
}

pub open spec fn task_insert_pos(s: Seq<TaskView>, x: TaskView) -> int
    decreases s.len(),
{
    if s.len() == 0 {
        0
    } else if !task_earlier(s[0], x) {
        1 + task_insert_pos(s.drop_first(), x)
    } else {
        0
    }
}

pub proof fn lemma_task_insert_pos(s: Seq<TaskView>, x: TaskView)
    ensures
        0 <= task_insert_pos(s, x) <= s.len(),
    decreases s.len(),
{
    if s.len() > 0 {
        lemma_task_insert_pos(s.drop_first(), x);
    }
}

/// Stable sort of tasks, newest first.
pub open spec fn tasks_newest_first(s: Seq<TaskView>) -> Seq<TaskView>
    decreases s.len(),
{
    if s.len() == 0 {
        s
    } else {
        let r = tasks_newest_first(s.drop_last());
        proof {
            lemma_task_insert_pos(r, s.last());
        }
        r.insert(task_insert_pos(r, s.last()), s.last())
    }
}

fn copy_task(t: &TaskEntry) -> (r: TaskEntry)
    ensures
        r@ == t@,
{
    TaskEntry {
        date_stamp: t.date_stamp.clone(),
        file_path: t.file_path.clone(),
        line_number: t.line_number,
        timestamp: t.timestamp,
    }
}

fn task_earlier_exec(a: &TaskEntry, b: &TaskEntry) -> (r: bool)
    ensures
        r == task_earlier(a@, b@),
{
    let sa = chars_of(a.date_stamp.as_str());
    let sb = chars_of(b.date_stamp.as_str());
    if chars_lex_lt(&sa, &sb) {
        return true;
    }
    chars_eq(&sa, &sb) && later_than(time_key(b.timestamp), time_key(a.timestamp))
}

/// Orders tasks newest first: by date, then by time, both descending;
/// tasks that tie keep their order.
pub fn order_tasks(tasks: &Vec<TaskEntry>) -> (r: Vec<TaskEntry>)
    ensures
        task_views(r@) == tasks_newest_first(task_views(tasks@)),
{
    let ghost input = task_views(tasks@);
    let mut sorted: Vec<TaskEntry> = Vec::new();
    let mut i: usize = 0;
    assert(input.take(0) =~= Seq::<TaskView>::empty());
    assert(task_views(sorted@) =~= Seq::<TaskView>::empty());
    while i < tasks.len()
        invariant
            i <= tasks.len(),
            input == task_views(tasks@),
            task_views(sorted@) == tasks_newest_first(input.take(i as int)),
        decreases tasks.len() - i,
    {
        let x = copy_task(&tasks[i]);
        let ghost sv = task_views(sorted@);
        let mut p: usize = 0;
        assert(sv.skip(0) =~= sv);
        while p < sorted.len() && !task_earlier_exec(&sorted[p], &x)
            invariant
                p <= sorted.len(),
                sv == task_views(sorted@),
                task_insert_pos(sv, x@) == p + task_insert_pos(sv.skip(p as int), x@),
            decreases sorted.len() - p,
        {
            proof {
                let u = sv.skip(p as int);
                assert(sv[p as int] == sorted@[p as int]@);
                assert(u[0] == sv[p as int]);
                assert(u.drop_first() =~= sv.skip(p + 1));
            }
            p = p + 1;
        }
        proof {
            let u = sv.skip(p as int);
            if p < sorted.len() {
                assert(sv[p as int] == sorted@[p as int]@);
                assert(u[0] == sv[p as int]);
            }
            assert(input.take(i + 1).drop_last() =~= input.take(i as int));
            assert(input.take(i + 1).last() == x@);
        }
        let ghost xv = x@;
        sorted.insert(p, x);
        proof {
            assert(task_views(sorted@) =~= sv.insert(p as int, xv));
        }
        i = i + 1;
    }
    assert(input.take(tasks.len() as int) =~= input);
    sorted
}

/// The task at the 1-based `index` (0 counts as 1), if there is one.
pub fn pick_task_by_index<T: Clone>(tasks: &[T], index: usize) -> (r: Option<T>)
    ensures
        ({
            let i = if index == 0 {
                0
            } else {
                index - 1
            };
            match r {
                Some(t) => i < tasks@.len() && cloned::<T>(tasks@[i], t),
                None => i >= tasks@.len(),
            }
        }),
{
    let target_index = index.saturating_sub(1);
    if target_index < tasks.len() {
        Some(tasks[target_index].clone())
    } else {
        None
    }
}

/// The line with every `[ ]` ticked to `[x]`.
pub open spec fn ticked(s: Seq<char>) -> Seq<char>
    decreases s.len(),
{
    if s.len() < 3 {
        s
    } else if s[0] == '[' && s[1] == ' ' && s[2] == ']' {
        seq!['[', 'x', ']'] + ticked(s.skip(3))
    } else {
        seq![s[0]] + ticked(s.drop_first())
    }
}

/// `[ ]` starts at position `i` of the line.
pub open spec fn box_at(s: Seq<char>, i: int) -> bool {
    0 <= i && i + 3 <= s.len() && s[i] == '[' && s[i + 1] == ' ' && s[i + 2] == ']'
}

/// The line holds `[ ]`.
pub open spec fn has_open_box(s: Seq<char>) -> bool {
    exists|i: int| #[trigger] box_at(s, i)
}

/// Ticks the task on a line: `None` when the line holds no `[ ]`, else the
/// line with every `[ ]` replaced by `[x]`.
pub fn tick_line(line: &str) -> (r: Option<String>)
    ensures
        match r {
            Some(s) => has_open_box(line@) && s@ == ticked(line@),
            None => !has_open_box(line@),
        },
{
    let v = chars_of(line);
    let mut found = false;
    let mut out: Vec<char> = Vec::new();
    let mut i: usize = 0;
    assert(v@.skip(0) =~= v@);
    while i < v.len()
        invariant
            i <= v.len(),
            out@ + ticked(v@.skip(i as int)) == ticked(v@),
            found ==> has_open_box(v@),
            !found ==> forall|j: int| j < i ==> !#[trigger] box_at(v@, j),
        decreases v.len() - i,
    {
        let ghost s = v@.skip(i as int);
        if v.len() - i >= 3 && v[i] == '[' && v[i + 1] == ' ' && v[i + 2] == ']' {
            proof {
                assert(s[0] == '[' && s[1] == ' ' && s[2] == ']');
                assert(s.skip(3) =~= v@.skip(i + 3));
                assert(box_at(v@, i as int));
            }
            let ghost prev = out@;
            out.push('[');
            out.push('x');
            out.push(']');
            assert(out@ + ticked(v@.skip(i + 3)) =~= prev + ticked(s));
            found = true;
            i = i + 3;
        } else {
            proof {
                if s.len() >= 3 {
                    assert(!(s[0] == '[' && s[1] == ' ' && s[2] == ']'));
                }
                assert(!box_at(v@, i as int));
                assert(s.drop_first() =~= v@.skip(i + 1));
            }
            let ghost prev = out@;
            out.push(v[i]);
            assert(out@ + ticked(v@.skip(i + 1)) =~= prev + ticked(s));
            i = i + 1;
        }
    }
    proof {
        assert(v@.skip(v.len() as int) =~= Seq::<char>::empty());
        assert(out@ + Seq::<char>::empty() =~= out@);
    }
    if found {
        Some(string_of(&out))
    } else {
        proof {
            assert forall|j: int| !#[trigger] box_at(v@, j) by {
                if j >= i {
                    assert(!box_at(v@, j));
                }
            }
        }
        None
    }
}

/// The 0-based place that a 1-based task index names (0 counts as 1).
pub open spec fn index_place(index: usize) -> int {
    if index == 0 {
        0
    } else {
        index - 1
    }
}

/// The open task that the 1-based `index` names in the newest-first order,
/// or `NoTaskAtIndex` when the list is shorter.
pub fn choose_open_task(tasks: &Vec<TaskEntry>, index: usize) -> (r: Result<TaskEntry, QwaError>)
    ensures
        ({
            let s = tasks_newest_first(task_views(tasks@));
            match r {
                Ok(t) => index_place(index) < s.len() && t@ == s[index_place(index)],
                Err(e) => index_place(index) >= s.len() && e == QwaError::NoTaskAtIndex(index),
            }
        }),
{
    let ordered = order_tasks(tasks);
    let place = index.saturating_sub(1);
    if place < ordered.len() {
        let t = copy_task(&ordered[place]);
        assert(task_views(ordered@)[place as int] == ordered@[place as int]@);
        Ok(t)
    } else {
        Err(QwaError::NoTaskAtIndex(index))
    }
}

/// Ticks the task on line `line_number` of a file: the new contents, lines
/// joined by `'\n'`, or `None` when that line holds no `[ ]` and the file
/// stays as it is.
pub fn tick_task_in(contents: &str, line_number: usize) -> (r: Option<String>)
    requires
        line_number < lines_of(contents@).len(),
    ensures
        ({
            let ls = lines_of(contents@);
            match r {
                Some(s) => has_open_box(ls[line_number as int]) && s@ == join_with(
                    ls.update(line_number as int, ticked(ls[line_number as int])),
                    seq!['\n'],
                ),
                None => !has_open_box(ls[line_number as int]),
            }
        }),
{
    let mut lines = split_lines(contents);
    assert(views(lines@)[line_number as int] == lines@[line_number as int]@);
    match tick_line(lines[line_number].as_str()) {
        Some(t) => {
            let ghost before = views(lines@);
            let ghost tv = t@;
            lines.set(line_number, t);
            assert(views(lines@) =~= before.update(line_number as int, tv));
            Some(join_lines(&lines))
        },
        None => None,
    }
}

} // verus!
