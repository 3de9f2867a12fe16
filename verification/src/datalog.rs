//! Journal entries read back from Markdown: one `DataLog` per date, holding
//! the memos and tasks found on that date.
use vstd::prelude::*;
use crate::clock::{
    clock_value, date_text, dash_pattern, named_date, parse_clock_text, slash_pattern,
    stamp_with, time_le, time_or_midnight, Time,
};
use crate::grammar::{parse_entry, scan_entry};
use crate::markdown::{
    blank_chars, heading_chars, list_chars, spec_is_blank, spec_is_heading, spec_is_list,
};
use crate::text::{
    chars_eq, chars_of, chars_start_with, lines_of, push_char, split_lines, starts_with,
    string_of, sub_chars, trim, trim_chars, views,
};

verus! {

/// Whether an entry is a memo or a task (with its checkbox state).
#[derive(Clone, Copy, Debug, PartialEq, Eq, Structural)]
pub enum EntryKind {
    Memo,
    Task { checked: bool },
}

/// One memo or task: its clock time (if it has a valid one), kind and text.
/// Continuation lines are joined to the text with `'\n'`.
#[derive(Debug, Clone, PartialEq, Eq)]
pub struct MessageLog {
    pub timestamp: Option<Time>,
    pub kind: EntryKind,
    pub message: String,
}

/// The abstract value of a `MessageLog`.
pub struct MessageView {
    pub timestamp: Option<Time>,
    pub kind: EntryKind,
    pub message: Seq<char>,
}

impl View for MessageLog {
    type V = MessageView;

    open spec fn view(&self) -> MessageView {
        MessageView { timestamp: self.timestamp, kind: self.kind, message: self.message@ }
    }
}

/// The entries of one date.  `is_all` selects the entry grammar: with it,
/// list items without a clock are entries too.
#[derive(Debug, Clone)]
pub struct DataLog {
    pub is_all: bool,
    pub date_stamp: String,
    pub messages: Vec<MessageLog>,
}

/// The views of a sequence of messages.
pub open spec fn message_views(ms: Seq<MessageLog>) -> Seq<MessageView> {
    ms.map_values(|m: MessageLog| m@)
}

/// What a line contributes as an entry under the given filters: the entry
/// grammar must accept it, notes-only refuses tasks and tasks-only refuses
/// memos.  A checkbox holding `x` or `X` is checked.
pub open spec fn accept_entry(line: Seq<char>, is_note: bool, is_task: bool, is_all: bool) -> Option<
    MessageView,
> {
    match parse_entry(line, is_all) {
        None => None,
        Some(p) => {
            let task = p.checkbox is Some;
            if (is_note && task) || (is_task && !task) {
                None
            } else {
                Some(
                    MessageView {
                        timestamp: match p.clock {
                            Some(c) => clock_value(c),
                            None => None,
                        },
                        kind: if task {
                            EntryKind::Task {
                                checked: p.checkbox == Some('x') || p.checkbox == Some('X'),
                            }
                        } else {
                            EntryKind::Memo
                        },
                        message: p.message,
                    },
                )
            }
        },
    }
}

/// Reads one line as an entry, as `accept_entry` states.
pub fn entry_of_line(line: &[char], is_note: bool, is_task: bool, is_all: bool) -> (r: Option<
    MessageLog,
>)
    ensures
        match r {
            Some(m) => accept_entry(line@, is_note, is_task, is_all) == Some(m@),
            None => accept_entry(line@, is_note, is_task, is_all) is None,
        },
{
    let (checkbox, clock, m) = match scan_entry(line, is_all) {
        Some(parts) => parts,
        None => return None,
    };
    let task = checkbox.is_some();
    if (is_note && task) || (is_task && !task) {
        return None;
    }
    let timestamp = match clock {
        Some(e) => {
            let text = string_of(&sub_chars(line, e, e + 8));
            parse_clock_text(text.as_str())
        },
        None => None,
    };
    let kind = if task {
        EntryKind::Task { checked: checkbox == Some('x') || checkbox == Some('X') }
    } else {
        EntryKind::Memo
    };
    let message = string_of(&sub_chars(line, m, line.len()));
    proof {
        assert(message@ =~= line@.skip(m as int));
    }
    Some(MessageLog { timestamp, kind, message })
}

/// A message with a continuation line joined to its text.
pub open spec fn continued(m: MessageView, t: Seq<char>) -> MessageView {
    MessageView { timestamp: m.timestamp, kind: m.kind, message: m.message + seq!['\n'] + t }
}

/// Whether `v` starts with three backticks.
pub open spec fn is_fence(t: Seq<char>) -> bool {
    starts_with(t, seq!['`', '`', '`'])
}

/// Whether `t` is a `---` rule (frontmatter delimiter).
pub open spec fn is_rule(t: Seq<char>) -> bool {
    t == seq!['-', '-', '-']
}

/// Whether `t` is a quote line.
pub open spec fn is_quote(t: Seq<char>) -> bool {
    t.len() > 0 && t[0] == '>'
}

/// The state of a pass over the lines of one file.
pub struct ParseState {
    pub in_frontmatter: bool,
    pub in_code_block: bool,
    pub current: Option<int>,
    pub messages: Seq<MessageView>,
}

/// One line of the pass: `---` toggles the frontmatter (and leaves a code
/// block), nothing inside the frontmatter counts, a fence toggles a code
/// block, nothing inside a code block counts, blank lines, headings and
/// quotes end the current entry, an entry line starts a new entry, and any
/// other line that is not a list item continues the current entry.
pub open spec fn parse_step(
    st: ParseState,
    line: Seq<char>,
    is_note: bool,
    is_task: bool,
    is_all: bool,
) -> ParseState {
    let t = trim(line);
    if is_rule(t) {
        ParseState {
            in_frontmatter: !st.in_frontmatter,
            in_code_block: false,
            current: None,
            messages: st.messages,
        }
    } else if st.in_frontmatter {
        st
    } else if is_fence(t) {
        ParseState {
            in_frontmatter: st.in_frontmatter,
            in_code_block: !st.in_code_block,
            current: None,
            messages: st.messages,
        }
    } else if st.in_code_block {
        st
    } else if spec_is_blank(t) || spec_is_heading(t) || is_quote(t) {
        ParseState {
            in_frontmatter: st.in_frontmatter,
            in_code_block: st.in_code_block,
            current: None,
            messages: st.messages,
        }
    } else {
        let cur = if spec_is_list(t) {
            None
        } else {
            st.current
        };
        match accept_entry(line, is_note, is_task, is_all) {
            Some(mv) => ParseState {
                in_frontmatter: st.in_frontmatter,
                in_code_block: st.in_code_block,
                current: Some(st.messages.len() as int),
                messages: st.messages.push(mv),
            },
            None => match cur {
                Some(i) => ParseState {
                    in_frontmatter: st.in_frontmatter,
                    in_code_block: st.in_code_block,
                    current: cur,
                    messages: st.messages.update(i, continued(st.messages[i], t)),
                },
                None => ParseState {
                    in_frontmatter: st.in_frontmatter,
                    in_code_block: st.in_code_block,
                    current: None,
                    messages: st.messages,
                },
            },
        }
    }
}

pub open spec fn initial_state() -> ParseState {
    ParseState {
        in_frontmatter: false,
        in_code_block: false,
        current: None,
        messages: Seq::empty(),
    }
}

/// The pass over all lines.
pub open spec fn parse_lines(ls: Seq<Seq<char>>, is_note: bool, is_task: bool, is_all: bool) -> ParseState
    decreases ls.len(),
{
    if ls.len() == 0 {
        initial_state()
    } else {
        parse_step(parse_lines(ls.drop_last(), is_note, is_task, is_all), ls.last(), is_note, is_task, is_all)
    }
}

/// The current entry, when there is one, is a valid index.
pub open spec fn state_ok(st: ParseState) -> bool {
    match st.current {
        Some(i) => 0 <= i < st.messages.len(),
        None => true,
    }
}

/// The entries stably ordered newest first: `m` goes before the first
/// entry whose time is earlier than its own.
pub open spec fn insert_pos(s: Seq<MessageView>, m: MessageView) -> int
    decreases s.len(),
{
    if s.len() == 0 {
        0
    } else if !time_le(time_or_midnight(s[0].timestamp), time_or_midnight(m.timestamp))
        || time_or_midnight(s[0].timestamp) == time_or_midnight(m.timestamp) {
        1 + insert_pos(s.drop_first(), m)
    } else {
        0
    }
}

/// Stable sort, newest time first (a missing time counts as midnight).
pub open spec fn sorted_newest_first(s: Seq<MessageView>) -> Seq<MessageView>
    decreases s.len(),
{
    if s.len() == 0 {
        s
    } else {
        let r = sorted_newest_first(s.drop_last());
        proof {
            lemma_insert_pos_bounds(r, s.last());
        }
        r.insert(insert_pos(r, s.last()), s.last())
    }
}

pub proof fn lemma_insert_pos_bounds(s: Seq<MessageView>, m: MessageView)
    ensures
        0 <= insert_pos(s, m) <= s.len(),
    decreases s.len(),
{
    if s.len() > 0 {
        lemma_insert_pos_bounds(s.drop_first(), m);
    }
}

impl DataLog {
    /// An empty log for a date.
    pub fn new(date_stamp: String, is_all: bool) -> (r: Self)
        ensures
            r.date_stamp@ == date_stamp@,
            r.is_all == is_all,
            r.messages@.len() == 0,
    {
        DataLog { is_all, date_stamp, messages: Vec::new() }
    }

    /// Reads the entries of one file for one date: `parse_lines` over the
    /// file's lines.
    pub fn parse(contents: &str, date_stamp: &str, is_note: bool, is_task: bool, is_all: bool) -> (r: Self)
        ensures
            r.date_stamp@ == date_stamp@,
            r.is_all == is_all,
            message_views(r.messages@) == parse_lines(lines_of(contents@), is_note, is_task, is_all).messages,
    {
        let lines = split_lines(contents);
        let ghost ls = views(lines@);
        let mut data_log = DataLog::new(date_stamp.to_owned(), is_all);
        let mut in_frontmatter = false;
        let mut in_code_block = false;
        let mut current_index: Option<usize> = None;
        let rule = vec!['-', '-', '-'];
        let fence = vec!['`', '`', '`'];
        let mut i: usize = 0;
        assert(ls.take(0) =~= Seq::<Seq<char>>::empty());
        assert(message_views(data_log.messages@) =~= Seq::<MessageView>::empty());
        while i < lines.len()
            invariant
                i <= lines.len(),
                ls == views(lines@),
                ls == lines_of(contents@),
                rule@ == seq!['-', '-', '-'],
                fence@ == seq!['`', '`', '`'],
                data_log.date_stamp@ == date_stamp@,
                data_log.is_all == is_all,
                (ParseState {
                    in_frontmatter,
                    in_code_block,
                    current: opt_int(current_index),
                    messages: message_views(data_log.messages@),
                }) == parse_lines(ls.take(i as int), is_note, is_task, is_all),
                match current_index {
                    Some(k) => k < data_log.messages@.len(),
                    None => true,
                },
            decreases lines.len() - i,
        {
            let line = chars_of(lines[i].as_str());
            let trimmed = trim_chars(&line);
            proof {
                assert(ls.take(i + 1).drop_last() =~= ls.take(i as int));
                assert(ls.take(i + 1).last() == line@);
            }
            if chars_eq(&trimmed, &rule) {
                in_frontmatter = !in_frontmatter;
                in_code_block = false;
                current_index = None;
            } else if in_frontmatter {
            } else if chars_start_with(&trimmed, &fence) {
                in_code_block = !in_code_block;
                current_index = None;
            } else if in_code_block {
            } else if blank_chars(&trimmed) || heading_chars(&trimmed) || (trimmed.len() > 0
                && trimmed[0] == '>') {
                current_index = None;
            } else {
                if list_chars(&trimmed) {
                    current_index = None;
                }
                match entry_of_line(&line, is_note, is_task, is_all) {
                    Some(m) => {
                        let ghost prev = data_log.messages@;
                        data_log.messages.push(m);
                        proof {
                            assert(message_views(data_log.messages@) =~= message_views(prev).push(m@));
                        }
                        current_index = Some(data_log.messages.len() - 1);
                    },
                    None => {
                        match current_index {
                            Some(k) => {
                                continue_message(&mut data_log.messages, k, &trimmed);
                            },
                            None => {},
                        }
                    },
                }
            }
            i = i + 1;
        }
        assert(ls.take(lines.len() as int) =~= ls);
        data_log
    }

    /// Reads `line` as an entry and appends it when it is one that the
    /// filters admit; returns whether it did.
    pub fn push(&mut self, line: &str, is_note: bool, is_task: bool) -> (r: bool)
        ensures
            final(self).date_stamp == old(self).date_stamp,
            final(self).is_all == old(self).is_all,
            match accept_entry(line@, is_note, is_task, old(self).is_all) {
                Some(mv) => r && message_views(final(self).messages@) == message_views(
                    old(self).messages@,
                ).push(mv),
                None => !r && final(self).messages@ == old(self).messages@,
            },
    {
        let cs = chars_of(line);
        match entry_of_line(&cs, is_note, is_task, self.is_all) {
            Some(m) => {
                let ghost prev = self.messages@;
                self.messages.push(m);
                proof {
                    assert(message_views(self.messages@) =~= message_views(prev).push(m@));
                }
                true
            },
            None => false,
        }
    }

    /// Orders the entries newest first; entries with the same time keep
    /// their order, and an entry without a time counts as midnight.
    pub fn sort_messages(&mut self)
        ensures
            final(self).date_stamp == old(self).date_stamp,
            final(self).is_all == old(self).is_all,
            message_views(final(self).messages@) == sorted_newest_first(
                message_views(old(self).messages@),
            ),
    {
        let ghost input = message_views(self.messages@);
        let mut source: Vec<MessageLog> = Vec::new();
        std::mem::swap(&mut source, &mut self.messages);
        let mut sorted: Vec<MessageLog> = Vec::new();
        let mut i: usize = 0;
        while i < source.len()
            invariant
                i <= source.len(),
                message_views(source@) == input,
                message_views(sorted@) == sorted_newest_first(input.take(i as int)),
            decreases source.len() - i,
        {
            let m = copy_message(&source[i]);
            assert(m@ == input[i as int]);
            let ghost sv = message_views(sorted@);
            let key = time_key(m.timestamp);
            let mut p: usize = 0;
            assert(sv.skip(0) =~= sv);
            while p < sorted.len() && !later_than(key, time_key(sorted[p].timestamp))
                invariant
                    p <= sorted.len(),
                    sv == message_views(sorted@),
                    key.0 == time_or_midnight(m@.timestamp).secs,
                    key.1 == time_or_midnight(m@.timestamp).frac,
                    insert_pos(sv, m@) == p + insert_pos(sv.skip(p as int), m@),
                decreases sorted.len() - p,
            {
                proof {
                    let t = sv.skip(p as int);
                    assert(sv[p as int] == sorted@[p as int]@);
                    assert(t[0] == sv[p as int]);
                    assert(t.drop_first() =~= sv.skip(p + 1));
                    let a = time_or_midnight(t[0].timestamp);
                    let b = time_or_midnight(m@.timestamp);
                    assert(a.secs > b.secs || (a.secs == b.secs && a.frac >= b.frac));
                    assert(!time_le(a, b) || a == b);
                    assert(insert_pos(t, m@) == 1 + insert_pos(t.drop_first(), m@));
                }
                p = p + 1;
            }
            proof {
                let t = sv.skip(p as int);
                if p < sorted.len() {
                    assert(sv[p as int] == sorted@[p as int]@);
                    assert(t[0] == sv[p as int]);
                } else {
                    assert(t.len() == 0);
                }
                assert(input.take(i + 1).drop_last() =~= input.take(i as int));
                assert(input.take(i + 1).last() == m@);
            }
            sorted.insert(p, m);
            proof {
                assert(message_views(sorted@) =~= sv.insert(p as int, input[i as int]));
            }
            i = i + 1;
        }
        proof {
            assert(input.take(source.len() as int) =~= input);
        }
        self.messages = sorted;
    }
}

pub open spec fn opt_int(o: Option<usize>) -> Option<int> {
    match o {
        Some(i) => Some(i as int),
        None => None,
    }
}

/// Appends a continuation line to the text of entry `i`.
pub fn continue_message(messages: &mut Vec<MessageLog>, i: usize, t: &[char])
    requires
        i < old(messages)@.len(),
    ensures
        final(messages)@.len() == old(messages)@.len(),
        message_views(final(messages)@) == message_views(old(messages)@).update(
            i as int,
            continued(old(messages)@[i as int]@, t@),
        ),
{
    let old_m = copy_message(&messages[i]);
    let mut text = old_m.message;
    push_char(&mut text, '\n');
    text.append(string_of(t).as_str());
    let ghost prev = messages@;
    assert(text@ == prev[i as int]@.message + seq!['\n'] + t@);
    messages.set(i, MessageLog { timestamp: old_m.timestamp, kind: old_m.kind, message: text });
    proof {
        assert(message_views(messages@) =~= message_views(prev).update(
            i as int,
            continued(prev[i as int]@, t@),
        ));
    }
}

/// A copy of a message.
pub fn copy_message(m: &MessageLog) -> (r: MessageLog)
    ensures
        r@ == m@,
{
    MessageLog { timestamp: m.timestamp, kind: m.kind, message: m.message.clone() }
}

/// A time as the pair chrono orders by; a missing time counts as midnight.
pub fn time_key(t: Option<Time>) -> (r: (u32, u32))
    ensures
        r.0 == time_or_midnight(t).secs,
        r.1 == time_or_midnight(t).frac,
{
    match t {
        Some(t) => (t.secs, t.frac),
        None => (0, 0),
    }
}

/// Whether key `a` is strictly later than key `b`.
pub fn later_than(a: (u32, u32), b: (u32, u32)) -> (r: bool)
    ensures
        r == (a.0 > b.0 || (a.0 == b.0 && a.1 > b.1)),
{
    a.0 > b.0 || (a.0 == b.0 && a.1 > b.1)
}


// ---------------------------------------------------------------------------
// Files with one heading per date
// ---------------------------------------------------------------------------

/// The abstract value of a `DataLog`.
pub struct LogView {
    pub date_stamp: Seq<char>,
    pub is_all: bool,
    pub messages: Seq<MessageView>,
}

impl View for DataLog {
    type V = LogView;

    open spec fn view(&self) -> LogView {
        LogView {
            date_stamp: self.date_stamp@,
            is_all: self.is_all,
            messages: message_views(self.messages@),
        }
    }
}

pub open spec fn log_views(v: Seq<DataLog>) -> Seq<LogView> {
    v.map_values(|l: DataLog| l@)
}

/// Index of the first log of the date, or `logs.len()`.
pub open spec fn find_stamp(logs: Seq<LogView>, stamp: Seq<char>) -> int
    decreases logs.len(),
{
    if logs.len() == 0 {
        0
    } else if logs[0].date_stamp == stamp {
        0
    } else {
        1 + find_stamp(logs.drop_first(), stamp)
    }
}

pub proof fn lemma_find_stamp(logs: Seq<LogView>, stamp: Seq<char>)
    ensures
        0 <= find_stamp(logs, stamp) <= logs.len(),
        find_stamp(logs, stamp) < logs.len() ==> logs[find_stamp(logs, stamp)].date_stamp == stamp,
        forall|j: int| 0 <= j < find_stamp(logs, stamp) ==> logs[j].date_stamp != stamp,
    decreases logs.len(),
{
    if logs.len() > 0 && logs[0].date_stamp != stamp {
        lemma_find_stamp(logs.drop_first(), stamp);
        assert forall|j: int| 0 <= j < find_stamp(logs, stamp) implies logs[j].date_stamp != stamp by {
            if j > 0 {
                assert(logs[j] == logs.drop_first()[j - 1]);
            }
        }
    }
}

pub proof fn lemma_find_stamp_at(logs: Seq<LogView>, stamp: Seq<char>, k: int)
    requires
        0 <= k <= logs.len(),
        forall|j: int| 0 <= j < k ==> logs[j].date_stamp != stamp,
        k == logs.len() || logs[k].date_stamp == stamp,
    ensures
        find_stamp(logs, stamp) == k,
    decreases k,
{
    if k > 0 {
        let t = logs.drop_first();
        assert forall|j: int| 0 <= j < k - 1 implies t[j].date_stamp != stamp by {
            assert(t[j] == logs[j + 1]);
        }
        lemma_find_stamp_at(t, stamp, k - 1);
    }
}

pub proof fn lemma_find_stamp_update(logs: Seq<LogView>, stamp: Seq<char>, k: int, l: LogView)
    requires
        0 <= k < logs.len(),
        find_stamp(logs, stamp) == k,
        l.date_stamp == stamp,
    ensures
        find_stamp(logs.update(k, l), stamp) == k,
{
    lemma_find_stamp(logs, stamp);
    let u = logs.update(k, l);
    assert forall|j: int| 0 <= j < k implies u[j].date_stamp != stamp by {
        assert(u[j] == logs[j]);
    }
    lemma_find_stamp_at(u, stamp, k);
}

/// The logs with one for `stamp` added at the end when there is none
/// (`BTreeMap::entry(..).or_insert_with(..)`).
pub open spec fn with_date(logs: Seq<LogView>, stamp: Seq<char>, is_all: bool) -> Seq<LogView> {
    if find_stamp(logs, stamp) < logs.len() {
        logs
    } else {
        logs.push(LogView { date_stamp: stamp, is_all, messages: Seq::empty() })
    }
}

/// No two logs share a date stamp: each date has one log.
pub open spec fn unique_stamps(logs: Seq<LogView>) -> bool {
    forall|i: int, j: int|
        #![trigger logs[i], logs[j]]
        0 <= i < j < logs.len() ==> logs[i].date_stamp != logs[j].date_stamp
}

/// Adding the log of a date when missing keeps one log per date, and the
/// log of that date is then there.
pub proof fn lemma_with_date_unique(logs: Seq<LogView>, stamp: Seq<char>, is_all: bool)
    requires
        unique_stamps(logs),
    ensures
        unique_stamps(with_date(logs, stamp, is_all)),
        find_stamp(with_date(logs, stamp, is_all), stamp) < with_date(logs, stamp, is_all).len(),
{
    lemma_find_stamp(logs, stamp);
    if find_stamp(logs, stamp) == logs.len() {
        let w = with_date(logs, stamp, is_all);
        assert forall|i: int, j: int| #![trigger w[i], w[j]] 0 <= i < j < w.len() implies w[i].date_stamp
            != w[j].date_stamp by {
            assert(w[i] == logs[i]);
            if j < logs.len() {
                assert(w[j] == logs[j]);
            }
        }
        assert forall|j: int| 0 <= j < logs.len() implies w[j].date_stamp != stamp by {
            assert(w[j] == logs[j]);
        }
        lemma_find_stamp_at(w, stamp, logs.len() as int);
    }
}

/// Replacing a log by one of the same date keeps one log per date.
pub proof fn lemma_update_unique(logs: Seq<LogView>, k: int, l: LogView)
    requires
        unique_stamps(logs),
        0 <= k < logs.len(),
        l.date_stamp == logs[k].date_stamp,
    ensures
        unique_stamps(logs.update(k, l)),
{
    let u = logs.update(k, l);
    assert forall|i: int, j: int| #![trigger u[i], u[j]] 0 <= i < j < u.len() implies u[i].date_stamp
        != u[j].date_stamp by {
        assert(u[i].date_stamp == logs[i].date_stamp);
        assert(u[j].date_stamp == logs[j].date_stamp);
    }
}

/// One line of the header pass keeps one log per date.
pub proof fn lemma_header_step_unique(
    st: HeaderState,
    line: Seq<char>,
    insert: Option<Seq<char>>,
    is_note: bool,
    is_task: bool,
    is_all: bool,
)
    requires
        unique_stamps(st.logs),
    ensures
        unique_stamps(header_step(st, line, insert, is_note, is_task, is_all).logs),
{
    if let Some(d) = st.date {
        lemma_with_date_unique(st.logs, d, is_all);
        let logs1 = with_date(st.logs, d, is_all);
        let k = find_stamp(logs1, d);
        lemma_find_stamp(logs1, d);
        let log = logs1[k];
        assert forall|l: LogView| l.date_stamp == log.date_stamp implies #[trigger] unique_stamps(logs1.update(k, l)) by {
            lemma_update_unique(logs1, k, l);
        }
    }
}

/// The header pass over lines keeps one log per date.
pub proof fn lemma_header_lines_unique(
    start: HeaderState,
    ls: Seq<Seq<char>>,
    insert: Option<Seq<char>>,
    is_note: bool,
    is_task: bool,
    is_all: bool,
)
    requires
        unique_stamps(start.logs),
    ensures
        unique_stamps(header_lines(start, ls, insert, is_note, is_task, is_all).logs),
    decreases ls.len(),
{
    if ls.len() > 0 {
        lemma_header_lines_unique(start, ls.drop_last(), insert, is_note, is_task, is_all);
        lemma_header_step_unique(
            header_lines(start, ls.drop_last(), insert, is_note, is_task, is_all),
            ls.last(),
            insert,
            is_note,
            is_task,
            is_all,
        );
    }
}

/// Leading `#` characters dropped.
pub open spec fn drop_leading_hashes(s: Seq<char>) -> Seq<char>
    decreases s.len(),
{
    if s.len() > 0 && s[0] == '#' {
        drop_leading_hashes(s.drop_first())
    } else {
        s
    }
}

/// The date stamp a heading line gives: the heading text without its `#`
/// marks, read with the insertion pattern (without its `#` marks) when one
/// is configured, else as `YYYY-MM-DD`, else as `YYYY/MM/DD`; written as
/// `YYYY-MM-DD`.
pub open spec fn spec_heading_date(heading: Seq<char>, insert: Option<Seq<char>>) -> Option<Seq<char>> {
    let t = trim(heading);
    if !spec_is_heading(t) {
        None
    } else {
        let content = trim(drop_leading_hashes(t));
        let by_insert = match insert {
            Some(p) => named_date(content, trim(drop_leading_hashes(p))),
            None => None,
        };
        match by_insert {
            Some(d) => Some(date_text(d)),
            None => match named_date(content, dash_pattern()) {
                Some(d) => Some(date_text(d)),
                None => match named_date(content, slash_pattern()) {
                    Some(d) => Some(date_text(d)),
                    None => None,
                },
            },
        }
    }
}

fn drop_leading_hash_chars(v: &[char]) -> (r: Vec<char>)
    ensures
        r@ == drop_leading_hashes(v@),
{
    let mut a: usize = 0;
    assert(v@.skip(0) =~= v@);
    while a < v.len() && v[a] == '#'
        invariant
            a <= v.len(),
            drop_leading_hashes(v@) == drop_leading_hashes(v@.skip(a as int)),
        decreases v.len() - a,
    {
        assert(v@.skip(a as int).drop_first() =~= v@.skip(a + 1));
        a = a + 1;
    }
    sub_chars(v, a, v.len())
}

/// The date stamp of a heading line, as `spec_heading_date` states.
pub fn parse_heading_date(heading: &str, insert_pattern: Option<&str>) -> (r: Option<String>)
    ensures
        match r {
            Some(s) => spec_heading_date(
                heading@,
                match insert_pattern {
                    Some(p) => Some(p@),
                    None => None,
                },
            ) == Some(s@),
            None => spec_heading_date(
                heading@,
                match insert_pattern {
                    Some(p) => Some(p@),
                    None => None,
                },
            ) is None,
        },
{
    let trimmed = trim_chars(&chars_of(heading));
    if !heading_chars(&trimmed) {
        return None;
    }
    let content_chars = trim_chars(&drop_leading_hash_chars(&trimmed));
    let content = string_of(&content_chars);
    if let Some(pattern) = insert_pattern {
        let clean = trim_chars(&drop_leading_hash_chars(&chars_of(pattern)));
        if let Some(s) = stamp_with(content.as_str(), &clean) {
            return Some(string_of(&s));
        }
    }
    let dash = vec!['%', 'Y', '-', '%', 'm', '-', '%', 'd'];
    if let Some(s) = stamp_with(content.as_str(), &dash) {
        return Some(string_of(&s));
    }
    let slash = vec!['%', 'Y', '/', '%', 'm', '/', '%', 'd'];
    if let Some(s) = stamp_with(content.as_str(), &slash) {
        return Some(string_of(&s));
    }
    None
}

/// The state of a pass over a file with one heading per date.
pub struct HeaderState {
    pub in_frontmatter: bool,
    pub in_code_block: bool,
    pub date: Option<Seq<char>>,
    pub current: Option<int>,
    pub logs: Seq<LogView>,
}

/// One line of the pass over a file with dated headings: as `parse_step`,
/// except that a heading that names a date makes it the current date, and
/// entries go to the log of the current date (created when missing); lines
/// before any date are skipped.
pub open spec fn header_step(
    st: HeaderState,
    line: Seq<char>,
    insert: Option<Seq<char>>,
    is_note: bool,
    is_task: bool,
    is_all: bool,
) -> HeaderState {
    let t = trim(line);
    if is_rule(t) {
        HeaderState {
            in_frontmatter: !st.in_frontmatter,
            in_code_block: false,
            date: st.date,
            current: None,
            logs: st.logs,
        }
    } else if st.in_frontmatter {
        st
    } else if is_fence(t) {
        HeaderState {
            in_frontmatter: st.in_frontmatter,
            in_code_block: !st.in_code_block,
            date: st.date,
            current: None,
            logs: st.logs,
        }
    } else if st.in_code_block {
        st
    } else if spec_is_blank(t) || is_quote(t) {
        HeaderState {
            in_frontmatter: st.in_frontmatter,
            in_code_block: st.in_code_block,
            date: st.date,
            current: None,
            logs: st.logs,
        }
    } else if spec_is_heading(t) {
        HeaderState {
            in_frontmatter: st.in_frontmatter,
            in_code_block: st.in_code_block,
            date: match spec_heading_date(t, insert) {
                Some(d) => Some(d),
                None => st.date,
            },
            current: None,
            logs: st.logs,
        }
    } else {
        let cur = if spec_is_list(t) {
            None
        } else {
            st.current
        };
        match st.date {
            None => HeaderState {
                in_frontmatter: st.in_frontmatter,
                in_code_block: st.in_code_block,
                date: st.date,
                current: cur,
                logs: st.logs,
            },
            Some(d) => {
                let logs1 = with_date(st.logs, d, is_all);
                let k = find_stamp(logs1, d);
                let log = logs1[k];
                match accept_entry(line, is_note, is_task, log.is_all) {
                    Some(mv) => HeaderState {
                        in_frontmatter: st.in_frontmatter,
                        in_code_block: st.in_code_block,
                        date: st.date,
                        current: Some(log.messages.len() as int),
                        logs: logs1.update(
                            k,
                            LogView {
                                date_stamp: log.date_stamp,
                                is_all: log.is_all,
                                messages: log.messages.push(mv),
                            },
                        ),
                    },
                    None => match cur {
                        Some(i) => HeaderState {
                            in_frontmatter: st.in_frontmatter,
                            in_code_block: st.in_code_block,
                            date: st.date,
                            current: cur,
                            logs: logs1.update(
                                k,
                                LogView {
                                    date_stamp: log.date_stamp,
                                    is_all: log.is_all,
                                    messages: log.messages.update(i, continued(log.messages[i], t)),
                                },
                            ),
                        },
                        None => HeaderState {
                            in_frontmatter: st.in_frontmatter,
                            in_code_block: st.in_code_block,
                            date: st.date,
                            current: None,
                            logs: logs1,
                        },
                    },
                }
            },
        }
    }
}

/// The pass over all lines of a file with dated headings.
pub open spec fn header_lines(
    start: HeaderState,
    ls: Seq<Seq<char>>,
    insert: Option<Seq<char>>,
    is_note: bool,
    is_task: bool,
    is_all: bool,
) -> HeaderState
    decreases ls.len(),
{
    if ls.len() == 0 {
        start
    } else {
        header_step(
            header_lines(start, ls.drop_last(), insert, is_note, is_task, is_all),
            ls.last(),
            insert,
            is_note,
            is_task,
            is_all,
        )
    }
}

/// Index of the log of `stamp` in `entries`, adding an empty one when there
/// is none.
pub fn entry_index(entries: &mut Vec<DataLog>, stamp: &[char], is_all: bool) -> (r: usize)
    ensures
        log_views(final(entries)@) == with_date(log_views(old(entries)@), stamp@, is_all),
        r == find_stamp(log_views(final(entries)@), stamp@),
        r < final(entries)@.len(),
{
    let ghost lv = log_views(entries@);
    let mut k: usize = 0;
    while k < entries.len()
        invariant
            k <= entries.len(),
            lv == log_views(entries@),
            forall|j: int| 0 <= j < k ==> lv[j].date_stamp != stamp@,
        decreases entries.len() - k,
    {
        let here = chars_of(entries[k].date_stamp.as_str());
        if chars_eq(&here, stamp) {
            proof {
                lemma_find_stamp_at(lv, stamp@, k as int);
            }
            return k;
        }
        k = k + 1;
    }
    proof {
        lemma_find_stamp_at(lv, stamp@, k as int);
    }
    let ghost prev = entries@;
    let fresh = DataLog::new(string_of(stamp), is_all);
    assert(fresh@.messages =~= Seq::<MessageView>::empty());
    assert(fresh@ == LogView { date_stamp: stamp@, is_all, messages: Seq::empty() });
    entries.push(fresh);
    proof {
        let nv = log_views(entries@);
        assert(nv =~= lv.push(LogView { date_stamp: stamp@, is_all, messages: Seq::empty() }));
        assert forall|j: int| 0 <= j < k implies nv[j].date_stamp != stamp@ by {
            assert(nv[j] == lv[j]);
        }
        lemma_find_stamp_at(nv, stamp@, k as int);
    }
    k
}


/// Whether the current entry of a header pass is a valid index into the
/// log of the current date.
pub open spec fn header_ok(st: HeaderState) -> bool {
    match st.current {
        Some(i) => st.date is Some && find_stamp(st.logs, st.date->0) < st.logs.len() && 0 <= i
            < st.logs[find_stamp(st.logs, st.date->0)].messages.len(),
        None => true,
    }
}

pub open spec fn opt_chars(o: Option<Vec<char>>) -> Option<Seq<char>> {
    match o {
        Some(v) => Some(v@),
        None => None,
    }
}

pub open spec fn opt_str(o: Option<&str>) -> Option<Seq<char>> {
    match o {
        Some(v) => Some(v@),
        None => None,
    }
}

/// The header pass starting from the given logs.
pub open spec fn header_start(logs: Seq<LogView>, default_date: Option<Seq<char>>) -> HeaderState {
    HeaderState {
        in_frontmatter: false,
        in_code_block: false,
        date: default_date,
        current: None,
        logs,
    }
}

/// Adds an entry, or a continuation line, to the log at index `k`.
fn add_to_log(
    entries: &mut Vec<DataLog>,
    k: usize,
    line: &[char],
    trimmed: &[char],
    cur: Option<usize>,
    is_note: bool,
    is_task: bool,
) -> (r: Option<usize>)
    requires
        k < old(entries)@.len(),
        match cur {
            Some(i) => i < old(entries)@[k as int].messages@.len(),
            None => true,
        },
    ensures
        ({
            let log = log_views(old(entries)@)[k as int];
            match accept_entry(line@, is_note, is_task, log.is_all) {
                Some(mv) => opt_int(r) == Some(log.messages.len() as int) && log_views(final(entries)@)
                    == log_views(old(entries)@).update(
                    k as int,
                    LogView {
                        date_stamp: log.date_stamp,
                        is_all: log.is_all,
                        messages: log.messages.push(mv),
                    },
                ),
                None => match cur {
                    Some(i) => r == cur && log_views(final(entries)@) == log_views(
                        old(entries)@,
                    ).update(
                        k as int,
                        LogView {
                            date_stamp: log.date_stamp,
                            is_all: log.is_all,
                            messages: log.messages.update(i as int, continued(log.messages[i as int], trimmed@)),
                        },
                    ),
                    None => r is None && log_views(final(entries)@) == log_views(old(entries)@),
                },
            }
        }),
{
    let ghost before = log_views(entries@);
    let mut log = DataLog::new(String::new(), false);
    entries.set_and_swap(k, &mut log);
    assert(log@ == before[k as int]);
    let r = match entry_of_line(line, is_note, is_task, log.is_all) {
        Some(m) => {
            let ghost prev = log.messages@;
            log.messages.push(m);
            proof {
                assert(message_views(log.messages@) =~= message_views(prev).push(m@));
            }
            Some(log.messages.len() - 1)
        },
        None => match cur {
            Some(i) => {
                continue_message(&mut log.messages, i, trimmed);
                cur
            },
            None => None,
        },
    };
    let ghost mid = entries@;
    entries.set(k, log);
    proof {
        let after = log_views(entries@);
        assert(after =~= before.update(k as int, log@)) by {
            assert forall|j: int| 0 <= j < after.len() implies after[j] == before.update(k as int, log@)[j] by {
                if j != k {
                    assert(entries@[j] == mid[j]);
                }
            }
        }
    }
    r
}

impl DataLog {
    /// Reads a file whose dates are headings and adds its entries to the
    /// logs of their dates: `header_lines` over the file's lines.
    pub fn parse_header_contents(
        entries: &mut Vec<DataLog>,
        contents: &str,
        default_date: Option<&str>,
        insert_pattern: Option<&str>,
        is_note: bool,
        is_task: bool,
        is_all: bool,
    )
        ensures
            log_views(final(entries)@) == header_lines(
                header_start(log_views(old(entries)@), opt_str(default_date)),
                lines_of(contents@),
                opt_str(insert_pattern),
                is_note,
                is_task,
                is_all,
            ).logs,
    {
        let lines = split_lines(contents);
        let ghost ls = views(lines@);
        let ghost start = header_start(log_views(entries@), opt_str(default_date));
        let mut in_frontmatter = false;
        let mut in_code_block = false;
        let mut current_date: Option<Vec<char>> = match default_date {
            Some(d) => Some(chars_of(d)),
            None => None,
        };
        let mut current_index: Option<usize> = None;
        let rule = vec!['-', '-', '-'];
        let fence = vec!['`', '`', '`'];
        let mut i: usize = 0;
        assert(ls.take(0) =~= Seq::<Seq<char>>::empty());
        while i < lines.len()
            invariant
                i <= lines.len(),
                ls == views(lines@),
                ls == lines_of(contents@),
                rule@ == seq!['-', '-', '-'],
                fence@ == seq!['`', '`', '`'],
                start == header_start(log_views(old(entries)@), opt_str(default_date)),
                (HeaderState {
                    in_frontmatter,
                    in_code_block,
                    date: opt_chars(current_date),
                    current: opt_int(current_index),
                    logs: log_views(entries@),
                }) == header_lines(start, ls.take(i as int), opt_str(insert_pattern), is_note, is_task, is_all),
                header_ok(HeaderState {
                    in_frontmatter,
                    in_code_block,
                    date: opt_chars(current_date),
                    current: opt_int(current_index),
                    logs: log_views(entries@),
                }),
            decreases lines.len() - i,
        {
            let ghost st = HeaderState {
                in_frontmatter,
                in_code_block,
                date: opt_chars(current_date),
                current: opt_int(current_index),
                logs: log_views(entries@),
            };
            let line = chars_of(lines[i].as_str());
            let trimmed = trim_chars(&line);
            proof {
                assert(ls.take(i + 1).drop_last() =~= ls.take(i as int));
                assert(ls.take(i + 1).last() == line@);
            }
            if chars_eq(&trimmed, &rule) {
                in_frontmatter = !in_frontmatter;
                in_code_block = false;
                current_index = None;
            } else if in_frontmatter {
            } else if chars_start_with(&trimmed, &fence) {
                in_code_block = !in_code_block;
                current_index = None;
            } else if in_code_block {
            } else if blank_chars(&trimmed) || (trimmed.len() > 0 && trimmed[0] == '>') {
                current_index = None;
            } else if heading_chars(&trimmed) {
                current_index = None;
                let ts = string_of(&trimmed);
                if let Some(date_stamp) = parse_heading_date(ts.as_str(), insert_pattern) {
                    current_date = Some(chars_of(date_stamp.as_str()));
                }
                assert(opt_chars(current_date) == match spec_heading_date(trim(line@), opt_str(insert_pattern)) {
                    Some(d) => Some(d),
                    None => st.date,
                });
            } else {
                if list_chars(&trimmed) {
                    current_index = None;
                }
                match &current_date {
                    Some(date) => {
                        proof {
                            lemma_find_stamp(log_views(entries@), date@);
                        }
                        let k = entry_index(entries, date, is_all);
                        proof {
                            lemma_find_stamp(log_views(entries@), date@);
                            assert(log_views(entries@)[k as int] == entries@[k as int]@);
                        }
                        let ghost logs1 = log_views(entries@);
                        current_index = add_to_log(entries, k, &line, &trimmed, current_index, is_note, is_task);
                        proof {
                            lemma_find_stamp_update(logs1, date@, k as int, log_views(entries@)[k as int]);
                            assert(log_views(entries@) == logs1.update(k as int, log_views(entries@)[k as int]));
                            assert(logs1 == with_date(st.logs, date@, is_all));
                            assert(k == find_stamp(logs1, date@));
                        }
                    },
                    None => {},
                }
            }
            assert((HeaderState {
                in_frontmatter,
                in_code_block,
                date: opt_chars(current_date),
                current: opt_int(current_index),
                logs: log_views(entries@),
            }) == header_step(st, line@, opt_str(insert_pattern), is_note, is_task, is_all));
            i = i + 1;
        }
        assert(ls.take(lines.len() as int) =~= ls);
    }
}

} // verus!
