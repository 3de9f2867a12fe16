//! The timeline listing: which entries are shown, in what order, and as
//! which lines.
use vstd::prelude::*;
use crate::clock::{time_chars, time_text};
use crate::datalog::{
    copy_message, message_views, sorted_newest_first, DataLog, EntryKind, LogView, MessageLog,
    MessageView, log_views,
};
use crate::tags::{message_matches_tags, spec_matches_tags};
use crate::text::{chars_of, extend_chars, lines_of, split_lines, string_of, views};

verus! {

/// A line of the listing: a date heading or a line of an entry.
#[derive(Debug, Clone, PartialEq, Eq)]
pub enum ListLine {
    Date(String),
    Text(String),
}

pub enum ListLineView {
    Date(Seq<char>),
    Text(Seq<char>),
}

impl View for ListLine {
    type V = ListLineView;

    open spec fn view(&self) -> ListLineView {
        match self {
            ListLine::Date(s) => ListLineView::Date(s@),
            ListLine::Text(s) => ListLineView::Text(s@),
        }
    }
}

pub open spec fn line_views(v: Seq<ListLine>) -> Seq<ListLineView> {
    v.map_values(|l: ListLine| l@)
}

// ---------------------------------------------------------------------------
// Which entries, in which order
// ---------------------------------------------------------------------------

/// Memos and open tasks stay; checked tasks go.
pub open spec fn is_open(m: MessageView) -> bool {
    m.kind == EntryKind::Memo || m.kind == (EntryKind::Task { checked: false })
}

/// The entries that are open and pass the tag filters, in order.
pub open spec fn shown_messages(ms: Seq<MessageView>, filters: Seq<Seq<char>>) -> Seq<MessageView>
    decreases ms.len(),
{
    if ms.len() == 0 {
        Seq::empty()
    } else {
        let rest = shown_messages(ms.drop_last(), filters);
        if is_open(ms.last()) && spec_matches_tags(ms.last().message, filters) {
            rest.push(ms.last())
        } else {
            rest
        }
    }
}

/// `a` sorts before `b` as strings do (by character, a prefix first).
pub open spec fn lex_lt(a: Seq<char>, b: Seq<char>) -> bool
    decreases a.len(),
{
    if a.len() == 0 {
        b.len() > 0
    } else if b.len() == 0 {
        false
    } else if a[0] != b[0] {
        a[0] < b[0]
    } else {
        lex_lt(a.drop_first(), b.drop_first())
    }
}

/// The date stamp lies in the range: not before `from`, not after `to`.
pub open spec fn in_range(stamp: Seq<char>, from: Option<Seq<char>>, to: Option<Seq<char>>) -> bool {
    &&& match from {
        Some(f) => !lex_lt(stamp, f),
        None => true,
    }
    &&& match to {
        Some(t) => !lex_lt(t, stamp),
        None => true,
    }
}

/// A log with only the shown entries, newest first.
pub open spec fn prepared(l: LogView, filters: Seq<Seq<char>>) -> LogView {
    LogView {
        date_stamp: l.date_stamp,
        is_all: l.is_all,
        messages: sorted_newest_first(shown_messages(l.messages, filters)),
    }
}

/// The logs in range, prepared, in order.
pub open spec fn prepared_logs(
    ls: Seq<LogView>,
    filters: Seq<Seq<char>>,
    from: Option<Seq<char>>,
    to: Option<Seq<char>>,
) -> Seq<LogView>
    decreases ls.len(),
{
    if ls.len() == 0 {
        Seq::empty()
    } else {
        let rest = prepared_logs(ls.drop_last(), filters, from, to);
        if in_range(ls.last().date_stamp, from, to) {
            rest.push(prepared(ls.last(), filters))
        } else {
            rest
        }
    }
}

/// Where `l` goes among logs already ordered newest date first: after every
/// log whose date is not earlier (stable).
pub open spec fn log_insert_pos(s: Seq<LogView>, l: LogView) -> int
    decreases s.len(),
{
    if s.len() == 0 {
        0
    } else if !lex_lt(s[0].date_stamp, l.date_stamp) {
        1 + log_insert_pos(s.drop_first(), l)
    } else {
        0
    }
}

pub proof fn lemma_log_insert_pos(s: Seq<LogView>, l: LogView)
    ensures
        0 <= log_insert_pos(s, l) <= s.len(),
    decreases s.len(),
{
    if s.len() > 0 {
        lemma_log_insert_pos(s.drop_first(), l);
    }
}

/// Stable sort of the logs, newest date first.
pub open spec fn logs_newest_first(s: Seq<LogView>) -> Seq<LogView>
    decreases s.len(),
{
    if s.len() == 0 {
        s
    } else {
        let r = logs_newest_first(s.drop_last());
        proof {
            lemma_log_insert_pos(r, s.last());
        }
        r.insert(log_insert_pos(r, s.last()), s.last())
    }
}

// ---------------------------------------------------------------------------
// The lines
// ---------------------------------------------------------------------------

/// The first line of an entry: a tab, the time and a tab when there is a
/// time, `[x] ` or `[ ] ` for a task, and the first line of the text.
pub open spec fn head_line(m: MessageView, first: Seq<char>) -> Seq<char> {
    seq!['\t'] + (match m.timestamp {
        Some(t) => time_text(t) + seq!['\t'],
        None => Seq::empty(),
    }) + (match m.kind {
        EntryKind::Task { checked } => if checked {
            seq!['[', 'x', ']', ' ']
        } else {
            seq!['[', ' ', ']', ' ']
        },
        EntryKind::Memo => Seq::empty(),
    }) + first
}

/// A continuation line of an entry, indented by three tabs.
pub open spec fn tail_line(l: Seq<char>) -> ListLineView {
    ListLineView::Text(seq!['\t', '\t', '\t'] + l)
}

/// The lines of an entry; none when its text has no line.
pub open spec fn message_lines(m: MessageView) -> Seq<ListLineView> {
    let ls = lines_of(m.message);
    if ls.len() == 0 {
        Seq::empty()
    } else {
        seq![ListLineView::Text(head_line(m, ls[0]))] + ls.drop_first().map_values(
            |l: Seq<char>| tail_line(l),
        )
    }
}

/// The lines of entries in order.
pub open spec fn messages_lines(ms: Seq<MessageView>) -> Seq<ListLineView>
    decreases ms.len(),
{
    if ms.len() == 0 {
        Seq::empty()
    } else {
        messages_lines(ms.drop_last()) + message_lines(ms.last())
    }
}

/// The listing of ordered logs once `printed` entries have been shown:
/// logs without entries are skipped, each other log shows its date and as
/// many of its entries as the limit leaves, and the listing stops when the
/// limit is reached.
pub open spec fn render_logs(ls: Seq<LogView>, printed: int, limit: int) -> Seq<ListLineView>
    decreases ls.len(),
{
    if ls.len() == 0 || printed >= limit {
        Seq::empty()
    } else if ls[0].messages.len() == 0 {
        render_logs(ls.drop_first(), printed, limit)
    } else {
        let n = ls[0].messages.len();
        let shown = if printed + n <= limit {
            n as int
        } else {
            limit - printed
        };
        let rest = if printed + n >= limit {
            Seq::empty()
        } else {
            render_logs(ls.drop_first(), printed + n, limit)
        };
        seq![ListLineView::Date(ls[0].date_stamp)] + messages_lines(ls[0].messages.take(shown))
            + rest
    }
}

/// The whole listing.
pub open spec fn spec_listing(
    ls: Seq<LogView>,
    filters: Seq<Seq<char>>,
    limit: int,
    from: Option<Seq<char>>,
    to: Option<Seq<char>>,
) -> Seq<ListLineView> {
    if limit == 0 {
        Seq::empty()
    } else {
        render_logs(logs_newest_first(prepared_logs(ls, filters, from, to)), 0, limit)
    }
}

// ---------------------------------------------------------------------------
// Executable parts
// ---------------------------------------------------------------------------

pub fn chars_lex_lt(a: &[char], b: &[char]) -> (r: bool)
    ensures
        r == lex_lt(a@, b@),
{
    let mut i: usize = 0;
    assert(a@.skip(0) =~= a@);
    assert(b@.skip(0) =~= b@);
    while i < a.len() && i < b.len() && a[i] == b[i]
        invariant
            i <= a.len(),
            i <= b.len(),
            lex_lt(a@, b@) == lex_lt(a@.skip(i as int), b@.skip(i as int)),
        decreases a.len() - i,
    {
        proof {
            assert(a@.skip(i as int).drop_first() =~= a@.skip(i + 1));
            assert(b@.skip(i as int).drop_first() =~= b@.skip(i + 1));
        }
        i = i + 1;
    }
    proof {
        if i < a.len() && i < b.len() {
            assert(a@.skip(i as int)[0] == a@[i as int]);
            assert(b@.skip(i as int)[0] == b@[i as int]);
        }
    }
    if i == a.len() {
        i < b.len()
    } else if i == b.len() {
        false
    } else {
        a[i] < b[i]
    }
}

fn in_range_exec(stamp: &[char], from: &Option<Vec<char>>, to: &Option<Vec<char>>) -> (r: bool)
    ensures
        r == in_range(stamp@, crate::datalog::opt_chars(*from), crate::datalog::opt_chars(*to)),
{
    let ok_from = match from {
        Some(f) => !chars_lex_lt(stamp, f),
        None => true,
    };
    let ok_to = match to {
        Some(t) => !chars_lex_lt(t, stamp),
        None => true,
    };
    ok_from && ok_to
}

fn is_open_exec(m: &MessageLog) -> (r: bool)
    ensures
        r == is_open(m@),
{
    match m.kind {
        EntryKind::Memo => true,
        EntryKind::Task { checked } => !checked,
    }
}

/// The shown entries of a log, newest first.
fn prepare(log: &DataLog, tag_filters: &Vec<String>) -> (r: DataLog)
    ensures
        r@ == prepared(log@, views(tag_filters@)),
{
    let ghost ms = message_views(log.messages@);
    let mut kept: Vec<MessageLog> = Vec::new();
    let mut i: usize = 0;
    while i < log.messages.len()
        invariant
            i <= log.messages.len(),
            ms == message_views(log.messages@),
            message_views(kept@) == shown_messages(ms.take(i as int), views(tag_filters@)),
        decreases log.messages.len() - i,
    {
        let m = &log.messages[i];
        proof {
            assert(ms.take(i + 1).drop_last() =~= ms.take(i as int));
            assert(ms.take(i + 1).last() == m@);
        }
        if is_open_exec(m) && message_matches_tags(m.message.as_str(), tag_filters.as_slice()) {
            let ghost prev = kept@;
            kept.push(copy_message(m));
            proof {
                assert(message_views(kept@) =~= message_views(prev).push(m@));
            }
        }
        i = i + 1;
    }
    assert(ms.take(log.messages.len() as int) =~= ms);
    let mut r = DataLog { is_all: log.is_all, date_stamp: log.date_stamp.clone(), messages: kept };
    r.sort_messages();
    r
}

/// The lines of one entry, as `message_lines` states.
fn render_message_lines(out: &mut Vec<ListLine>, m: &MessageLog)
    ensures
        line_views(final(out)@) == line_views(old(out)@) + message_lines(m@),
{
    let parts = split_lines(m.message.as_str());
    let ghost ps = views(parts@);
    if parts.len() == 0 {
        assert(line_views(out@) =~= line_views(out@) + message_lines(m@));
        return;
    }
    let mut head: Vec<char> = vec!['\t'];
    match m.timestamp {
        Some(t) => {
            extend_chars(&mut head, &time_chars(t));
            head.push('\t');
        },
        None => {},
    }
    match m.kind {
        EntryKind::Task { checked } => {
            if checked {
                extend_chars(&mut head, &vec!['[', 'x', ']', ' ']);
            } else {
                extend_chars(&mut head, &vec!['[', ' ', ']', ' ']);
            }
        },
        EntryKind::Memo => {},
    }
    extend_chars(&mut head, &chars_of(parts[0].as_str()));
    assert(head@ =~= head_line(m@, ps[0]));
    let ghost start = line_views(out@);
    out.push(ListLine::Text(string_of(&head)));
    let mut k: usize = 1;
    while k < parts.len()
        invariant
            1 <= k <= parts.len(),
            ps == views(parts@),
            ps == lines_of(m@.message),
            ps.len() > 0,
            line_views(out@) == start + seq![ListLineView::Text(head_line(m@, ps[0]))] + ps.drop_first().take(k - 1).map_values(|l: Seq<char>| tail_line(l)),
        decreases parts.len() - k,
    {
        let mut line: Vec<char> = vec!['\t', '\t', '\t'];
        extend_chars(&mut line, &chars_of(parts[k].as_str()));
        let ghost prev = line_views(out@);
        out.push(ListLine::Text(string_of(&line)));
        proof {
            assert(ps.drop_first().take(k as int) =~= ps.drop_first().take(k - 1).push(ps[k as int]));
            assert(line_views(out@) =~= prev.push(tail_line(ps[k as int])));
            assert(line_views(out@) =~= start + seq![ListLineView::Text(head_line(m@, ps[0]))] + ps.drop_first().take(k as int).map_values(|l: Seq<char>| tail_line(l)));
        }
        k = k + 1;
    }
    assert(ps.drop_first().take(parts.len() - 1) =~= ps.drop_first());
}


fn opt_chars_of(o: Option<&str>) -> (r: Option<Vec<char>>)
    ensures
        crate::datalog::opt_chars(r) == crate::datalog::opt_str(o),
{
    match o {
        Some(s) => Some(chars_of(s)),
        None => None,
    }
}

/// The logs in range, prepared, newest date first.
fn ordered_logs(entries: &Vec<DataLog>, tag_filters: &Vec<String>, from: Option<&str>, to: Option<&str>) -> (r: Vec<DataLog>)
    ensures
        log_views(r@) == logs_newest_first(prepared_logs(log_views(entries@), views(tag_filters@), crate::datalog::opt_str(from), crate::datalog::opt_str(to))),
{
    let ghost lv = log_views(entries@);
    let ghost fv = crate::datalog::opt_str(from);
    let ghost tv = crate::datalog::opt_str(to);
    let f = opt_chars_of(from);
    let t = opt_chars_of(to);
    let mut sorted: Vec<DataLog> = Vec::new();
    let mut i: usize = 0;
    while i < entries.len()
        invariant
            i <= entries.len(),
            lv == log_views(entries@),
            crate::datalog::opt_chars(f) == fv,
            crate::datalog::opt_chars(t) == tv,
            log_views(sorted@) == logs_newest_first(prepared_logs(lv.take(i as int), views(tag_filters@), fv, tv)),
        decreases entries.len() - i,
    {
        let log = &entries[i];
        let ghost prev_pl = prepared_logs(lv.take(i as int), views(tag_filters@), fv, tv);
        proof {
            assert(lv.take(i + 1).drop_last() =~= lv.take(i as int));
            assert(lv.take(i + 1).last() == log@);
        }
        if in_range_exec(&chars_of(log.date_stamp.as_str()), &f, &t) {
            let p_log = prepare(log, tag_filters);
            let stamp = chars_of(p_log.date_stamp.as_str());
            let ghost sv = log_views(sorted@);
            let mut p: usize = 0;
            assert(sv.skip(0) =~= sv);
            while p < sorted.len() && !chars_lex_lt(&chars_of(sorted[p].date_stamp.as_str()), &stamp)
                invariant
                    p <= sorted.len(),
                    sv == log_views(sorted@),
                    stamp@ == p_log@.date_stamp,
                    log_insert_pos(sv, p_log@) == p + log_insert_pos(sv.skip(p as int), p_log@),
                decreases sorted.len() - p,
            {
                proof {
                    let u = sv.skip(p as int);
                    assert(sv[p as int] == sorted@[p as int]@);
                    assert(u[0] == sv[p as int]);
                    assert(u.drop_first() =~= sv.skip(p + 1));
                }
                p = p + 1;
            }
            proof {
                let u = sv.skip(p as int);
                if p < sorted.len() {
                    assert(sv[p as int] == sorted@[p as int]@);
                    assert(u[0] == sv[p as int]);
                }
                assert(prepared_logs(lv.take(i + 1), views(tag_filters@), fv, tv) == prev_pl.push(p_log@));
                assert(prev_pl.push(p_log@).drop_last() =~= prev_pl);
            }
            let ghost pv = p_log@;
            sorted.insert(p, p_log);
            proof {
                assert(log_views(sorted@) =~= sv.insert(p as int, pv));
            }
        }
        i = i + 1;
    }
    assert(lv.take(entries.len() as int) =~= lv);
    sorted
}

/// List: the lines of the timeline, as `spec_listing` states: logs in the
/// date range, newest date first, each with its open entries that pass the
/// tag filters, newest time first, at most `limit` entries in all.
pub fn list_entries(
    entries: &Vec<DataLog>,
    tag_filters: &Vec<String>,
    limit: usize,
    from: Option<&str>,
    to: Option<&str>,
) -> (r: Vec<ListLine>)
    ensures
        line_views(r@) == spec_listing(log_views(entries@), views(tag_filters@), limit as int, crate::datalog::opt_str(from), crate::datalog::opt_str(to)),
{
    let mut out: Vec<ListLine> = Vec::new();
    if limit == 0 {
        assert(line_views(out@) =~= Seq::<ListLineView>::empty());
        return out;
    }
    let sorted = ordered_logs(entries, tag_filters, from, to);
    let ghost sv = log_views(sorted@);
    let mut printed: usize = 0;
    let mut i: usize = 0;
    assert(sv.skip(0) =~= sv);
    assert(line_views(out@) + render_logs(sv, 0, limit as int) =~= render_logs(sv, 0, limit as int));
    while i < sorted.len() && printed < limit
        invariant
            i <= sorted.len(),
            printed <= limit,
            sv == log_views(sorted@),
            line_views(out@) + render_logs(sv.skip(i as int), printed as int, limit as int) == render_logs(sv, 0, limit as int),
        decreases sorted.len() - i,
    {
        let log = &sorted[i];
        let ghost u = sv.skip(i as int);
        proof {
            assert(u[0] == sv[i as int]);
            assert(sv[i as int] == log@);
            assert(u.drop_first() =~= sv.skip(i + 1));
        }
        if log.messages.len() == 0 {
            i = i + 1;
            continue;
        }
        let ghost base = line_views(out@);
        let ghost p0 = printed as int;
        let ghost ms = message_views(log.messages@);
        out.push(ListLine::Date(log.date_stamp.clone()));
        let mut j: usize = 0;
        assert(ms.take(0) =~= Seq::<MessageView>::empty());
        assert(line_views(out@) =~= base + seq![ListLineView::Date(log@.date_stamp)] + messages_lines(ms.take(0)));
        while j < log.messages.len() && printed < limit
            invariant
                j <= log.messages.len(),
                printed as int == p0 + j,
                printed <= limit,
                ms == message_views(log.messages@),
                line_views(out@) == base + seq![ListLineView::Date(log@.date_stamp)] + messages_lines(ms.take(j as int)),
            decreases log.messages.len() - j,
        {
            let ghost before = line_views(out@);
            render_message_lines(&mut out, &log.messages[j]);
            proof {
                assert(ms.take(j + 1).drop_last() =~= ms.take(j as int));
                assert(ms.take(j + 1).last() == log.messages@[j as int]@);
                assert(line_views(out@) =~= base + seq![ListLineView::Date(log@.date_stamp)] + messages_lines(ms.take(j + 1)));
            }
            printed = printed + 1;
            j = j + 1;
        }
        proof {
            let n = ms.len();
            let shown = if p0 + n <= limit { n as int } else { limit - p0 };
            assert(j == shown);
            let rest = if p0 + n >= limit { Seq::<ListLineView>::empty() } else { render_logs(u.drop_first(), p0 + n, limit as int) };
            assert(render_logs(u, p0, limit as int) == seq![ListLineView::Date(u[0].date_stamp)] + messages_lines(u[0].messages.take(shown)) + rest);
            if p0 + n >= limit {
                assert(printed >= limit);
                assert(render_logs(sv.skip(i + 1), printed as int, limit as int) == Seq::<ListLineView>::empty());
            }
            assert(line_views(out@) + render_logs(sv.skip(i + 1), printed as int, limit as int) =~= base + render_logs(u, p0, limit as int));
        }
        i = i + 1;
    }
    proof {
        assert(render_logs(sv.skip(i as int), printed as int, limit as int) == Seq::<ListLineView>::empty());
        assert(line_views(out@) + Seq::<ListLineView>::empty() =~= line_views(out@));
    }
    out
}

} // verus!
