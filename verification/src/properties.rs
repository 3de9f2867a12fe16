//! Properties of the library as a whole: what one operation gives back of
//! another.
use vstd::prelude::*;
use crate::add::{
    entry_message, formatted_message, lemma_block_end_bounds, place_entry, spec_insert_index,
};
use crate::last_edit::{first_list_in, last_list_in, primary_target, spec_last_inserted};
use crate::list::{
    in_range, is_open, lex_lt, log_insert_pos, shown_messages, lemma_log_insert_pos, logs_newest_first, message_lines,
    messages_lines, prepared, prepared_logs, render_logs, spec_listing, ListLineView,
};
use crate::datalog::LogView;
use crate::markdown::{
    last_trimmed_eq, lemma_last_trimmed_eq_bounds, lemma_list_not_heading,
    lemma_next_heading_bounds, next_heading, spec_is_heading, spec_is_list,
};
use crate::clock::{clock_value, date_text, digit_char, digits, padded, time_le, time_or_midnight, Date};
use crate::config::{lemma_text_insert_pos, sorted_texts, spec_merge, text_insert_pos, ConfigView};
use crate::tags::{
    carries_tag, lemma_space_pos_at, spec_matches_tags, spec_normalize_tag, word_tag, words,
};
use crate::datalog::{
    accept_entry, insert_pos, lemma_insert_pos_bounds, parse_lines, parse_step, sorted_newest_first,
    state_ok, EntryKind, MessageView,
};
use crate::grammar::{
    after_checkbox, checkbox_at, clock_at, clock_shape_at, marker_end, no_newline_from,
    parse_entry, space_run, EntryParts,
};
use crate::tags::tag_prefix;
use crate::done::{
    box_at, has_open_box, lemma_task_insert_pos, spec_is_open_task, task_earlier, task_insert_pos,
    tasks_newest_first, ticked, TaskView,
};
use crate::grammar::decimal_run;
use crate::text::{
    is_ascii_space, is_decimal, is_space, join_with, lemma_newline_pos, lines_of, newline_pos,
    strip_cr, trim, trim_end, trim_start,
};

verus! {

/// The text of a memo line after its clock: the `#tag` prefix and the
/// (linked) message.
pub open spec fn entry_body(tags: Seq<Seq<char>>, message: Seq<char>, link: Option<Seq<char>>) -> Seq<char> {
    tag_prefix(tags) + formatted_message(message, link)
}

proof fn lemma_decimal_not_space(c: char)
    requires
        is_decimal(c),
    ensures
        !is_space(c),
{
}

/// A memo line written with a clock reads back as the entry it records: the
/// entry grammar (with or without `--all`) finds the checkbox (`[ ]` for a
/// task), the clock, and, as the message, the tag prefix and the message;
/// read as an entry it is an open task or a memo with that clock's time.
/// This holds where the text after the clock is one line that does not
/// start with whitespace (else the reader takes that whitespace as part of
/// the separator).
#[verifier::spinoff_prover]
pub proof fn law_entry_reads_back(
    clock: Seq<char>,
    tags: Seq<Seq<char>>,
    message: Seq<char>,
    link: Option<Seq<char>>,
    checkbox: bool,
    is_all: bool,
)
    requires
        clock.len() == 8,
        clock_shape_at(clock, 0),
        no_newline_from(entry_body(tags, message, link), 0),
        entry_body(tags, message, link).len() > 0 ==> !is_space(entry_body(tags, message, link)[0]),
    ensures
        parse_entry(entry_message(clock + seq![' '], tags, message, link, checkbox), is_all) == Some(
            EntryParts {
                checkbox: if checkbox {
                    Some(' ')
                } else {
                    None
                },
                clock: Some(clock),
                message: entry_body(tags, message, link),
            },
        ),
        accept_entry(entry_message(clock + seq![' '], tags, message, link, checkbox), false, false, is_all)
            == Some(
            MessageView {
                timestamp: clock_value(clock),
                kind: if checkbox {
                    EntryKind::Task { checked: false }
                } else {
                    EntryKind::Memo
                },
                message: entry_body(tags, message, link),
            },
        ),
{
    let body = entry_body(tags, message, link);
    let cb: Seq<char> = if checkbox {
        seq!['[', ' ', ']', ' ']
    } else {
        Seq::empty()
    };
    let s = entry_message(clock + seq![' '], tags, message, link, checkbox);
    let e: int = if checkbox {
        6
    } else {
        2
    };
    assert(s =~= seq!['-', ' '] + cb + clock + seq![' '] + body);
    assert(s.len() == e + 9 + body.len());
    assert forall|j: int| 0 <= j < 8 implies s[e + j] == clock[j] by {}
    assert(s[e + 8] == ' ');
    assert forall|j: int| 0 <= j < body.len() implies s[e + 9 + j] == body[j] by {}
    // no leading whitespace; the marker is `- `
    assert(!is_space(s[0]));
    assert(space_run(s, 0) == 0);
    assert(marker_end(s, 0, false) == 2);
    lemma_decimal_not_space(clock[0]);
    if checkbox {
        assert(checkbox_at(s, 2));
        assert(s[5] == ' ');
        assert(s[6] == clock[0]);
        assert(space_run(s, 6) == 0);
        assert(space_run(s, 5) == 1);
        assert(after_checkbox(s, 2) == 6);
    } else {
        assert(s[4] == clock[2]);
        assert(!checkbox_at(s, 2));
        assert(after_checkbox(s, 2) == 2);
    }
    assert(clock_shape_at(s, e));
    assert(clock_at(s, e));
    if body.len() > 0 {
        assert(s[e + 9] == body[0]);
        assert(space_run(s, e + 9) == 0);
    } else {
        assert(space_run(s, e + 9) == 0);
    }
    assert(space_run(s, e + 8) == 1);
    assert(s.skip(e + 9) =~= body);
    assert(s.subrange(e, e + 8) =~= clock);
    assert(no_newline_from(s, e + 9)) by {
        assert forall|j: int| e + 9 <= j < s.len() implies s[j] != '\n' by {
            assert(s[j] == body[j - e - 9]);
        }
    }
}

// ---------------------------------------------------------------------------
// Adding, then editing the last memo
// ---------------------------------------------------------------------------

/// The index at which `place_entry` puts a memo.
pub open spec fn placed_index(ls: Seq<Seq<char>>, anchor: Option<Seq<char>>, end_line: bool) -> int {
    let n = ls.len() as int;
    match anchor {
        Some(t) => spec_insert_index(ls, last_trimmed_eq(ls, n, t), end_line),
        None => if end_line {
            n
        } else {
            last_trimmed_eq(ls, n, seq!['-', '-', '-']) + 1
        },
    }
}

proof fn lemma_last_trimmed_eq_is(ls: Seq<Seq<char>>, i: int, t: Seq<char>, k: int)
    requires
        0 <= i <= ls.len(),
        -1 <= k < i,
        k >= 0 ==> trim(ls[k]) == t,
        forall|j: int| k < j < i ==> trim(#[trigger] ls[j]) != t,
    ensures
        last_trimmed_eq(ls, i, t) == k,
    decreases i,
{
    if i > 0 && k < i - 1 {
        lemma_last_trimmed_eq_is(ls, i - 1, t, k);
    }
}

proof fn lemma_next_heading_is(ls: Seq<Seq<char>>, i: int, k: int)
    requires
        0 <= i <= k <= ls.len(),
        k < ls.len() ==> spec_is_heading(ls[k]),
        forall|j: int| i <= j < k ==> !spec_is_heading(#[trigger] ls[j]),
    ensures
        next_heading(ls, i) == k,
    decreases k - i,
{
    if i < k {
        lemma_next_heading_is(ls, i + 1, k);
    }
}

proof fn lemma_last_list_in_is(ls: Seq<Seq<char>>, from: int, i: int, k: int)
    requires
        0 <= from <= k < i <= ls.len(),
        spec_is_list(ls[k]),
        forall|j: int| k < j < i ==> !spec_is_list(#[trigger] ls[j]),
    ensures
        last_list_in(ls, from, i) == k,
    decreases i - k,
{
    if k < i - 1 {
        lemma_last_list_in_is(ls, from, i - 1, k);
    }
}

proof fn lemma_trim_end_prefix(s: Seq<char>)
    ensures
        trim_end(s).len() <= s.len(),
        forall|j: int| 0 <= j < trim_end(s).len() ==> #[trigger] trim_end(s)[j] == s[j],
    decreases s.len(),
{
    if s.len() > 0 && is_space(s.last()) {
        lemma_trim_end_prefix(s.drop_last());
    }
}

proof fn lemma_trim_start_first(s: Seq<char>)
    ensures
        trim_start(s).len() > 0 ==> !is_space(trim_start(s)[0]),
    decreases s.len(),
{
    if s.len() > 0 && is_space(s[0]) {
        lemma_trim_start_first(s.drop_first());
    }
}

/// A list item never trims to `---`.
proof fn lemma_list_not_rule(s: Seq<char>)
    requires
        spec_is_list(s),
    ensures
        trim(s) != seq!['-', '-', '-'],
{
    let l = trim_start(s);
    lemma_trim_end_prefix(l);
    if trim(s) == seq!['-', '-', '-'] {
        assert(trim_end(l)[0] == l[0]);
        assert(trim_end(l)[1] == l[1]);
        assert(l[0] == '-');
        assert(is_ascii_space(l[1]));
        assert(false);
    }
}

/// What `--last-edit` rewrites is the memo that adding put in the file:
/// after `place_entry` puts a list-item line at `placed_index`, the line
/// that `spec_last_inserted` picks (with the same anchor and `end_line`) is
/// that line.  With an anchor the memo must not itself read as the anchor
/// line; with an anchor and `end_line` the law needs the anchor's section to
/// hold no list item after the block the memo ends (else the last of those
/// is picked).
#[verifier::spinoff_prover]
pub proof fn law_last_edit_finds_added(
    ls: Seq<Seq<char>>,
    entry: Seq<char>,
    anchor: Option<Seq<char>>,
    end_line: bool,
)
    requires
        spec_is_list(entry),
        place_entry(ls, entry, anchor, end_line) is Some,
        match anchor {
            Some(t) => {
                &&& trim(entry) != t
                &&& end_line ==> forall|j: int|
                    placed_index(ls, anchor, true) <= j < next_heading(ls, last_trimmed_eq(ls, ls.len() as int, t) + 1)
                        ==> !spec_is_list(#[trigger] ls[j])
            },
            None => true,
        },
    ensures
        0 <= placed_index(ls, anchor, end_line) <= ls.len(),
        place_entry(ls, entry, anchor, end_line) == Some(ls.insert(placed_index(ls, anchor, end_line), entry)),
        spec_last_inserted(ls.insert(placed_index(ls, anchor, end_line), entry), anchor, end_line)
            == placed_index(ls, anchor, end_line),
{
    let n = ls.len() as int;
    let p = placed_index(ls, anchor, end_line);
    let rule = seq!['-', '-', '-'];
    lemma_list_not_heading(entry);
    lemma_list_not_rule(entry);
    match anchor {
        None => {
            if end_line {
                let ls2 = ls.insert(n, entry);
                assert(ls2 =~= ls.push(entry));
                assert(ls2[n] == entry);
                assert(last_list_in(ls2, 0, n + 1) == n);
                assert(primary_target(ls2, anchor, end_line) == n);
            } else {
                lemma_last_trimmed_eq_bounds(ls, n, rule);
                let a = last_trimmed_eq(ls, n, rule);
                let ls2 = ls.insert(p, entry);
                assert(p == a + 1);
                assert forall|j: int| a < j < n + 1 implies trim(#[trigger] ls2[j]) != rule by {
                    if j > p {
                        assert(ls2[j] == ls[j - 1]);
                    }
                }
                if a >= 0 {
                    assert(ls2[a] == ls[a]);
                }
                lemma_last_trimmed_eq_is(ls2, n + 1, rule, a);
                assert(ls2[p] == entry);
                assert(first_list_in(ls2, p, n + 1) == p);
                assert(primary_target(ls2, anchor, end_line) == p);
            }
        },
        Some(t) => {
            lemma_last_trimmed_eq_bounds(ls, n, t);
            let a = last_trimmed_eq(ls, n, t);
            assert(a >= 0);
            lemma_next_heading_bounds(ls, a + 1);
            let hh = next_heading(ls, a + 1);
            if end_line {
                lemma_block_end_bounds(ls, a + 1);
            }
            assert(a + 1 <= p <= hh);
            let ls2 = ls.insert(p, entry);
            assert(ls2[p] == entry);
            assert(ls2[a] == ls[a]);
            assert forall|j: int| a < j < n + 1 implies trim(#[trigger] ls2[j]) != t by {
                if j > p {
                    assert(ls2[j] == ls[j - 1]);
                } else if j < p {
                    assert(ls2[j] == ls[j]);
                }
            }
            lemma_last_trimmed_eq_is(ls2, n + 1, t, a);
            if !end_line {
                assert(p == a + 1);
                lemma_next_heading_bounds(ls2, a + 1);
                let h2 = next_heading(ls2, a + 1);
                assert(h2 != p);
                assert(first_list_in(ls2, p, h2) == p);
                assert(primary_target(ls2, anchor, end_line) == p);
            } else {
                assert forall|j: int| a + 1 <= j < hh + 1 implies !spec_is_heading(#[trigger] ls2[j]) by {
                    if j > p {
                        assert(ls2[j] == ls[j - 1]);
                    } else if j < p {
                        assert(ls2[j] == ls[j]);
                    }
                }
                if hh < n {
                    assert(ls2[hh + 1] == ls[hh]);
                }
                lemma_next_heading_is(ls2, a + 1, hh + 1);
                assert forall|j: int| p < j < hh + 1 implies !spec_is_list(#[trigger] ls2[j]) by {
                    assert(ls2[j] == ls[j - 1]);
                }
                lemma_last_list_in_is(ls2, a + 1, hh + 1, p);
                assert(primary_target(ls2, anchor, end_line) == p);
            }
        },
    }
}

/// Every memo line is a list item.
pub proof fn law_memo_line_is_list(
    time: Seq<char>,
    tags: Seq<Seq<char>>,
    message: Seq<char>,
    link: Option<Seq<char>>,
    checkbox: bool,
)
    ensures
        spec_is_list(entry_message(time, tags, message, link, checkbox)),
{
    let s = entry_message(time, tags, message, link, checkbox);
    assert(s[0] == '-');
    assert(s[1] == ' ');
    assert(!is_space(s[0]));
    assert(trim_start(s) == s);
}

// ---------------------------------------------------------------------------
// Ordering
// ---------------------------------------------------------------------------

/// The time an entry is ordered by: its clock, midnight when it has none.
pub open spec fn entry_time(m: MessageView) -> crate::clock::Time {
    time_or_midnight(m.timestamp)
}

/// Entries newest first: no entry is earlier than one after it.
pub open spec fn newest_first(s: Seq<MessageView>) -> bool {
    forall|i: int, j: int| 0 <= i < j < s.len() ==> time_le(entry_time(#[trigger] s[j]), entry_time(#[trigger] s[i]))
}

/// `a` is strictly earlier than `b`.
pub open spec fn strictly_earlier(a: MessageView, b: MessageView) -> bool {
    time_le(entry_time(a), entry_time(b)) && entry_time(a) != entry_time(b)
}

proof fn lemma_insert_pos_splits(s: Seq<MessageView>, m: MessageView)
    ensures
        forall|i: int| 0 <= i < insert_pos(s, m) ==> !strictly_earlier(#[trigger] s[i], m),
        insert_pos(s, m) < s.len() ==> strictly_earlier(s[insert_pos(s, m)], m),
    decreases s.len(),
{
    lemma_insert_pos_bounds(s, m);
    if s.len() > 0 && !strictly_earlier(s[0], m) {
        lemma_insert_pos_splits(s.drop_first(), m);
        assert(insert_pos(s, m) == 1 + insert_pos(s.drop_first(), m));
        assert forall|i: int| 0 <= i < insert_pos(s, m) implies !strictly_earlier(#[trigger] s[i], m) by {
            if i > 0 {
                assert(s[i] == s.drop_first()[i - 1]);
            }
        }
        let k = insert_pos(s, m);
        lemma_insert_pos_bounds(s.drop_first(), m);
        if k < s.len() {
            assert(0 <= k - 1 < s.drop_first().len());
            assert(s[k] == s.drop_first()[k - 1]);
        }
    }
}

proof fn lemma_insert_multiset<A>(r: Seq<A>, p: int, m: A)
    requires
        0 <= p <= r.len(),
    ensures
        r.insert(p, m).to_multiset() =~= r.to_multiset().insert(m),
{
    broadcast use vstd::seq_lib::group_to_multiset_ensures;
    broadcast use vstd::multiset::group_multiset_axioms;
    let s = r.insert(p, m);
    assert(s.remove(p) =~= r);
    assert(s[p] == m);
    assert(s.contains(m));
    assert(s.to_multiset().count(m) > 0);
}

/// Sorting a log's entries keeps each entry, as often as it occurs, and
/// leaves them newest first.
#[verifier::spinoff_prover]
pub proof fn law_entries_sorted_newest_first(s: Seq<MessageView>)
    ensures
        sorted_newest_first(s).to_multiset() == s.to_multiset(),
        newest_first(sorted_newest_first(s)),
    decreases s.len(),
{
    broadcast use vstd::seq_lib::group_to_multiset_ensures;
    if s.len() > 0 {
        let r = sorted_newest_first(s.drop_last());
        law_entries_sorted_newest_first(s.drop_last());
        let m = s.last();
        lemma_insert_pos_bounds(r, m);
        lemma_insert_pos_splits(r, m);
        let p = insert_pos(r, m);
        let t = r.insert(p, m);
        lemma_insert_multiset(r, p, m);
        assert(s =~= s.drop_last().push(m));
        assert forall|i: int, j: int| 0 <= i < j < t.len() implies time_le(
            entry_time(#[trigger] t[j]),
            entry_time(#[trigger] t[i]),
        ) by {
            if j < p {
                assert(t[i] == r[i] && t[j] == r[j]);
            } else if j == p {
                assert(t[i] == r[i]);
                assert(!strictly_earlier(r[i], m));
            } else if i > p {
                assert(t[i] == r[i - 1] && t[j] == r[j - 1]);
            } else if i == p {
                assert(t[j] == r[j - 1]);
                assert(strictly_earlier(r[p], m));
                if j - 1 > p {
                    assert(time_le(entry_time(r[j - 1]), entry_time(r[p])));
                }
            } else {
                assert(t[i] == r[i] && t[j] == r[j - 1]);
            }
        }
    }
}

// ---------------------------------------------------------------------------
// The order of date stamps
// ---------------------------------------------------------------------------

/// No text sorts before itself.
pub proof fn lemma_lex_lt_irreflexive(a: Seq<char>)
    ensures
        !lex_lt(a, a),
    decreases a.len(),
{
    if a.len() > 0 {
        lemma_lex_lt_irreflexive(a.drop_first());
    }
}

/// Sorting before is transitive.
pub proof fn lemma_lex_lt_transitive(a: Seq<char>, b: Seq<char>, c: Seq<char>)
    requires
        lex_lt(a, b),
        lex_lt(b, c),
    ensures
        lex_lt(a, c),
    decreases a.len(),
{
    if a.len() > 0 && b.len() > 0 && c.len() > 0 && a[0] == b[0] && b[0] == c[0] {
        lemma_lex_lt_transitive(a.drop_first(), b.drop_first(), c.drop_first());
    }
}

/// Of two different texts, one sorts before the other.
pub proof fn lemma_lex_lt_total(a: Seq<char>, b: Seq<char>)
    ensures
        lex_lt(a, b) || a == b || lex_lt(b, a),
    decreases a.len(),
{
    if a.len() > 0 && b.len() > 0 && a[0] == b[0] {
        lemma_lex_lt_total(a.drop_first(), b.drop_first());
        if a.drop_first() == b.drop_first() {
            assert(a =~= seq![a[0]] + a.drop_first());
            assert(b =~= seq![b[0]] + b.drop_first());
        }
    } else if a.len() == 0 && b.len() == 0 {
        assert(a =~= b);
    }
}

proof fn lemma_lex_lt_asymmetric(a: Seq<char>, b: Seq<char>)
    requires
        lex_lt(a, b),
    ensures
        !lex_lt(b, a),
{
    if lex_lt(b, a) {
        lemma_lex_lt_transitive(a, b, a);
        lemma_lex_lt_irreflexive(a);
    }
}

/// Logs newest date first: no log's date sorts before that of a log after it.
pub open spec fn logs_ordered(s: Seq<LogView>) -> bool {
    forall|i: int, j: int| 0 <= i < j < s.len() ==> !lex_lt(#[trigger] s[i].date_stamp, #[trigger] s[j].date_stamp)
}

proof fn lemma_log_insert_pos_splits(s: Seq<LogView>, l: LogView)
    ensures
        forall|i: int| 0 <= i < log_insert_pos(s, l) ==> !lex_lt(#[trigger] s[i].date_stamp, l.date_stamp),
        log_insert_pos(s, l) < s.len() ==> lex_lt(s[log_insert_pos(s, l)].date_stamp, l.date_stamp),
    decreases s.len(),
{
    lemma_log_insert_pos(s, l);
    if s.len() > 0 && !lex_lt(s[0].date_stamp, l.date_stamp) {
        lemma_log_insert_pos_splits(s.drop_first(), l);
        lemma_log_insert_pos(s.drop_first(), l);
        assert(log_insert_pos(s, l) == 1 + log_insert_pos(s.drop_first(), l));
        assert forall|i: int| 0 <= i < log_insert_pos(s, l) implies !lex_lt(#[trigger] s[i].date_stamp, l.date_stamp) by {
            if i > 0 {
                assert(s[i] == s.drop_first()[i - 1]);
            }
        }
        let k = log_insert_pos(s, l);
        if k < s.len() {
            assert(s[k] == s.drop_first()[k - 1]);
        }
    }
}

/// Ordering logs keeps each log, as often as it occurs, and leaves them
/// newest date first.
#[verifier::spinoff_prover]
pub proof fn law_logs_sorted_newest_first(s: Seq<LogView>)
    ensures
        logs_newest_first(s).to_multiset() == s.to_multiset(),
        logs_ordered(logs_newest_first(s)),
    decreases s.len(),
{
    broadcast use vstd::seq_lib::group_to_multiset_ensures;
    if s.len() > 0 {
        let r = logs_newest_first(s.drop_last());
        law_logs_sorted_newest_first(s.drop_last());
        let l = s.last();
        lemma_log_insert_pos(r, l);
        lemma_log_insert_pos_splits(r, l);
        let p = log_insert_pos(r, l);
        let t = r.insert(p, l);
        lemma_insert_multiset(r, p, l);
        assert(s =~= s.drop_last().push(l));
        assert forall|i: int, j: int| 0 <= i < j < t.len() implies !lex_lt(
            #[trigger] t[i].date_stamp,
            #[trigger] t[j].date_stamp,
        ) by {
            if j < p {
                assert(t[i] == r[i] && t[j] == r[j]);
            } else if j == p {
                assert(t[i] == r[i]);
            } else if i > p {
                assert(t[i] == r[i - 1] && t[j] == r[j - 1]);
            } else if i == p {
                assert(t[j] == r[j - 1]);
                let a = r[j - 1].date_stamp;
                let b = r[p].date_stamp;
                if j - 1 > p {
                    assert(!lex_lt(b, a));
                    lemma_lex_lt_total(a, b);
                    if lex_lt(a, b) {
                        lemma_lex_lt_transitive(a, b, l.date_stamp);
                    }
                }
                assert(lex_lt(a, l.date_stamp));
                lemma_lex_lt_asymmetric(a, l.date_stamp);
            } else {
                assert(t[i] == r[i] && t[j] == r[j - 1]);
            }
        }
    }
}

// ---------------------------------------------------------------------------
// The listing
// ---------------------------------------------------------------------------

/// The dates a listing shows, in order.
pub open spec fn date_lines(o: Seq<ListLineView>) -> Seq<Seq<char>>
    decreases o.len(),
{
    if o.len() == 0 {
        Seq::empty()
    } else {
        let r = date_lines(o.drop_last());
        match o.last() {
            ListLineView::Date(d) => r.push(d),
            ListLineView::Text(_) => r,
        }
    }
}

proof fn lemma_date_lines_concat(a: Seq<ListLineView>, b: Seq<ListLineView>)
    ensures
        date_lines(a + b) == date_lines(a) + date_lines(b),
    decreases b.len(),
{
    if b.len() == 0 {
        assert(a + b =~= a);
        assert(date_lines(a) + date_lines(b) =~= date_lines(a));
    } else {
        lemma_date_lines_concat(a, b.drop_last());
        assert((a + b).drop_last() =~= a + b.drop_last());
        assert((a + b).last() == b.last());
        match b.last() {
            ListLineView::Date(d) => {
                assert(date_lines(a) + date_lines(b.drop_last()).push(d) =~= (date_lines(a) + date_lines(b.drop_last())).push(d));
            },
            ListLineView::Text(_) => {},
        }
    }
}

proof fn lemma_text_only(o: Seq<ListLineView>)
    requires
        forall|k: int| 0 <= k < o.len() ==> #[trigger] o[k] is Text,
    ensures
        date_lines(o) == Seq::<Seq<char>>::empty(),
    decreases o.len(),
{
    if o.len() > 0 {
        lemma_text_only(o.drop_last());
    }
}

proof fn lemma_messages_no_dates(ms: Seq<MessageView>)
    ensures
        date_lines(messages_lines(ms)) == Seq::<Seq<char>>::empty(),
    decreases ms.len(),
{
    if ms.len() > 0 {
        lemma_messages_no_dates(ms.drop_last());
        let ml = message_lines(ms.last());
        assert forall|k: int| 0 <= k < ml.len() implies #[trigger] ml[k] is Text by {}
        lemma_text_only(ml);
        lemma_date_lines_concat(messages_lines(ms.drop_last()), ml);
    }
}

/// `d` is the date of one of the logs.
pub open spec fn stamp_in(ls: Seq<LogView>, d: Seq<char>) -> bool {
    exists|x: int| 0 <= x < ls.len() && #[trigger] ls[x].date_stamp == d
}

#[verifier::spinoff_prover]
proof fn lemma_render_dates(ls: Seq<LogView>, printed: int, limit: int)
    requires
        logs_ordered(ls),
    ensures
        forall|k: int| 0 <= k < date_lines(render_logs(ls, printed, limit)).len() ==> stamp_in(ls, #[trigger] date_lines(render_logs(ls, printed, limit))[k]),
        forall|i: int, j: int| 0 <= i < j < date_lines(render_logs(ls, printed, limit)).len() ==> !lex_lt(
            #[trigger] date_lines(render_logs(ls, printed, limit))[i],
            #[trigger] date_lines(render_logs(ls, printed, limit))[j],
        ),
    decreases ls.len(),
{
    if ls.len() == 0 || printed >= limit {
    } else {
        let rest_logs = ls.drop_first();
        assert(logs_ordered(rest_logs)) by {
            assert forall|i: int, j: int| 0 <= i < j < rest_logs.len() implies !lex_lt(
                #[trigger] rest_logs[i].date_stamp,
                #[trigger] rest_logs[j].date_stamp,
            ) by {
                assert(rest_logs[i] == ls[i + 1] && rest_logs[j] == ls[j + 1]);
            }
        }
        let n = ls[0].messages.len();
        if n == 0 {
            lemma_render_dates(rest_logs, printed, limit);
            let dl = date_lines(render_logs(rest_logs, printed, limit));
            assert forall|k: int| 0 <= k < dl.len() implies stamp_in(ls, #[trigger] dl[k]) by {
                let x = choose|x: int| 0 <= x < rest_logs.len() && #[trigger] rest_logs[x].date_stamp == dl[k];
                assert(ls[x + 1] == rest_logs[x]);
            }
        } else {
            let shown = if printed + n <= limit {
                n as int
            } else {
                limit - printed
            };
            let rest = if printed + n >= limit {
                Seq::<ListLineView>::empty()
            } else {
                render_logs(rest_logs, printed + n, limit)
            };
            let head = seq![ListLineView::Date(ls[0].date_stamp)];
            let ml = messages_lines(ls[0].messages.take(shown));
            let o = render_logs(ls, printed, limit);
            assert(o == head + ml + rest);
            lemma_date_lines_concat(head + ml, rest);
            lemma_date_lines_concat(head, ml);
            lemma_messages_no_dates(ls[0].messages.take(shown));
            assert(date_lines(head) =~= seq![ls[0].date_stamp]) by {
                let e = head.drop_last();
                assert(e.len() == 0);
                assert(date_lines(e) == Seq::<Seq<char>>::empty());
                assert(head.last() == ListLineView::Date(ls[0].date_stamp));
            }
            let dr = date_lines(rest);
            if printed + n < limit {
                lemma_render_dates(rest_logs, printed + n, limit);
            } else {
                assert(dr =~= Seq::<Seq<char>>::empty());
            }
            let dl = date_lines(o);
            assert(dl =~= seq![ls[0].date_stamp] + dr);
            assert forall|k: int| 0 <= k < dr.len() implies stamp_in(rest_logs, #[trigger] dr[k]) by {}
            assert forall|k: int| 0 <= k < dl.len() implies stamp_in(ls, #[trigger] dl[k]) by {
                if k == 0 {
                    assert(ls[0].date_stamp == dl[0]);
                } else {
                    assert(dl[k] == dr[k - 1]);
                    assert(stamp_in(rest_logs, dr[k - 1]));
                    let x = choose|x: int| 0 <= x < rest_logs.len() && #[trigger] rest_logs[x].date_stamp == dr[k - 1];
                    assert(ls[x + 1] == rest_logs[x]);
                }
            }
            assert forall|i: int, j: int| 0 <= i < j < dl.len() implies !lex_lt(#[trigger] dl[i], #[trigger] dl[j]) by {
                if i == 0 {
                    assert(dl[j] == dr[j - 1]);
                    assert(stamp_in(rest_logs, dr[j - 1]));
                    let x = choose|x: int| 0 <= x < rest_logs.len() && #[trigger] rest_logs[x].date_stamp == dr[j - 1];
                    assert(ls[x + 1] == rest_logs[x]);
                    assert(!lex_lt(ls[0].date_stamp, ls[x + 1].date_stamp));
                } else {
                    assert(dl[i] == dr[i - 1] && dl[j] == dr[j - 1]);
                }
            }
        }
    }
}

proof fn lemma_prepared_in_range(
    ls: Seq<LogView>,
    filters: Seq<Seq<char>>,
    from: Option<Seq<char>>,
    to: Option<Seq<char>>,
)
    ensures
        forall|x: int| 0 <= x < prepared_logs(ls, filters, from, to).len() ==> in_range(
            #[trigger] prepared_logs(ls, filters, from, to)[x].date_stamp,
            from,
            to,
        ),
    decreases ls.len(),
{
    if ls.len() > 0 {
        lemma_prepared_in_range(ls.drop_last(), filters, from, to);
        let rest = prepared_logs(ls.drop_last(), filters, from, to);
        let all = prepared_logs(ls, filters, from, to);
        if in_range(ls.last().date_stamp, from, to) {
            assert(all == rest.push(prepared(ls.last(), filters)));
            assert forall|x: int| 0 <= x < all.len() implies in_range(#[trigger] all[x].date_stamp, from, to) by {
                if x < rest.len() {
                    assert(all[x] == rest[x]);
                }
            }
        }
    }
}

/// The listing shows dates newest first, and only dates in the range
/// `--from` ..= `--to` (compared as date stamps).
#[verifier::spinoff_prover]
pub proof fn law_listing_dates(
    ls: Seq<LogView>,
    filters: Seq<Seq<char>>,
    limit: int,
    from: Option<Seq<char>>,
    to: Option<Seq<char>>,
)
    ensures
        forall|k: int| 0 <= k < date_lines(spec_listing(ls, filters, limit, from, to)).len() ==> in_range(
            #[trigger] date_lines(spec_listing(ls, filters, limit, from, to))[k],
            from,
            to,
        ),
        forall|i: int, j: int| 0 <= i < j < date_lines(spec_listing(ls, filters, limit, from, to)).len() ==> !lex_lt(
            #[trigger] date_lines(spec_listing(ls, filters, limit, from, to))[i],
            #[trigger] date_lines(spec_listing(ls, filters, limit, from, to))[j],
        ),
{
    broadcast use vstd::seq_lib::group_to_multiset_ensures;
    let pl = prepared_logs(ls, filters, from, to);
    let sl = logs_newest_first(pl);
    if limit != 0 {
        law_logs_sorted_newest_first(pl);
        lemma_render_dates(sl, 0, limit);
        lemma_prepared_in_range(ls, filters, from, to);
        let dl = date_lines(spec_listing(ls, filters, limit, from, to));
        assert forall|k: int| 0 <= k < dl.len() implies in_range(#[trigger] dl[k], from, to) by {
            assert(stamp_in(sl, dl[k]));
            let x = choose|x: int| 0 <= x < sl.len() && #[trigger] sl[x].date_stamp == dl[k];
            assert(sl.contains(sl[x]));
            assert(sl.to_multiset().count(sl[x]) > 0);
            assert(pl.contains(sl[x]));
            let y = choose|y: int| 0 <= y < pl.len() && pl[y] == sl[x];
            assert(in_range(pl[y].date_stamp, from, to));
        }
    } else {
        assert(date_lines(spec_listing(ls, filters, limit, from, to)) =~= Seq::<Seq<char>>::empty());
    }
}

/// How many entries a listing of ordered logs shows once `printed` have
/// been shown: as `render_logs` goes, every entry of a log it lists, up to
/// the limit.
pub open spec fn listed_count(ls: Seq<LogView>, printed: int, limit: int) -> int
    decreases ls.len(),
{
    if ls.len() == 0 || printed >= limit {
        0
    } else if ls[0].messages.len() == 0 {
        listed_count(ls.drop_first(), printed, limit)
    } else {
        let n = ls[0].messages.len();
        if printed + n >= limit {
            limit - printed
        } else {
            n + listed_count(ls.drop_first(), printed + n, limit)
        }
    }
}

/// The number of entries of the logs.
pub open spec fn entry_total(ls: Seq<LogView>) -> int
    decreases ls.len(),
{
    if ls.len() == 0 {
        0
    } else {
        ls[0].messages.len() + entry_total(ls.drop_first())
    }
}

proof fn lemma_listed_count(ls: Seq<LogView>, printed: int, limit: int)
    requires
        0 <= printed <= limit,
    ensures
        listed_count(ls, printed, limit) == if entry_total(ls) <= limit - printed {
            entry_total(ls)
        } else {
            limit - printed
        },
    decreases ls.len(),
{
    if ls.len() > 0 {
        lemma_entry_total_nonneg(ls.drop_first());
        let n = ls[0].messages.len();
        if printed < limit && printed + n < limit {
            lemma_listed_count(ls.drop_first(), printed + n, limit);
        } else if printed < limit && n == 0 {
            lemma_listed_count(ls.drop_first(), printed, limit);
        }
    }
}

proof fn lemma_entry_total_nonneg(ls: Seq<LogView>)
    ensures
        entry_total(ls) >= 0,
    decreases ls.len(),
{
    if ls.len() > 0 {
        lemma_entry_total_nonneg(ls.drop_first());
    }
}

proof fn lemma_entry_total_concat(a: Seq<LogView>, b: Seq<LogView>)
    ensures
        entry_total(a + b) == entry_total(a) + entry_total(b),
    decreases a.len(),
{
    if a.len() == 0 {
        assert(a + b =~= b);
    } else {
        lemma_entry_total_concat(a.drop_first(), b);
        assert((a + b).drop_first() =~= a.drop_first() + b);
    }
}

proof fn lemma_entry_total_insert(r: Seq<LogView>, p: int, l: LogView)
    requires
        0 <= p <= r.len(),
    ensures
        entry_total(r.insert(p, l)) == entry_total(r) + l.messages.len(),
{
    let one = seq![l];
    assert(one.drop_first() =~= Seq::<LogView>::empty());
    assert(entry_total(one.drop_first()) == 0);
    assert(entry_total(one) == l.messages.len());
    assert(r.insert(p, l) =~= r.take(p) + (one + r.skip(p)));
    assert(r =~= r.take(p) + r.skip(p));
    lemma_entry_total_concat(r.take(p), one + r.skip(p));
    lemma_entry_total_concat(one, r.skip(p));
    lemma_entry_total_concat(r.take(p), r.skip(p));
}

proof fn lemma_entry_total_sorted(s: Seq<LogView>)
    ensures
        entry_total(logs_newest_first(s)) == entry_total(s),
    decreases s.len(),
{
    if s.len() > 0 {
        lemma_entry_total_sorted(s.drop_last());
        let r = logs_newest_first(s.drop_last());
        lemma_log_insert_pos(r, s.last());
        lemma_entry_total_insert(r, log_insert_pos(r, s.last()), s.last());
        let one = seq![s.last()];
        assert(one.drop_first() =~= Seq::<LogView>::empty());
        assert(entry_total(one.drop_first()) == 0);
        assert(entry_total(one) == s.last().messages.len());
        assert(s =~= s.drop_last() + one);
        lemma_entry_total_concat(s.drop_last(), one);
    }
}

/// The listing shows `limit` entries, or every entry in range that passes
/// the filters when there are fewer.
pub proof fn law_listing_count(
    ls: Seq<LogView>,
    filters: Seq<Seq<char>>,
    limit: int,
    from: Option<Seq<char>>,
    to: Option<Seq<char>>,
)
    requires
        limit >= 0,
    ensures
        ({
            let pl = prepared_logs(ls, filters, from, to);
            let shown = if limit == 0 {
                0
            } else {
                listed_count(logs_newest_first(pl), 0, limit)
            };
            shown == if entry_total(pl) <= limit {
                entry_total(pl)
            } else {
                limit
            }
        }),
{
    let pl = prepared_logs(ls, filters, from, to);
    lemma_entry_total_sorted(pl);
    lemma_entry_total_nonneg(pl);
    if limit > 0 {
        lemma_listed_count(logs_newest_first(pl), 0, limit);
    }
}

// ---------------------------------------------------------------------------
// Reading notes or tasks only
// ---------------------------------------------------------------------------

/// An entry kind that the filters let through: memos only with
/// `--note`, tasks only with `--task`.
pub open spec fn kind_allowed(k: EntryKind, is_note: bool, is_task: bool) -> bool {
    &&& is_note ==> k == EntryKind::Memo
    &&& is_task ==> k is Task
}

proof fn lemma_parse_kinds(ls: Seq<Seq<char>>, is_note: bool, is_task: bool, is_all: bool)
    ensures
        state_ok(parse_lines(ls, is_note, is_task, is_all)),
        forall|i: int| 0 <= i < parse_lines(ls, is_note, is_task, is_all).messages.len() ==> kind_allowed(
            #[trigger] parse_lines(ls, is_note, is_task, is_all).messages[i].kind,
            is_note,
            is_task,
        ),
    decreases ls.len(),
{
    if ls.len() > 0 {
        lemma_parse_kinds(ls.drop_last(), is_note, is_task, is_all);
        let st = parse_lines(ls.drop_last(), is_note, is_task, is_all);
        let st2 = parse_lines(ls, is_note, is_task, is_all);
        assert(st2 == parse_step(st, ls.last(), is_note, is_task, is_all));
        match accept_entry(ls.last(), is_note, is_task, is_all) {
            Some(mv) => {
                assert(kind_allowed(mv.kind, is_note, is_task));
            },
            None => {},
        }
        assert forall|i: int| 0 <= i < st2.messages.len() implies kind_allowed(
            #[trigger] st2.messages[i].kind,
            is_note,
            is_task,
        ) by {
            if i < st.messages.len() {
                assert(st2.messages[i].kind == st.messages[i].kind);
            }
        }
    }
}

/// Reading with `--note` gives memos only; reading with `--task` gives
/// tasks only.
pub proof fn law_note_and_task_filters(ls: Seq<Seq<char>>, is_all: bool)
    ensures
        forall|i: int| 0 <= i < parse_lines(ls, true, false, is_all).messages.len() ==>
            #[trigger] parse_lines(ls, true, false, is_all).messages[i].kind == EntryKind::Memo,
        forall|i: int| 0 <= i < parse_lines(ls, false, true, is_all).messages.len() ==>
            #[trigger] parse_lines(ls, false, true, is_all).messages[i].kind is Task,
{
    lemma_parse_kinds(ls, true, false, is_all);
    lemma_parse_kinds(ls, false, true, is_all);
    assert forall|i: int| 0 <= i < parse_lines(ls, true, false, is_all).messages.len() implies
        #[trigger] parse_lines(ls, true, false, is_all).messages[i].kind == EntryKind::Memo by {
        assert(kind_allowed(parse_lines(ls, true, false, is_all).messages[i].kind, true, false));
    }
    assert forall|i: int| 0 <= i < parse_lines(ls, false, true, is_all).messages.len() implies
        #[trigger] parse_lines(ls, false, true, is_all).messages[i].kind is Task by {
        assert(kind_allowed(parse_lines(ls, false, true, is_all).messages[i].kind, false, true));
    }
}

// ---------------------------------------------------------------------------
// Tag filters
// ---------------------------------------------------------------------------

/// Several tag filters select the memos that any one of them selects.
pub proof fn law_tag_filters_any(message: Seq<char>, f1: Seq<Seq<char>>, f2: Seq<Seq<char>>)
    requires
        f1.len() > 0,
        f2.len() > 0,
    ensures
        spec_matches_tags(message, f1 + f2) == (spec_matches_tags(message, f1) || spec_matches_tags(message, f2)),
{
    let f = f1 + f2;
    if spec_matches_tags(message, f) {
        let i = choose|i: int| 0 <= i < f.len() && carries_tag(message, spec_normalize_tag(#[trigger] f[i]));
        if i < f1.len() {
            assert(f[i] == f1[i]);
        } else {
            assert(f[i] == f2[i - f1.len()]);
        }
    }
    if spec_matches_tags(message, f1) {
        let i = choose|i: int| 0 <= i < f1.len() && carries_tag(message, spec_normalize_tag(#[trigger] f1[i]));
        assert(f[i] == f1[i]);
    }
    if spec_matches_tags(message, f2) {
        let i = choose|i: int| 0 <= i < f2.len() && carries_tag(message, spec_normalize_tag(#[trigger] f2[i]));
        assert(f[i + f1.len()] == f2[i]);
    }
}

// ---------------------------------------------------------------------------
// Layered configuration
// ---------------------------------------------------------------------------

/// A configuration file that sets nothing.
pub open spec fn empty_layer(no_global: bool) -> ConfigView {
    ConfigView {
        no_global,
        base_directory: None,
        default_command: None,
        auto_command: false,
        date_format: None,
        list: None,
        time_format: None,
        created: None,
        modified: None,
        commands: Map::empty(),
    }
}

/// Laying a file that sets nothing over a configuration changes nothing.
pub proof fn law_merge_empty_layer(c: ConfigView, no_global: bool)
    ensures
        spec_merge(c, empty_layer(no_global)) == c,
{
    assert(c.commands.union_prefer_right(Map::empty()) =~= c.commands);
}

/// Laying files one after the other is associative: laying `b` then `c`
/// over `a` is laying over `a` the merge of `b` and `c`.
pub proof fn law_merge_associative(a: ConfigView, b: ConfigView, c: ConfigView)
    ensures
        spec_merge(spec_merge(a, b), c) == spec_merge(a, spec_merge(b, c)),
{
    assert(a.commands.union_prefer_right(b.commands).union_prefer_right(c.commands) =~= a.commands.union_prefer_right(
        b.commands.union_prefer_right(c.commands),
    ));
}

// ---------------------------------------------------------------------------
// Date stamps sort as dates
// ---------------------------------------------------------------------------

/// `a` is an earlier date than `b`.
pub open spec fn date_before(a: Date, b: Date) -> bool {
    ||| a.year < b.year
    ||| (a.year == b.year && a.month < b.month)
    ||| (a.year == b.year && a.month == b.month && a.day < b.day)
}

proof fn lemma_padded_two(n: nat)
    requires
        n < 100,
    ensures
        padded(n, 2) == seq![digit_char((n / 10) as int), digit_char((n % 10) as int)],
{
    if n < 10 {
        assert(digits(n) == seq![digit_char(n as int)]);
        assert(padded(n, 2) =~= seq!['0', digit_char(n as int)]);
        assert(digit_char(0) == '0');
    } else {
        assert(digits((n / 10) as nat) == seq![digit_char((n / 10) as int)]);
        assert(digits(n) =~= seq![digit_char((n / 10) as int), digit_char((n % 10) as int)]);
    }
}

proof fn lemma_padded_four(n: nat)
    requires
        n < 10000,
    ensures
        padded(n, 4) == seq![
            digit_char((n / 1000) as int),
            digit_char(((n / 100) % 10) as int),
            digit_char(((n / 10) % 10) as int),
            digit_char((n % 10) as int),
        ],
{
    let z = digit_char(0);
    assert(z == '0');
    if n < 10 {
        assert(digits(n) == seq![digit_char(n as int)]);
        assert(padded(n, 4) =~= seq![z, z, z, digit_char(n as int)]);
    } else if n < 100 {
        assert(digits((n / 10) as nat) == seq![digit_char((n / 10) as int)]);
        assert(digits(n) =~= seq![digit_char((n / 10) as int), digit_char((n % 10) as int)]);
        assert(padded(n, 4) =~= seq![z, z, digit_char((n / 10) as int), digit_char((n % 10) as int)]);
    } else if n < 1000 {
        assert(digits((n / 100) as nat) == seq![digit_char((n / 100) as int)]);
        assert(((n / 10) / 10) == n / 100);
        assert(digits((n / 10) as nat) =~= seq![digit_char((n / 100) as int), digit_char(((n / 10) % 10) as int)]);
        assert(digits(n) =~= seq![digit_char((n / 100) as int), digit_char(((n / 10) % 10) as int), digit_char((n % 10) as int)]);
        assert(padded(n, 4) =~= seq![z, digit_char((n / 100) as int), digit_char(((n / 10) % 10) as int), digit_char((n % 10) as int)]);
    } else {
        assert(digits((n / 1000) as nat) == seq![digit_char((n / 1000) as int)]);
        assert(((n / 100) / 10) == n / 1000);
        assert(((n / 10) / 10) == n / 100);
        assert(digits((n / 100) as nat) =~= seq![digit_char((n / 1000) as int), digit_char(((n / 100) % 10) as int)]);
        assert(digits((n / 10) as nat) =~= seq![
            digit_char((n / 1000) as int),
            digit_char(((n / 100) % 10) as int),
            digit_char(((n / 10) % 10) as int),
        ]);
        assert(digits(n) =~= seq![
            digit_char((n / 1000) as int),
            digit_char(((n / 100) % 10) as int),
            digit_char(((n / 10) % 10) as int),
            digit_char((n % 10) as int),
        ]);
    }
}

/// Comparing texts whose first parts have the same length: the first parts
/// decide unless they are equal.
proof fn lemma_lex_lt_concat(x: Seq<char>, y: Seq<char>, u: Seq<char>, v: Seq<char>)
    requires
        x.len() == u.len(),
    ensures
        lex_lt(x + y, u + v) == (lex_lt(x, u) || (x == u && lex_lt(y, v))),
    decreases x.len(),
{
    if x.len() == 0 {
        assert(x + y =~= y);
        assert(u + v =~= v);
        assert(x =~= u);
    } else {
        assert((x + y)[0] == x[0]);
        assert((u + v)[0] == u[0]);
        assert((x + y).drop_first() =~= x.drop_first() + y);
        assert((u + v).drop_first() =~= u.drop_first() + v);
        lemma_lex_lt_concat(x.drop_first(), y, u.drop_first(), v);
        if x[0] == u[0] && x.drop_first() == u.drop_first() {
            assert(x =~= u) by {
                assert(x =~= seq![x[0]] + x.drop_first());
                assert(u =~= seq![u[0]] + u.drop_first());
            }
        }
        if x == u {
            assert(x.drop_first() == u.drop_first());
        }
    }
}

proof fn lemma_digit_char_order(a: int, b: int)
    requires
        0 <= a <= 9,
        0 <= b <= 9,
    ensures
        (digit_char(a) < digit_char(b)) == (a < b),
        (digit_char(a) == digit_char(b)) == (a == b),
{
}

proof fn lemma_single_lex(a: char, b: char)
    ensures
        lex_lt(seq![a], seq![b]) == (a < b),
{
    assert(seq![a].drop_first() =~= Seq::<char>::empty());
    assert(seq![b].drop_first() =~= Seq::<char>::empty());
    assert(!lex_lt(Seq::<char>::empty(), Seq::<char>::empty()));
}

proof fn lemma_split_hundreds(n: nat)
    requires
        n < 10000,
    ensures
        (n / 100) / 10 == n / 1000,
        (n % 100) / 10 == (n / 10) % 10,
        (n % 100) % 10 == n % 10,
        (n / 100) % 10 == (n / 100) % 10,
        n / 100 < 100,
        n == 100 * (n / 100) + n % 100,
{
}

proof fn lemma_four_as_two_pairs(n: nat)
    requires
        n < 10000,
    ensures
        padded(n, 4) == padded(n / 100, 2) + padded(n % 100, 2),
{
    lemma_padded_four(n);
    lemma_split_hundreds(n);
    lemma_padded_two(n / 100);
    lemma_padded_two(n % 100);
    assert(padded(n, 4) =~= padded(n / 100, 2) + padded(n % 100, 2));
}

proof fn lemma_two_digits_order(n: nat, m: nat)
    requires
        n < 100,
        m < 100,
    ensures
        lex_lt(padded(n, 2), padded(m, 2)) == (n < m),
        (padded(n, 2) == padded(m, 2)) == (n == m),
{
    lemma_padded_two(n);
    lemma_padded_two(m);
    let (a1, a0) = (digit_char((n / 10) as int), digit_char((n % 10) as int));
    let (b1, b0) = (digit_char((m / 10) as int), digit_char((m % 10) as int));
    assert(seq![a1, a0] =~= seq![a1] + seq![a0]);
    assert(seq![b1, b0] =~= seq![b1] + seq![b0]);
    lemma_lex_lt_concat(seq![a1], seq![a0], seq![b1], seq![b0]);
    lemma_single_lex(a1, b1);
    lemma_single_lex(a0, b0);
    lemma_digit_char_order((n / 10) as int, (m / 10) as int);
    lemma_digit_char_order((n % 10) as int, (m % 10) as int);
    if padded(n, 2) == padded(m, 2) {
        assert(seq![a1, a0][0] == seq![b1, b0][0]);
        assert(seq![a1, a0][1] == seq![b1, b0][1]);
    }
}

#[verifier::spinoff_prover]
proof fn lemma_four_digits_order(n: nat, m: nat)
    requires
        n < 10000,
        m < 10000,
    ensures
        lex_lt(padded(n, 4), padded(m, 4)) == (n < m),
        (padded(n, 4) == padded(m, 4)) == (n == m),
{
    let hn = n / 100;
    let hm = m / 100;
    let ln = n % 100;
    let lm = m % 100;
    lemma_split_hundreds(n);
    lemma_split_hundreds(m);
    lemma_four_as_two_pairs(n);
    lemma_four_as_two_pairs(m);
    lemma_padded_two(hn);
    lemma_padded_two(hm);
    lemma_padded_two(ln);
    lemma_padded_two(lm);
    lemma_lex_lt_concat(padded(hn, 2), padded(ln, 2), padded(hm, 2), padded(lm, 2));
    lemma_two_digits_order(hn, hm);
    lemma_two_digits_order(ln, lm);
    if padded(n, 4) == padded(m, 4) {
        assert(padded(n, 4).take(2) =~= padded(hn, 2));
        assert(padded(m, 4).take(2) =~= padded(hm, 2));
        assert(padded(n, 4).skip(2) =~= padded(ln, 2));
        assert(padded(m, 4).skip(2) =~= padded(lm, 2));
    }
}

/// The month and day part of a date stamp: `-MM-DD`.
pub open spec fn stamp_tail(d: Date) -> Seq<char> {
    seq!['-'] + padded(d.month as nat, 2) + seq!['-'] + padded(d.day as nat, 2)
}

#[verifier::spinoff_prover]
proof fn lemma_tail_order(a: Date, b: Date)
    requires
        a.month < 100 && a.day < 100,
        b.month < 100 && b.day < 100,
    ensures
        stamp_tail(a).len() == 6,
        lex_lt(stamp_tail(a), stamp_tail(b)) == (a.month < b.month || (a.month == b.month && a.day < b.day)),
        (stamp_tail(a) == stamp_tail(b)) == (a.month == b.month && a.day == b.day),
{
    let ma = padded(a.month as nat, 2);
    let mb = padded(b.month as nat, 2);
    let da = padded(a.day as nat, 2);
    let db = padded(b.day as nat, 2);
    lemma_padded_two(a.month as nat);
    lemma_padded_two(b.month as nat);
    lemma_padded_two(a.day as nat);
    lemma_padded_two(b.day as nat);
    lemma_two_digits_order(a.month as nat, b.month as nat);
    lemma_two_digits_order(a.day as nat, b.day as nat);
    let dash = seq!['-'];
    assert(stamp_tail(a) =~= dash + (ma + (dash + da)));
    assert(stamp_tail(b) =~= dash + (mb + (dash + db)));
    lemma_lex_lt_concat(dash, ma + (dash + da), dash, mb + (dash + db));
    lemma_lex_lt_irreflexive(dash);
    lemma_lex_lt_concat(ma, dash + da, mb, dash + db);
    lemma_lex_lt_concat(dash, da, dash, db);
    if stamp_tail(a) == stamp_tail(b) {
        assert(stamp_tail(a).subrange(1, 3) =~= ma);
        assert(stamp_tail(b).subrange(1, 3) =~= mb);
        assert(stamp_tail(a).skip(4) =~= da);
        assert(stamp_tail(b).skip(4) =~= db);
    }
}

/// Date stamps (`YYYY-MM-DD`) sort as the dates they write, for years 0
/// through 9999: comparing stamps as text is comparing dates.
#[verifier::spinoff_prover]
#[verifier::rlimit(40)]
pub proof fn law_stamp_order(a: Date, b: Date)
    requires
        0 <= a.year <= 9999,
        0 <= b.year <= 9999,
        a.month < 100 && a.day < 100,
        b.month < 100 && b.day < 100,
    ensures
        lex_lt(date_text(a), date_text(b)) == date_before(a, b),
        (date_text(a) == date_text(b)) == (a == b),
{
    let ya = padded(a.year as nat, 4);
    let yb = padded(b.year as nat, 4);
    lemma_four_as_two_pairs(a.year as nat);
    lemma_four_as_two_pairs(b.year as nat);
    lemma_split_hundreds(a.year as nat);
    lemma_split_hundreds(b.year as nat);
    lemma_padded_two((a.year / 100) as nat);
    lemma_padded_two((a.year % 100) as nat);
    lemma_padded_two((b.year / 100) as nat);
    lemma_padded_two((b.year % 100) as nat);
    assert(ya.len() == 4 && yb.len() == 4);
    lemma_four_digits_order(a.year as nat, b.year as nat);
    lemma_tail_order(a, b);
    assert(date_text(a) =~= ya + stamp_tail(a));
    assert(date_text(b) =~= yb + stamp_tail(b));
    lemma_lex_lt_concat(ya, stamp_tail(a), yb, stamp_tail(b));
    if date_text(a) == date_text(b) {
        assert(date_text(a).take(4) =~= ya);
        assert(date_text(b).take(4) =~= yb);
        assert(date_text(a).skip(4) =~= stamp_tail(a));
        assert(date_text(b).skip(4) =~= stamp_tail(b));
    }
}

// ---------------------------------------------------------------------------
// Writing lines and reading them back
// ---------------------------------------------------------------------------

/// A line that reading text back keeps as it is: it holds no `'\n'` and
/// does not end with `'\r'`.
pub open spec fn plain_line(l: Seq<char>) -> bool {
    (forall|j: int| 0 <= j < l.len() ==> l[j] != '\n') && !(l.len() > 0 && l.last() == '\r')
}

proof fn lemma_join_front(ls: Seq<Seq<char>>, sep: Seq<char>)
    requires
        ls.len() >= 2,
    ensures
        join_with(ls, sep) == ls[0] + sep + join_with(ls.drop_first(), sep),
    decreases ls.len(),
{
    if ls.len() == 2 {
        assert(ls.drop_last() =~= seq![ls[0]]);
        assert(ls.drop_first() =~= seq![ls[1]]);
        assert(join_with(ls.drop_last(), sep) == ls[0]);
    } else {
        lemma_join_front(ls.drop_last(), sep);
        assert(ls.drop_last().drop_first() =~= ls.drop_first().drop_last());
        assert(ls.drop_first().last() == ls.last());
        assert(ls.drop_last()[0] == ls[0]);
        assert(ls[0] + sep + join_with(ls.drop_first().drop_last(), sep) + sep + ls.last() =~= ls[0] + sep
            + (join_with(ls.drop_first().drop_last(), sep) + sep + ls.last()));
    }
}

proof fn lemma_lines_of_plain(l: Seq<char>)
    requires
        l.len() > 0,
        plain_line(l),
    ensures
        lines_of(l) == seq![l],
{
    lemma_newline_pos(l, Seq::<char>::empty());
    assert(l + Seq::<char>::empty() =~= l);
}

proof fn lemma_lines_of_cons(a: Seq<char>, b: Seq<char>)
    requires
        plain_line(a),
    ensures
        lines_of(a + seq!['\n'] + b) == seq![a] + lines_of(b),
{
    let s = a + seq!['\n'] + b;
    assert(s =~= a + (seq!['\n'] + b));
    lemma_newline_pos(a, seq!['\n'] + b);
    assert(newline_pos(seq!['\n'] + b) == 0);
    assert(newline_pos(s) == a.len());
    assert(s.take(a.len() as int) =~= a);
    assert(s.skip(a.len() as int + 1) =~= b);
    assert(strip_cr(a) == a);
}

/// Lines written out joined by `'\n'` read back as the same lines, where
/// each holds no `'\n'`, none ends with `'\r'`, and the last is not empty
/// (reading drops a final empty line).
pub proof fn law_lines_round_trip(ls: Seq<Seq<char>>)
    requires
        forall|i: int| 0 <= i < ls.len() ==> plain_line(#[trigger] ls[i]),
        ls.len() > 0 ==> ls.last().len() > 0,
    ensures
        lines_of(join_with(ls, seq!['\n'])) == ls,
    decreases ls.len(),
{
    if ls.len() == 0 {
        assert(lines_of(Seq::<char>::empty()) =~= Seq::<Seq<char>>::empty());
    } else if ls.len() == 1 {
        assert(plain_line(ls[0]));
        lemma_lines_of_plain(ls[0]);
        assert(ls =~= seq![ls[0]]);
    } else {
        let rest = ls.drop_first();
        assert forall|i: int| 0 <= i < rest.len() implies plain_line(#[trigger] rest[i]) by {
            assert(rest[i] == ls[i + 1]);
        }
        assert(rest.last() == ls.last());
        law_lines_round_trip(rest);
        lemma_join_front(ls, seq!['\n']);
        assert(plain_line(ls[0]));
        lemma_lines_of_cons(ls[0], join_with(rest, seq!['\n']));
        assert(ls =~= seq![ls[0]] + rest);
    }
}

// ---------------------------------------------------------------------------
// Ticking a task
// ---------------------------------------------------------------------------

/// Ticking changes only the middle of each `[ ]`, to `x`.
#[verifier::spinoff_prover]
proof fn lemma_ticked_at(s: Seq<char>)
    ensures
        ticked(s).len() == s.len(),
        forall|i: int| 0 <= i < s.len() ==> #[trigger] ticked(s)[i] == if box_at(s, i - 1) {
            'x'
        } else {
            s[i]
        },
    decreases s.len(),
{
    if s.len() >= 3 {
        if s[0] == '[' && s[1] == ' ' && s[2] == ']' {
            let r = s.skip(3);
            lemma_ticked_at(r);
            let t = ticked(s);
            assert(t == seq!['[', 'x', ']'] + ticked(r));
            assert forall|i: int| 0 <= i < s.len() implies #[trigger] t[i] == if box_at(s, i - 1) {
                'x'
            } else {
                s[i]
            } by {
                if i >= 3 {
                    assert(t[i] == ticked(r)[i - 3]);
                    assert(r[i - 3] == s[i]);
                    if i >= 4 {
                        assert(box_at(r, i - 4) == box_at(s, i - 1)) by {
                            assert(r[i - 4] == s[i - 1]);
                            if i - 4 + 3 <= r.len() {
                                assert(r[i - 3] == s[i]);
                                assert(r[i - 2] == s[i + 1]);
                            }
                        }
                    }
                }
            }
        } else {
            let r = s.drop_first();
            lemma_ticked_at(r);
            let t = ticked(s);
            assert(t == seq![s[0]] + ticked(r));
            assert forall|i: int| 0 <= i < s.len() implies #[trigger] t[i] == if box_at(s, i - 1) {
                'x'
            } else {
                s[i]
            } by {
                if i >= 1 {
                    assert(t[i] == ticked(r)[i - 1]);
                    assert(r[i - 1] == s[i]);
                    if i >= 2 {
                        assert(box_at(r, i - 2) == box_at(s, i - 1)) by {
                            assert(r[i - 2] == s[i - 1]);
                            if i - 2 + 3 <= r.len() {
                                assert(r[i - 1] == s[i]);
                                assert(r[i] == s[i + 1]);
                            }
                        }
                    }
                }
            }
        }
    }
}

/// After ticking, a line holds no `[ ]`.
pub proof fn law_ticked_has_no_open_box(s: Seq<char>)
    ensures
        !has_open_box(ticked(s)),
{
    lemma_ticked_at(s);
    let t = ticked(s);
    if has_open_box(t) {
        let i = choose|i: int| #[trigger] box_at(t, i);
        assert(t[i] == '[' && t[i + 1] == ' ' && t[i + 2] == ']');
        assert(!box_at(s, i)) by {
            assert(t[i + 1] == if box_at(s, i) { 'x' } else { s[i + 1] });
        }
        assert(s[i + 1] == ' ');
        assert(t[i] == if box_at(s, i - 1) { 'x' } else { s[i] });
        assert(s[i] == '[');
        assert(t[i + 2] == if box_at(s, i + 1) { 'x' } else { s[i + 2] });
        assert(s[i + 2] == ']');
        assert(box_at(s, i));
        assert(false);
    }
}

proof fn lemma_ticked_space_run(s: Seq<char>, i: int)
    requires
        0 <= i <= s.len(),
        forall|k: int| 0 <= k < s.len() ==> #[trigger] ticked(s)[k] == if box_at(s, k - 1) {
            'x'
        } else {
            s[k]
        },
        ticked(s).len() == s.len(),
        i == 0 || is_space(s[i - 1]),
    ensures
        space_run(ticked(s), i) == space_run(s, i),
    decreases s.len() - i,
{
    if i < s.len() {
        let t = ticked(s);
        if i > 0 {
            assert(!box_at(s, i - 1));
        }
        assert(t[i] == s[i]);
        if is_space(s[i]) {
            lemma_ticked_space_run(s, i + 1);
        }
    }
}

proof fn lemma_ticked_decimal_run(s: Seq<char>, i: int)
    requires
        0 <= i <= s.len(),
        forall|k: int| 0 <= k < s.len() ==> #[trigger] ticked(s)[k] == if box_at(s, k - 1) {
            'x'
        } else {
            s[k]
        },
        ticked(s).len() == s.len(),
        i == 0 || is_space(s[i - 1]) || is_decimal(s[i - 1]),
    ensures
        decimal_run(ticked(s), i) == decimal_run(s, i),
    decreases s.len() - i,
{
    if i < s.len() {
        let t = ticked(s);
        if i > 0 {
            assert(!box_at(s, i - 1));
        }
        assert(t[i] == s[i]);
        if is_decimal(s[i]) {
            lemma_ticked_decimal_run(s, i + 1);
        }
    }
}

/// Ticking a task whose checkbox is `[ ]` closes it: the line is no longer
/// an open task and holds no `[ ]`.
#[verifier::spinoff_prover]
pub proof fn law_tick_closes_task(line: Seq<char>)
    requires
        parse_entry(line, false) is Some,
        parse_entry(line, false)->0.checkbox == Some(' '),
    ensures
        !spec_is_open_task(ticked(line)),
        !has_open_box(ticked(line)),
{
    law_ticked_has_no_open_box(line);
    lemma_ticked_at(line);
    let s = line;
    let t = ticked(s);
    let a = space_run(s, 0);
    crate::grammar::lemma_space_run(s, 0);
    lemma_ticked_space_run(s, 0);
    let b = marker_end(s, a, false);
    assert(b >= 0);
    assert(checkbox_at(s, b) && s[b + 1] == ' ');
    // the marker reads the same
    if a > 0 {
        assert(is_space(s[a - 1]));
    }
    lemma_ticked_decimal_run(s, a);
    crate::grammar::lemma_decimal_run(s, a);
    let d = decimal_run(s, a);
    if a < s.len() {
        if a > 0 {
            assert(!box_at(s, a - 1));
        }
        assert(t[a] == s[a]);
    }
    if a + 1 < s.len() {
        assert(!box_at(s, a));
        assert(t[a + 1] == s[a + 1]);
    }
    if d > 0 && a + d + 1 < s.len() {
        assert(is_decimal(s[a + d - 1]));
        assert(!box_at(s, a + d - 1));
        assert(t[a + d] == s[a + d]);
        assert(!box_at(s, a + d));
        assert(t[a + d + 1] == s[a + d + 1]);
    }
    assert(marker_end(t, a, false) == b);
    // the checkbox now holds `x`
    assert(box_at(s, b));
    assert(!box_at(s, b - 1));
    assert(t[b] == '[');
    assert(t[b + 1] == 'x');
    assert(!box_at(s, b + 1));
    assert(t[b + 2] == ']');
    assert(checkbox_at(t, b));
    match parse_entry(t, false) {
        Some(p) => {
            assert(p.checkbox == Some('x'));
        },
        None => {},
    }
}

// ---------------------------------------------------------------------------
// Ordering open tasks
// ---------------------------------------------------------------------------

/// Open tasks newest first: no task is earlier than one after it.
pub open spec fn tasks_ordered(s: Seq<TaskView>) -> bool {
    forall|i: int, j: int| 0 <= i < j < s.len() ==> !task_earlier(#[trigger] s[i], #[trigger] s[j])
}

proof fn lemma_task_earlier_asymmetric(a: TaskView, b: TaskView)
    requires
        task_earlier(a, b),
    ensures
        !task_earlier(b, a),
{
    if lex_lt(a.date_stamp, b.date_stamp) {
        lemma_lex_lt_asymmetric(a.date_stamp, b.date_stamp);
        lemma_lex_lt_irreflexive(a.date_stamp);
    } else {
        lemma_lex_lt_irreflexive(a.date_stamp);
    }
}

/// Whatever lies between: if `a` is earlier than `c`, then `a` is earlier
/// than `b` or `b` is earlier than `c`.
proof fn lemma_task_earlier_split(a: TaskView, b: TaskView, c: TaskView)
    requires
        task_earlier(a, c),
    ensures
        task_earlier(a, b) || task_earlier(b, c),
{
    lemma_lex_lt_total(a.date_stamp, b.date_stamp);
    lemma_lex_lt_total(b.date_stamp, c.date_stamp);
    if lex_lt(a.date_stamp, c.date_stamp) {
        if lex_lt(b.date_stamp, a.date_stamp) {
            lemma_lex_lt_transitive(b.date_stamp, a.date_stamp, c.date_stamp);
        }
    } else {
        if lex_lt(b.date_stamp, a.date_stamp) {
            assert(b.date_stamp != c.date_stamp);
        }
    }
}

proof fn lemma_task_insert_pos_splits(s: Seq<TaskView>, x: TaskView)
    ensures
        forall|i: int| 0 <= i < task_insert_pos(s, x) ==> !task_earlier(#[trigger] s[i], x),
        task_insert_pos(s, x) < s.len() ==> task_earlier(s[task_insert_pos(s, x)], x),
    decreases s.len(),
{
    lemma_task_insert_pos(s, x);
    if s.len() > 0 && !task_earlier(s[0], x) {
        lemma_task_insert_pos_splits(s.drop_first(), x);
        lemma_task_insert_pos(s.drop_first(), x);
        assert(task_insert_pos(s, x) == 1 + task_insert_pos(s.drop_first(), x));
        assert forall|i: int| 0 <= i < task_insert_pos(s, x) implies !task_earlier(#[trigger] s[i], x) by {
            if i > 0 {
                assert(s[i] == s.drop_first()[i - 1]);
            }
        }
        let k = task_insert_pos(s, x);
        if k < s.len() {
            assert(s[k] == s.drop_first()[k - 1]);
        }
    }
}

/// Ordering open tasks keeps each task, as often as it occurs, and leaves
/// them newest first (by date, then time).
#[verifier::spinoff_prover]
pub proof fn law_tasks_sorted_newest_first(s: Seq<TaskView>)
    ensures
        tasks_newest_first(s).to_multiset() == s.to_multiset(),
        tasks_ordered(tasks_newest_first(s)),
    decreases s.len(),
{
    broadcast use vstd::seq_lib::group_to_multiset_ensures;
    if s.len() > 0 {
        let r = tasks_newest_first(s.drop_last());
        law_tasks_sorted_newest_first(s.drop_last());
        let x = s.last();
        lemma_task_insert_pos(r, x);
        lemma_task_insert_pos_splits(r, x);
        let p = task_insert_pos(r, x);
        let t = r.insert(p, x);
        lemma_insert_multiset(r, p, x);
        assert(s =~= s.drop_last().push(x));
        assert forall|i: int, j: int| 0 <= i < j < t.len() implies !task_earlier(#[trigger] t[i], #[trigger] t[j]) by {
            if j < p {
                assert(t[i] == r[i] && t[j] == r[j]);
            } else if j == p {
                assert(t[i] == r[i]);
            } else if i > p {
                assert(t[i] == r[i - 1] && t[j] == r[j - 1]);
            } else if i == p {
                assert(t[j] == r[j - 1]);
                let q = r[j - 1];
                if j - 1 > p {
                    assert(!task_earlier(r[p], q));
                    lemma_task_earlier_split(r[p], q, x);
                }
                assert(task_earlier(q, x));
                lemma_task_earlier_asymmetric(q, x);
            } else {
                assert(t[i] == r[i] && t[j] == r[j - 1]);
            }
        }
    }
}

// ---------------------------------------------------------------------------
// Tags written with a memo are found by the tag filter
// ---------------------------------------------------------------------------

/// A tag as one word: not empty, no whitespace, not starting with `#`.
pub open spec fn plain_tag(t: Seq<char>) -> bool {
    &&& t.len() > 0
    &&& t[0] != '#'
    &&& forall|j: int| 0 <= j < t.len() ==> !is_space(#[trigger] t[j])
}

proof fn lemma_words_after_space(r: Seq<char>)
    ensures
        words(seq![' '] + r) == words(r),
{
    let s = seq![' '] + r;
    assert(s.drop_first() =~= r);
    assert(trim_start(s) == trim_start(r));
}

proof fn lemma_words_cons(w: Seq<char>, r: Seq<char>)
    requires
        w.len() > 0,
        forall|j: int| 0 <= j < w.len() ==> !is_space(#[trigger] w[j]),
    ensures
        words(w + seq![' '] + r) == seq![w] + words(r),
{
    let s = w + seq![' '] + r;
    assert(!is_space(s[0]));
    assert(trim_start(s) == s);
    assert forall|j: int| 0 <= j < w.len() implies !is_space(#[trigger] s[j]) by {
        assert(s[j] == w[j]);
    }
    assert(s[w.len() as int] == ' ');
    lemma_space_pos_at(s, w.len() as int);
    assert(s.take(w.len() as int) =~= w);
    assert(s.skip(w.len() as int) =~= seq![' '] + r);
    lemma_words_after_space(r);
}

proof fn lemma_tag_prefix_cons(tags: Seq<Seq<char>>)
    requires
        tags.len() >= 1,
    ensures
        tag_prefix(tags) == seq!['#'] + tags[0] + seq![' '] + tag_prefix(tags.drop_first()),
{
    let rest = tags.drop_first();
    if tags.len() == 1 {
        assert(rest.len() == 0);
        assert(join_with(tags, seq![' ', '#']) == tags[0]);
        assert(seq!['#'] + tags[0] + seq![' '] + Seq::<char>::empty() =~= seq!['#'] + tags[0] + seq![' ']);
    } else {
        lemma_join_front(tags, seq![' ', '#']);
        assert(seq!['#'] + (tags[0] + seq![' ', '#'] + join_with(rest, seq![' ', '#'])) + seq![' '] =~= seq!['#']
            + tags[0] + seq![' '] + (seq!['#'] + join_with(rest, seq![' ', '#']) + seq![' ']));
    }
}

proof fn lemma_tag_words(tags: Seq<Seq<char>>, m: Seq<char>, k: int)
    requires
        0 <= k < tags.len(),
        forall|i: int| 0 <= i < tags.len() ==> plain_tag(#[trigger] tags[i]),
    ensures
        k < words(tag_prefix(tags) + m).len(),
        words(tag_prefix(tags) + m)[k] == seq!['#'] + tags[k],
    decreases tags.len(),
{
    let rest = tags.drop_first();
    let w = seq!['#'] + tags[0];
    assert(plain_tag(tags[0]));
    assert forall|j: int| 0 <= j < w.len() implies !is_space(#[trigger] w[j]) by {
        if j > 0 {
            assert(w[j] == tags[0][j - 1]);
        }
    }
    lemma_tag_prefix_cons(tags);
    assert(tag_prefix(tags) + m =~= w + seq![' '] + (tag_prefix(rest) + m));
    lemma_words_cons(w, tag_prefix(rest) + m);
    if k > 0 {
        assert forall|i: int| 0 <= i < rest.len() implies plain_tag(#[trigger] rest[i]) by {
            assert(rest[i] == tags[i + 1]);
        }
        lemma_tag_words(rest, m, k - 1);
        assert(rest[k - 1] == tags[k]);
    }
}

/// A memo written with plain tags is found by a tag filter naming any one
/// of them, whatever its message.
pub proof fn law_added_tags_are_found(tags: Seq<Seq<char>>, message: Seq<char>, link: Option<Seq<char>>, k: int)
    requires
        0 <= k < tags.len(),
        forall|i: int| 0 <= i < tags.len() ==> plain_tag(#[trigger] tags[i]),
    ensures
        spec_matches_tags(entry_body(tags, message, link), seq![tags[k]]),
{
    let body = entry_body(tags, message, link);
    lemma_tag_words(tags, formatted_message(message, link), k);
    let t = tags[k];
    assert(plain_tag(t));
    let w = seq!['#'] + t;
    assert(w.drop_first() =~= t);
    assert(trim_start(t) == t);
    crate::text::lemma_trim_end_at(t, t.len() as int);
    assert(t.take(t.len() as int) =~= t);
    assert(trim(t) == t);
    assert(word_tag(w) == Some(spec_normalize_tag(t)));
    assert(word_tag(words(body)[k]) == Some(spec_normalize_tag(t)));
    assert(carries_tag(body, spec_normalize_tag(t)));
    assert(seq![t][0] == t);
}

// ---------------------------------------------------------------------------
// Tag filters over a whole listing
// ---------------------------------------------------------------------------

/// The open entries whose text satisfies `p`, in order.
pub open spec fn shown_where(ms: Seq<MessageView>, p: spec_fn(Seq<char>) -> bool) -> Seq<MessageView>
    decreases ms.len(),
{
    if ms.len() == 0 {
        Seq::empty()
    } else {
        let rest = shown_where(ms.drop_last(), p);
        if is_open(ms.last()) && p(ms.last().message) {
            rest.push(ms.last())
        } else {
            rest
        }
    }
}

/// The logs in range, each with its open entries that satisfy `p`, newest
/// time first.
pub open spec fn prepared_where(
    ls: Seq<LogView>,
    p: spec_fn(Seq<char>) -> bool,
    from: Option<Seq<char>>,
    to: Option<Seq<char>>,
) -> Seq<LogView>
    decreases ls.len(),
{
    if ls.len() == 0 {
        Seq::empty()
    } else {
        let rest = prepared_where(ls.drop_last(), p, from, to);
        let l = ls.last();
        if in_range(l.date_stamp, from, to) {
            rest.push(LogView { date_stamp: l.date_stamp, is_all: l.is_all, messages: sorted_newest_first(shown_where(l.messages, p)) })
        } else {
            rest
        }
    }
}

/// The listing of the open entries whose text satisfies `p`.
pub open spec fn listing_where(
    ls: Seq<LogView>,
    p: spec_fn(Seq<char>) -> bool,
    limit: int,
    from: Option<Seq<char>>,
    to: Option<Seq<char>>,
) -> Seq<ListLineView> {
    if limit == 0 {
        Seq::empty()
    } else {
        render_logs(logs_newest_first(prepared_where(ls, p, from, to)), 0, limit)
    }
}

proof fn lemma_shown_where(ms: Seq<MessageView>, f: Seq<Seq<char>>, p: spec_fn(Seq<char>) -> bool)
    requires
        forall|t: Seq<char>| #[trigger] spec_matches_tags(t, f) == p(t),
    ensures
        shown_messages(ms, f) == shown_where(ms, p),
    decreases ms.len(),
{
    if ms.len() > 0 {
        lemma_shown_where(ms.drop_last(), f, p);
        assert(spec_matches_tags(ms.last().message, f) == p(ms.last().message));
    }
}

proof fn lemma_prepared_where(
    ls: Seq<LogView>,
    f: Seq<Seq<char>>,
    p: spec_fn(Seq<char>) -> bool,
    from: Option<Seq<char>>,
    to: Option<Seq<char>>,
)
    requires
        forall|t: Seq<char>| #[trigger] spec_matches_tags(t, f) == p(t),
    ensures
        prepared_logs(ls, f, from, to) == prepared_where(ls, p, from, to),
    decreases ls.len(),
{
    if ls.len() > 0 {
        lemma_prepared_where(ls.drop_last(), f, p, from, to);
        lemma_shown_where(ls.last().messages, f, p);
    }
}

/// Entries carrying either tag: the listing for the filters `f1` and `f2`
/// together is the listing of the open entries that pass `f1` or pass
/// `f2`, in the same date and time order and under the same limit.
pub proof fn law_listing_tag_union(
    ls: Seq<LogView>,
    f1: Seq<Seq<char>>,
    f2: Seq<Seq<char>>,
    limit: int,
    from: Option<Seq<char>>,
    to: Option<Seq<char>>,
)
    requires
        f1.len() > 0,
        f2.len() > 0,
    ensures
        spec_listing(ls, f1 + f2, limit, from, to) == listing_where(
            ls,
            |t: Seq<char>| spec_matches_tags(t, f1) || spec_matches_tags(t, f2),
            limit,
            from,
            to,
        ),
{
    let p = |t: Seq<char>| spec_matches_tags(t, f1) || spec_matches_tags(t, f2);
    assert forall|t: Seq<char>| #[trigger] spec_matches_tags(t, f1 + f2) == p(t) by {
        law_tag_filters_any(t, f1, f2);
    }
    lemma_prepared_where(ls, f1 + f2, p, from, to);
}

/// With no tag filter the listing shows every open entry.
pub proof fn law_listing_without_filters(
    ls: Seq<LogView>,
    limit: int,
    from: Option<Seq<char>>,
    to: Option<Seq<char>>,
)
    ensures
        spec_listing(ls, Seq::empty(), limit, from, to) == listing_where(ls, |t: Seq<char>| true, limit, from, to),
{
    let p = |t: Seq<char>| true;
    assert forall|t: Seq<char>| #[trigger] spec_matches_tags(t, Seq::<Seq<char>>::empty()) == p(t) by {}
    lemma_prepared_where(ls, Seq::empty(), p, from, to);
}

/// Under tag filters, every entry listed carries one of the filter tags.
pub proof fn law_shown_entries_carry_a_filter_tag(ms: Seq<MessageView>, f: Seq<Seq<char>>)
    requires
        f.len() > 0,
    ensures
        forall|i: int| 0 <= i < shown_messages(ms, f).len() ==> exists|k: int|
            0 <= k < f.len() && carries_tag(
                #[trigger] shown_messages(ms, f)[i].message,
                spec_normalize_tag(#[trigger] f[k]),
            ),
    decreases ms.len(),
{
    if ms.len() > 0 {
        law_shown_entries_carry_a_filter_tag(ms.drop_last(), f);
        let rest = shown_messages(ms.drop_last(), f);
        let all = shown_messages(ms, f);
        assert forall|i: int| 0 <= i < all.len() implies exists|k: int|
            0 <= k < f.len() && carries_tag(#[trigger] all[i].message, spec_normalize_tag(#[trigger] f[k])) by {
            if i < rest.len() {
                assert(all[i] == rest[i]);
            } else {
                assert(all[i] == ms.last());
            }
        }
    }
}

proof fn lemma_shown_contains(ms: Seq<MessageView>, f: Seq<Seq<char>>, m: MessageView)
    ensures
        shown_messages(ms, f).contains(m) <==> (ms.contains(m) && is_open(m) && spec_matches_tags(m.message, f)),
    decreases ms.len(),
{
    broadcast use vstd::seq_lib::lemma_seq_contains_after_push;
    if ms.len() > 0 {
        lemma_shown_contains(ms.drop_last(), f, m);
        assert(ms =~= ms.drop_last().push(ms.last()));
    }
}

/// Entries carrying either tag, entry by entry: an entry is shown for the
/// filters `f1` and `f2` together exactly when it is shown for `f1` or
/// shown for `f2`.
pub proof fn law_shown_union(ms: Seq<MessageView>, f1: Seq<Seq<char>>, f2: Seq<Seq<char>>)
    requires
        f1.len() > 0,
        f2.len() > 0,
    ensures
        forall|m: MessageView|
            #[trigger] shown_messages(ms, f1 + f2).contains(m) <==> (shown_messages(ms, f1).contains(m)
                || shown_messages(ms, f2).contains(m)),
{
    assert forall|m: MessageView|
        #[trigger] shown_messages(ms, f1 + f2).contains(m) <==> (shown_messages(ms, f1).contains(m)
            || shown_messages(ms, f2).contains(m)) by {
        lemma_shown_contains(ms, f1 + f2, m);
        lemma_shown_contains(ms, f1, m);
        lemma_shown_contains(ms, f2, m);
        law_tag_filters_any(m.message, f1, f2);
    }
}

/// The days listed under the filters `f1` and `f2` together are those
/// listed under `f1` alone and under `f2` alone, in the same order, and
/// each day lists exactly the entries that either of them lists.
pub proof fn law_listed_days_union(
    ls: Seq<LogView>,
    f1: Seq<Seq<char>>,
    f2: Seq<Seq<char>>,
    from: Option<Seq<char>>,
    to: Option<Seq<char>>,
)
    requires
        f1.len() > 0,
        f2.len() > 0,
    ensures
        prepared_logs(ls, f1 + f2, from, to).len() == prepared_logs(ls, f1, from, to).len(),
        prepared_logs(ls, f1 + f2, from, to).len() == prepared_logs(ls, f2, from, to).len(),
        forall|i: int|
            0 <= i < prepared_logs(ls, f1 + f2, from, to).len() ==> {
                &&& (#[trigger] prepared_logs(ls, f1 + f2, from, to)[i]).date_stamp == prepared_logs(
                    ls,
                    f1,
                    from,
                    to,
                )[i].date_stamp
                &&& prepared_logs(ls, f1 + f2, from, to)[i].date_stamp == prepared_logs(ls, f2, from, to)[i].date_stamp
                &&& forall|m: MessageView|
                    #[trigger] prepared_logs(ls, f1 + f2, from, to)[i].messages.contains(m) <==> (prepared_logs(
                        ls,
                        f1,
                        from,
                        to,
                    )[i].messages.contains(m) || prepared_logs(ls, f2, from, to)[i].messages.contains(m))
            },
    decreases ls.len(),
{
    if ls.len() > 0 {
        law_listed_days_union(ls.drop_last(), f1, f2, from, to);
        let l = ls.last();
        let a = prepared_logs(ls, f1 + f2, from, to);
        let b = prepared_logs(ls, f1, from, to);
        let c = prepared_logs(ls, f2, from, to);
        let ra = prepared_logs(ls.drop_last(), f1 + f2, from, to);
        let rb = prepared_logs(ls.drop_last(), f1, from, to);
        let rc = prepared_logs(ls.drop_last(), f2, from, to);
        if in_range(l.date_stamp, from, to) {
            law_shown_union(l.messages, f1, f2);
            law_entries_sorted_newest_first(shown_messages(l.messages, f1 + f2));
            law_entries_sorted_newest_first(shown_messages(l.messages, f1));
            law_entries_sorted_newest_first(shown_messages(l.messages, f2));
            assert forall|i: int| 0 <= i < a.len() implies {
                &&& (#[trigger] a[i]).date_stamp == b[i].date_stamp
                &&& a[i].date_stamp == c[i].date_stamp
                &&& forall|m: MessageView|
                    #[trigger] a[i].messages.contains(m) <==> (b[i].messages.contains(m) || c[i].messages.contains(m))
            } by {
                if i < ra.len() {
                    assert(a[i] == ra[i]);
                    assert(b[i] == rb[i]);
                    assert(c[i] == rc[i]);
                } else {
                    assert forall|m: MessageView|
                        #[trigger] a[i].messages.contains(m) <==> (b[i].messages.contains(m)
                            || c[i].messages.contains(m)) by {
                        broadcast use vstd::seq_lib::to_multiset_contains;
                        assert(a[i].messages.to_multiset().count(m) == shown_messages(l.messages, f1 + f2).to_multiset().count(m));
                        assert(b[i].messages.to_multiset().count(m) == shown_messages(l.messages, f1).to_multiset().count(m));
                        assert(c[i].messages.to_multiset().count(m) == shown_messages(l.messages, f2).to_multiset().count(m));
                        assert(shown_messages(l.messages, f1 + f2).contains(m) <==> (shown_messages(l.messages, f1).contains(m)
                            || shown_messages(l.messages, f2).contains(m)));
                    }
                }
            }
        }
    }
}

// ---------------------------------------------------------------------------
// The order in which configuration files are read
// ---------------------------------------------------------------------------

proof fn lemma_text_insert_pos_splits(s: Seq<Seq<char>>, x: Seq<char>)
    ensures
        forall|i: int| 0 <= i < text_insert_pos(s, x) ==> !lex_lt(x, #[trigger] s[i]),
        text_insert_pos(s, x) < s.len() ==> lex_lt(x, s[text_insert_pos(s, x)]),
    decreases s.len(),
{
    lemma_text_insert_pos(s, x);
    if s.len() > 0 && !lex_lt(x, s[0]) {
        lemma_text_insert_pos_splits(s.drop_first(), x);
        lemma_text_insert_pos(s.drop_first(), x);
        assert(text_insert_pos(s, x) == 1 + text_insert_pos(s.drop_first(), x));
        assert forall|i: int| 0 <= i < text_insert_pos(s, x) implies !lex_lt(x, #[trigger] s[i]) by {
            if i > 0 {
                assert(s[i] == s.drop_first()[i - 1]);
            }
        }
        let k = text_insert_pos(s, x);
        if k < s.len() {
            assert(s[k] == s.drop_first()[k - 1]);
        }
    }
}

/// The files of a configuration directory are read in ascending order of
/// their paths, each once for each time it is found.
#[verifier::spinoff_prover]
pub proof fn law_config_files_sorted(s: Seq<Seq<char>>)
    ensures
        sorted_texts(s).to_multiset() == s.to_multiset(),
        forall|i: int, j: int| 0 <= i < j < sorted_texts(s).len() ==> !lex_lt(
            #[trigger] sorted_texts(s)[j],
            #[trigger] sorted_texts(s)[i],
        ),
    decreases s.len(),
{
    broadcast use vstd::seq_lib::group_to_multiset_ensures;
    if s.len() > 0 {
        let r = sorted_texts(s.drop_last());
        law_config_files_sorted(s.drop_last());
        let x = s.last();
        lemma_text_insert_pos(r, x);
        lemma_text_insert_pos_splits(r, x);
        let p = text_insert_pos(r, x);
        let t = r.insert(p, x);
        lemma_insert_multiset(r, p, x);
        assert(s =~= s.drop_last().push(x));
        assert forall|i: int, j: int| 0 <= i < j < t.len() implies !lex_lt(#[trigger] t[j], #[trigger] t[i]) by {
            if j < p {
                assert(t[i] == r[i] && t[j] == r[j]);
            } else if j == p {
                assert(t[i] == r[i]);
            } else if i > p {
                assert(t[i] == r[i - 1] && t[j] == r[j - 1]);
            } else if i == p {
                assert(t[j] == r[j - 1]);
                let q = r[j - 1];
                if j - 1 > p {
                    assert(!lex_lt(q, r[p]));
                    lemma_lex_lt_total(q, r[p]);
                    if lex_lt(r[p], q) {
                        lemma_lex_lt_transitive(x, r[p], q);
                    }
                }
                assert(lex_lt(x, q));
                lemma_lex_lt_asymmetric(x, q);
            } else {
                assert(t[i] == r[i] && t[j] == r[j - 1]);
            }
        }
    }
}


// ---------------------------------------------------------------------------
// Where `end_line` puts a memo, headings in journal files, `--last-edit`
// tags, and configuration layering
// ---------------------------------------------------------------------------

/// With `end_line`, a memo under an anchor whose section starts (after
/// blank lines) with a list item goes at the end of that list: every line
/// from the first item up to the insertion point is a list item or a blank
/// line directly followed by a list item, and the line at the insertion
/// point, when it comes before the next heading, is neither.  So blank
/// lines between the items of the list never end it, and the memo lands
/// below its last item, never past the next heading.
pub proof fn law_end_line_goes_below_the_list(ls: Seq<Seq<char>>, anchor: int)
    requires
        0 <= anchor < ls.len(),
        crate::markdown::next_nonblank(ls, anchor + 1) < ls.len(),
        spec_is_list(ls[crate::markdown::next_nonblank(ls, anchor + 1)]),
    ensures
        ({
            let f = crate::markdown::next_nonblank(ls, anchor + 1);
            let h = next_heading(ls, anchor + 1);
            let e = spec_insert_index(ls, anchor, true);
            &&& f < e <= h
            &&& forall|j: int|
                f <= j < e ==> (spec_is_list(#[trigger] ls[j]) || (crate::markdown::spec_is_blank(ls[j]) && j + 1
                    < ls.len() && spec_is_list(ls[j + 1])))
            &&& e < h ==> !spec_is_list(ls[e]) && !(crate::markdown::spec_is_blank(ls[e]) && e + 1 < ls.len()
                && spec_is_list(ls[e + 1]))
        }),
{
    let start = anchor + 1;
    let f = crate::markdown::next_nonblank(ls, start);
    let h = next_heading(ls, start);
    lemma_next_heading_bounds(ls, start);
    crate::markdown::lemma_next_nonblank_bounds(ls, start);
    lemma_list_not_heading(ls[f]);
    if h < f {
        crate::markdown::lemma_heading_not_blank(ls[h]);
    }
    assert(f < h);
    crate::add::lemma_block_run_end_bounds(ls, f, h);
    let e = spec_insert_index(ls, anchor, true);
    assert(e == crate::add::block_run_end(ls, f, h));
    assert(crate::add::continues_block(ls, f));
    if e == f {
        assert(false);
    }
    assert forall|j: int| f <= j < e implies (spec_is_list(#[trigger] ls[j]) || (crate::markdown::spec_is_blank(ls[j])
        && j + 1 < ls.len() && spec_is_list(ls[j + 1]))) by {
        assert(crate::add::continues_block(ls, j));
    }
}

/// Without `end_line` a memo goes right below its anchor line; with it,
/// when the anchor's section does not start with a list item (or is empty),
/// the memo goes at the end of the section: just above the next heading,
/// or at the end of the file.
pub proof fn law_insert_index_without_list(ls: Seq<Seq<char>>, anchor: int)
    requires
        0 <= anchor < ls.len(),
    ensures
        spec_insert_index(ls, anchor, false) == anchor + 1,
        (crate::markdown::next_nonblank(ls, anchor + 1) == ls.len() || !spec_is_list(
            ls[crate::markdown::next_nonblank(ls, anchor + 1)],
        )) ==> spec_insert_index(ls, anchor, true) == next_heading(ls, anchor + 1),
        next_heading(ls, anchor + 1) < ls.len() ==> spec_is_heading(ls[next_heading(ls, anchor + 1)]),
        forall|j: int| anchor < j < next_heading(ls, anchor + 1) ==> !spec_is_heading(#[trigger] ls[j]),
{
    lemma_next_heading_bounds(ls, anchor + 1);
    crate::markdown::lemma_next_nonblank_bounds(ls, anchor + 1);
}

proof fn lemma_heading_not_rule_or_fence(t: Seq<char>)
    requires
        spec_is_heading(t),
    ensures
        !crate::datalog::is_rule(t),
        !crate::datalog::is_fence(t),
{
    if crate::datalog::is_rule(t) {
        assert(t[0] == '-');
        assert(!is_space(t[0]));
        assert(trim_start(t) == t);
    }
    if crate::datalog::is_fence(t) {
        assert(t.take(3)[0] == '`');
        assert(t[0] == '`');
        assert(!is_space(t[0]));
        assert(trim_start(t) == t);
    }
}

/// A heading line closes the current entry, as do blank lines and quotes:
/// outside frontmatter and code blocks, reading one adds nothing to any
/// entry (a heading is never glued to the entry above it as a continuation
/// line) and leaves no entry open, so the lines after it cannot continue
/// the entry above it either.
pub proof fn law_heading_closes_entry(
    st: crate::datalog::ParseState,
    line: Seq<char>,
    is_note: bool,
    is_task: bool,
    is_all: bool,
)
    requires
        !st.in_frontmatter,
        !st.in_code_block,
        spec_is_heading(trim(line)) || crate::markdown::spec_is_blank(trim(line)) || crate::datalog::is_quote(
            trim(line),
        ),
    ensures
        parse_step(st, line, is_note, is_task, is_all).messages == st.messages,
        parse_step(st, line, is_note, is_task, is_all).current is None,
        !parse_step(st, line, is_note, is_task, is_all).in_frontmatter,
        !parse_step(st, line, is_note, is_task, is_all).in_code_block,
{
    let t = trim(line);
    if spec_is_heading(t) {
        lemma_heading_not_rule_or_fence(t);
    } else if crate::markdown::spec_is_blank(t) {
        if crate::datalog::is_rule(t) {
            assert(t[0] == '-' && !is_space(t[0]));
            crate::markdown::lemma_trim_end_keeps_first(trim_start(t));
            assert(trim_start(t) == t);
        }
        if crate::datalog::is_fence(t) {
            assert(t.take(3)[0] == '`');
            assert(t[0] == '`' && !is_space(t[0]));
            crate::markdown::lemma_trim_end_keeps_first(trim_start(t));
            assert(trim_start(t) == t);
        }
    } else {
        if crate::datalog::is_fence(t) {
            assert(t.take(3)[0] == '`');
        }
    }
}

/// In a file with dated headings, a heading that names a date makes that
/// date the current one, whatever date was current before: the entries
/// below it go to the log of the date it names (a later dated heading
/// switches the date), and reading the heading changes no log.
pub proof fn law_dated_heading_switches_date(
    st: crate::datalog::HeaderState,
    line: Seq<char>,
    insert: Option<Seq<char>>,
    is_note: bool,
    is_task: bool,
    is_all: bool,
    d: Seq<char>,
)
    requires
        !st.in_frontmatter,
        !st.in_code_block,
        spec_is_heading(trim(line)),
        crate::datalog::spec_heading_date(trim(line), insert) == Some(d),
    ensures
        crate::datalog::header_step(st, line, insert, is_note, is_task, is_all).date == Some(d),
        crate::datalog::header_step(st, line, insert, is_note, is_task, is_all).logs == st.logs,
        crate::datalog::header_step(st, line, insert, is_note, is_task, is_all).current is None,
{
    lemma_heading_not_rule_or_fence(trim(line));
}

proof fn lemma_last_inserted_below_len(ls: Seq<Seq<char>>, anchor: Option<Seq<char>>, end_line: bool)
    ensures
        spec_last_inserted(ls, anchor, end_line) < ls.len(),
{
    let n = ls.len() as int;
    crate::last_edit::lemma_last_editable(ls, n);
    match anchor {
        Some(t) => {
            lemma_last_trimmed_eq_bounds(ls, n, t);
            let a = last_trimmed_eq(ls, n, t);
            lemma_next_heading_bounds(ls, a + 1);
            let h = next_heading(ls, a + 1);
            crate::last_edit::lemma_first_list_in(ls, a + 1, h);
            crate::last_edit::lemma_last_list_in(ls, a + 1, h);
        },
        None => {
            lemma_last_trimmed_eq_bounds(ls, n, seq!['-', '-', '-']);
            let start = last_trimmed_eq(ls, n, seq!['-', '-', '-']) + 1;
            crate::last_edit::lemma_first_list_in(ls, start, n);
            crate::last_edit::lemma_last_list_in(ls, 0, n);
        },
    }
}

/// The start of a memo line that `--last-edit` keeps: its indentation,
/// marker, checkbox and clock; `- ` for a line without a list marker.
pub open spec fn kept_marker(line: Seq<char>) -> Seq<char> {
    match crate::grammar::entry_prefix_len(line) {
        Some(m) => line.take(m),
        None => seq!['-', ' '],
    }
}

/// A command's configured tags (if any) followed by the given ones.
pub open spec fn command_then_given(command_tags: Option<Seq<Seq<char>>>, given: Seq<Seq<char>>) -> Seq<Seq<char>> {
    match command_tags {
        Some(t) => t + given,
        None => given,
    }
}

/// In a file with dated headings, an entry line below a dated heading goes
/// to the log of the current date: appended to that date's log when there
/// is one (the other logs unchanged), else to a new log of that date added
/// at the end.
pub proof fn law_header_entry_goes_to_current_date(
    st: crate::datalog::HeaderState,
    line: Seq<char>,
    insert: Option<Seq<char>>,
    is_note: bool,
    is_task: bool,
    is_all: bool,
    d: Seq<char>,
)
    requires
        !st.in_frontmatter,
        !st.in_code_block,
        st.date == Some(d),
        crate::datalog::unique_stamps(st.logs),
        !crate::datalog::is_rule(trim(line)),
        !crate::datalog::is_fence(trim(line)),
        !crate::markdown::spec_is_blank(trim(line)),
        !spec_is_heading(trim(line)),
        !crate::datalog::is_quote(trim(line)),
    ensures
        forall|k: int|
            0 <= k < st.logs.len() && (#[trigger] st.logs[k]).date_stamp == d && accept_entry(
                line,
                is_note,
                is_task,
                st.logs[k].is_all,
            ) is Some ==> crate::datalog::header_step(st, line, insert, is_note, is_task, is_all).logs
                == st.logs.update(
                k,
                LogView {
                    date_stamp: d,
                    is_all: st.logs[k].is_all,
                    messages: st.logs[k].messages.push(accept_entry(line, is_note, is_task, st.logs[k].is_all)->0),
                },
            ),
        (forall|k: int| 0 <= k < st.logs.len() ==> (#[trigger] st.logs[k]).date_stamp != d) && accept_entry(
            line,
            is_note,
            is_task,
            is_all,
        ) is Some ==> crate::datalog::header_step(st, line, insert, is_note, is_task, is_all).logs == st.logs.push(
            LogView { date_stamp: d, is_all, messages: seq![accept_entry(line, is_note, is_task, is_all)->0] },
        ),
{
    crate::datalog::lemma_find_stamp(st.logs, d);
    assert forall|k: int|
        0 <= k < st.logs.len() && (#[trigger] st.logs[k]).date_stamp == d && accept_entry(
            line,
            is_note,
            is_task,
            st.logs[k].is_all,
        ) is Some implies crate::datalog::header_step(st, line, insert, is_note, is_task, is_all).logs
            == st.logs.update(
            k,
            LogView {
                date_stamp: d,
                is_all: st.logs[k].is_all,
                messages: st.logs[k].messages.push(accept_entry(line, is_note, is_task, st.logs[k].is_all)->0),
            },
        ) by {
        let f = crate::datalog::find_stamp(st.logs, d);
        if f < k {
            assert(st.logs[f].date_stamp == st.logs[k].date_stamp);
        }
        assert(f == k);
        assert(crate::datalog::with_date(st.logs, d, is_all) == st.logs);
    }
    if (forall|k: int| 0 <= k < st.logs.len() ==> (#[trigger] st.logs[k]).date_stamp != d) {
        let f = crate::datalog::find_stamp(st.logs, d);
        if f < st.logs.len() {
            assert(st.logs[f].date_stamp == d);
        }
        let w = crate::datalog::with_date(st.logs, d, is_all);
        crate::datalog::lemma_with_date_unique(st.logs, d, is_all);
        assert forall|j: int| 0 <= j < st.logs.len() implies w[j].date_stamp != d by {
            assert(w[j] == st.logs[j]);
        }
        crate::datalog::lemma_find_stamp_at(w, d, st.logs.len() as int);
        let new_log = LogView { date_stamp: d, is_all, messages: seq![accept_entry(line, is_note, is_task, is_all)->0] };
        assert(w.update(st.logs.len() as int, new_log) =~= st.logs.push(new_log)) by {
            assert(Seq::<MessageView>::empty().push(accept_entry(line, is_note, is_task, is_all)->0)
                =~= seq![accept_entry(line, is_note, is_task, is_all)->0]);
        }
    }
}

/// `--last-edit` writes the command's configured tags followed by the
/// tags given on the command line, as the `#tag` prefix in front of the
/// new message (the prefix a memo added with that command gets), and keeps
/// the old line's marker, checkbox and clock: one line of the file is
/// replaced by that line (the modified-field update, when configured, is
/// applied after).
pub proof fn law_edit_writes_command_tags(
    config: ConfigView,
    command_name: Seq<char>,
    ls: Seq<Seq<char>>,
    message: Seq<char>,
    link: Option<Seq<char>>,
    extra_tags: Seq<Seq<char>>,
    now: crate::clock::Moment,
)
    ensures
        crate::last_edit::spec_edit(config, command_name, ls, message, link, extra_tags, now) matches Some(out)
            ==> exists|idx: int|
            #![trigger kept_marker(ls[idx])]
            0 <= idx < ls.len() && (out == ls.update(
                idx,
                kept_marker(ls[idx]) + tag_prefix(command_then_given(config.commands[command_name].tags, extra_tags))
                    + formatted_message(message, link),
            ) || crate::add::with_modified(
                config,
                ls.update(
                    idx,
                    kept_marker(ls[idx]) + tag_prefix(command_then_given(config.commands[command_name].tags, extra_tags))
                        + formatted_message(message, link),
                ),
                now,
            ) == Some(out)),
{
    if let Some(out) = crate::last_edit::spec_edit(config, command_name, ls, message, link, extra_tags, now) {
        let cmd = config.commands[command_name];
        let anchor = match cmd.insert {
            Some(p) => match crate::paths::rendered(now, p) {
                Some(a) => Some(Some(a)),
                None => None,
            },
            None => Some(None),
        };
        let av = anchor->0;
        let idx = spec_last_inserted(ls, av, cmd.end_line);
        let tags = command_then_given(cmd.tags, extra_tags);
        let keep = kept_marker(ls[idx]);
        assert(crate::last_edit::edited_line(ls[idx], crate::tags::combined_tags(cmd.tags, extra_tags), message, link)
            == keep + tag_prefix(tags) + formatted_message(message, link));
        assert(0 <= idx < ls.len()) by {
            lemma_last_inserted_below_len(ls, av, cmd.end_line);
        }
        let ls1 = ls.update(idx, keep + tag_prefix(tags) + formatted_message(message, link));
        assert(out == ls1 || crate::add::with_modified(config, ls1, now) == Some(out));
        assert(kept_marker(ls[idx]) == keep);
    }
}

/// A later configuration layer wins, field by field: every option the
/// overriding layer sets is the merged value, every option it leaves unset
/// keeps the earlier layer's value; `auto_command` holds when either layer
/// sets it, `no_global` is the earlier layer's; a command the overriding
/// layer defines replaces the earlier one of that name, the others stay.
pub proof fn law_later_layer_wins(base: ConfigView, over: ConfigView)
    ensures
        ({
            let m = spec_merge(base, over);
            &&& m.base_directory == if over.base_directory is Some { over.base_directory } else { base.base_directory }
            &&& m.default_command == if over.default_command is Some { over.default_command } else { base.default_command }
            &&& m.date_format == if over.date_format is Some { over.date_format } else { base.date_format }
            &&& m.list == if over.list is Some { over.list } else { base.list }
            &&& m.time_format == if over.time_format is Some { over.time_format } else { base.time_format }
            &&& m.created == if over.created is Some { over.created } else { base.created }
            &&& m.modified == if over.modified is Some { over.modified } else { base.modified }
            &&& m.auto_command == (base.auto_command || over.auto_command)
            &&& m.no_global == base.no_global
            &&& forall|n: Seq<char>|
                #[trigger] m.commands.contains_key(n) == (base.commands.contains_key(n) || over.commands.contains_key(n))
            &&& forall|n: Seq<char>| #[trigger]
                over.commands.contains_key(n) ==> m.commands[n] == over.commands[n]
            &&& forall|n: Seq<char>|
                base.commands.contains_key(n) && !over.commands.contains_key(n) ==> #[trigger] m.commands[n]
                    == base.commands[n]
        }),
{
}

} // verus!
