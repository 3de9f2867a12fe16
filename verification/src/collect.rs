//! Gathering the entries of commands into logs by date.
use vstd::prelude::*;
use crate::config::{Config, CommandConfig, CommandView, DailyFile, opt_view};
use crate::datalog::{
    copy_message, header_lines, header_start, entry_index, find_stamp, lemma_find_stamp, lemma_find_stamp_update,
    lemma_header_lines_unique, lemma_update_unique, lemma_with_date_unique, unique_stamps, log_views, message_views, parse_lines, with_date, DataLog, LogView, MessageLog, MessageView,
};
use crate::error::QwaError;
use crate::paths::{date_from_name, resolve_date_stamp, FileDates};
use crate::clock::date_text;
use crate::list::lex_lt;
use crate::list::chars_lex_lt;
use crate::text::{chars_of, lines_of, string_of, views};

verus! {

/// How the entries of a command are found.
#[derive(Clone, Copy, Debug, PartialEq, Eq, Structural)]
pub enum CollectPlan {
    /// Every file of the command's directory, with dates as headings.
    Header,
    /// The command's one file, for one date.
    SingleFile,
    /// Every file of the command's directory, one date per file.
    PerFile,
}

/// The file pattern has a `%` placeholder (a command without a file
/// pattern counts as having one).
pub open spec fn has_date_placeholder(command: CommandView) -> bool {
    match command.file {
        Some(f) => f.contains('%'),
        None => true,
    }
}

/// `header` layouts are read by headings; `onefile` layouts, and files
/// named without a date placeholder, are one file; the rest are one file
/// per date.
pub open spec fn spec_collect_plan(command: CommandView) -> CollectPlan {
    let format = match command.date_format {
        Some(f) => f,
        None => DailyFile::Line,
    };
    if format == DailyFile::Header {
        CollectPlan::Header
    } else if format == DailyFile::Onefile || !has_date_placeholder(command) {
        CollectPlan::SingleFile
    } else {
        CollectPlan::PerFile
    }
}

pub fn collect_plan(command: &CommandConfig) -> (r: CollectPlan)
    ensures
        r == spec_collect_plan(command@),
{
    let format = command.date_format();
    if matches!(format, DailyFile::Header) {
        return CollectPlan::Header;
    }
    let placeholder = match &command.file {
        Some(f) => {
            let v = chars_of(f.as_str());
            let mut i: usize = 0;
            let mut found = false;
            while i < v.len()
                invariant
                    i <= v.len(),
                    found == exists|j: int| 0 <= j < i && v@[j] == '%',
                decreases v.len() - i,
            {
                if v[i] == '%' {
                    found = true;
                }
                i = i + 1;
            }
            proof {
                if found {
                    let j = choose|j: int| 0 <= j < i && v@[j] == '%';
                    assert(f@.contains('%')) by {
                        assert(f@[j] == '%');
                    }
                } else {
                    assert(!f@.contains('%'));
                }
            }
            found
        },
        None => true,
    };
    if matches!(format, DailyFile::Onefile) || !placeholder {
        CollectPlan::SingleFile
    } else {
        CollectPlan::PerFile
    }
}

/// The logs with `msgs` added to the end of the log of `stamp` (created
/// when missing).
pub open spec fn merged(logs: Seq<LogView>, stamp: Seq<char>, msgs: Seq<MessageView>, is_all: bool) -> Seq<LogView> {
    let l1 = with_date(logs, stamp, is_all);
    let k = find_stamp(l1, stamp);
    l1.update(
        k,
        LogView { date_stamp: l1[k].date_stamp, is_all: l1[k].is_all, messages: l1[k].messages + msgs },
    )
}

/// Merging messages into the log of a date keeps one log per date.
pub proof fn lemma_merged_unique(logs: Seq<LogView>, stamp: Seq<char>, msgs: Seq<MessageView>, is_all: bool)
    requires
        unique_stamps(logs),
    ensures
        unique_stamps(merged(logs, stamp, msgs, is_all)),
{
    lemma_with_date_unique(logs, stamp, is_all);
    let l1 = with_date(logs, stamp, is_all);
    let k = find_stamp(l1, stamp);
    lemma_find_stamp(l1, stamp);
    lemma_update_unique(
        l1,
        k,
        LogView { date_stamp: l1[k].date_stamp, is_all: l1[k].is_all, messages: l1[k].messages + msgs },
    );
}

/// Adds the messages to the log of `stamp`, creating it when missing.
pub fn merge_messages(entries: &mut Vec<DataLog>, stamp: &[char], messages: Vec<MessageLog>, is_all: bool)
    ensures
        log_views(final(entries)@) == merged(log_views(old(entries)@), stamp@, message_views(messages@), is_all),
{
    let k = entry_index(entries, stamp, is_all);
    let ghost l1 = log_views(entries@);
    let mut log = DataLog::new(String::new(), false);
    entries.set_and_swap(k, &mut log);
    assert(log@ == l1[k as int]);
    let ghost start = message_views(log.messages@);
    let ghost orig = log@;
    let mut i: usize = 0;
    while i < messages.len()
        invariant
            i <= messages.len(),
            log@.date_stamp == orig.date_stamp,
            log.is_all == orig.is_all,
            message_views(log.messages@) == start + message_views(messages@).take(i as int),
        decreases messages.len() - i,
    {
        let ghost prev = log.messages@;
        log.messages.push(copy_message(&messages[i]));
        proof {
            assert(message_views(messages@).take(i + 1) =~= message_views(messages@).take(i as int).push(messages@[i as int]@));
            assert(message_views(log.messages@) =~= message_views(prev).push(messages@[i as int]@));
        }
        i = i + 1;
    }
    assert(message_views(messages@).take(messages.len() as int) =~= message_views(messages@));
    let ghost mid = entries@;
    let ghost newlog = log@;
    assert(newlog == LogView { date_stamp: l1[k as int].date_stamp, is_all: l1[k as int].is_all, messages: l1[k as int].messages + message_views(messages@) });
    entries.set(k, log);
    proof {
        let after = log_views(entries@);
        assert(after =~= l1.update(k as int, newlog)) by {
            assert forall|j: int| 0 <= j < after.len() implies after[j] == l1.update(k as int, newlog)[j] by {
                if j != k {
                    assert(entries@[j] == mid[j]);
                }
            }
        }
    }
}

/// The logs of several commands put together, in order: the entries of a
/// date are those of each command, one command after the other.
pub open spec fn merged_all(base: Seq<LogView>, groups: Seq<Seq<LogView>>, is_all: bool) -> Seq<LogView>
    decreases groups.len(),
{
    if groups.len() == 0 {
        base
    } else {
        merged_group(merged_all(base, groups.drop_last(), is_all), groups.last(), is_all)
    }
}

/// One command's logs merged, log by log.
pub open spec fn merged_group(base: Seq<LogView>, g: Seq<LogView>, is_all: bool) -> Seq<LogView>
    decreases g.len(),
{
    if g.len() == 0 {
        base
    } else {
        let prev = merged_group(base, g.drop_last(), is_all);
        merged(prev, g.last().date_stamp, g.last().messages, is_all)
    }
}

/// Merging a command's logs keeps one log per date.
pub proof fn lemma_merged_group_unique(base: Seq<LogView>, g: Seq<LogView>, is_all: bool)
    requires
        unique_stamps(base),
    ensures
        unique_stamps(merged_group(base, g, is_all)),
    decreases g.len(),
{
    if g.len() > 0 {
        lemma_merged_group_unique(base, g.drop_last(), is_all);
        lemma_merged_unique(merged_group(base, g.drop_last(), is_all), g.last().date_stamp, g.last().messages, is_all);
    }
}

/// Merging the logs of several commands keeps one log per date.
pub proof fn lemma_merged_all_unique(base: Seq<LogView>, groups: Seq<Seq<LogView>>, is_all: bool)
    requires
        unique_stamps(base),
    ensures
        unique_stamps(merged_all(base, groups, is_all)),
    decreases groups.len(),
{
    if groups.len() > 0 {
        lemma_merged_all_unique(base, groups.drop_last(), is_all);
        lemma_merged_group_unique(merged_all(base, groups.drop_last(), is_all), groups.last(), is_all);
    }
}

pub open spec fn group_views(gs: Seq<Vec<DataLog>>) -> Seq<Seq<LogView>> {
    gs.map_values(|g: Vec<DataLog>| log_views(g@))
}

impl DataLog {
    /// Puts together the logs collected from each command, as `merged_all`
    /// states.
    pub fn collect_from_commands(per_command: Vec<Vec<DataLog>>, is_all: bool) -> (r: Vec<DataLog>)
        ensures
            log_views(r@) == merged_all(Seq::empty(), group_views(per_command@), is_all),
            unique_stamps(log_views(r@)),
    {
        let ghost gv = group_views(per_command@);
        let mut entries: Vec<DataLog> = Vec::new();
        let mut c: usize = 0;
        assert(gv.take(0) =~= Seq::<Seq<LogView>>::empty());
        assert(log_views(entries@) =~= Seq::<LogView>::empty());
        while c < per_command.len()
            invariant
                c <= per_command.len(),
                gv == group_views(per_command@),
                log_views(entries@) == merged_all(Seq::empty(), gv.take(c as int), is_all),
            decreases per_command.len() - c,
        {
            let group = &per_command[c];
            let ghost g = log_views(group@);
            let ghost base = log_views(entries@);
            let mut i: usize = 0;
            assert(g.take(0) =~= Seq::<LogView>::empty());
            while i < group.len()
                invariant
                    i <= group.len(),
                    g == log_views(group@),
                    log_views(entries@) == merged_group(base, g.take(i as int), is_all),
                decreases group.len() - i,
            {
                let log = &group[i];
                let stamp = chars_of(log.date_stamp.as_str());
                let mut copies: Vec<MessageLog> = Vec::new();
                let mut j: usize = 0;
                while j < log.messages.len()
                    invariant
                        j <= log.messages.len(),
                        message_views(copies@) == message_views(log.messages@).take(j as int),
                    decreases log.messages.len() - j,
                {
                    let ghost prev = copies@;
                    copies.push(copy_message(&log.messages[j]));
                    proof {
                        assert(message_views(copies@) =~= message_views(prev).push(log.messages@[j as int]@));
                        assert(message_views(log.messages@).take(j + 1) =~= message_views(log.messages@).take(j as int).push(log.messages@[j as int]@));
                    }
                    j = j + 1;
                }
                assert(message_views(log.messages@).take(log.messages.len() as int) =~= message_views(log.messages@));
                merge_messages(&mut entries, &stamp, copies, is_all);
                proof {
                    assert(g.take(i + 1).drop_last() =~= g.take(i as int));
                    assert(g.take(i + 1).last() == log@);
                }
                i = i + 1;
            }
            proof {
                assert(g.take(group.len() as int) =~= g);
                assert(gv.take(c + 1).drop_last() =~= gv.take(c as int));
                assert(gv.take(c + 1).last() == g);
            }
            c = c + 1;
        }
        assert(gv.take(per_command.len() as int) =~= gv);
        proof {
            lemma_merged_all_unique(Seq::empty(), gv, is_all);
        }
        entries
    }
}

/// A file of a command, read.
pub struct SourceFile {
    pub path: String,
    pub contents: String,
    pub dates: FileDates,
}

/// The logs of a command kept in one file: its entries under the date
/// stamp of the file.
pub fn collect_single_file(
    file: &SourceFile,
    command: &CommandConfig,
    is_note: bool,
    is_task: bool,
    is_all: bool,
) -> (r: Result<Vec<DataLog>, QwaError>)
    ensures
        match r {
            Ok(logs) => resolved_stamp(*file, command@) is Some && log_views(logs@) == merged(
                Seq::empty(),
                resolved_stamp(*file, command@)->0,
                parse_lines(lines_of(file.contents@), is_note, is_task, is_all).messages,
                is_all,
            ),
            Err(_) => resolved_stamp(*file, command@) is None,
        },
{
    let stamp = match resolve_date_stamp(file.path.as_str(), command, &file.dates) {
        Ok(s) => s,
        Err(e) => return Err(e),
    };
    let parsed = DataLog::parse(file.contents.as_str(), stamp.as_str(), is_note, is_task, is_all);
    let mut entries: Vec<DataLog> = Vec::new();
    assert(log_views(entries@) =~= Seq::<LogView>::empty());
    merge_messages(&mut entries, &chars_of(stamp.as_str()), parsed.messages, is_all);
    Ok(entries)
}

/// The date stamp a file resolves to: from its name, else its creation
/// date, else its modification date.
pub open spec fn resolved_stamp(f: SourceFile, command: CommandView) -> Option<Seq<char>> {
    match date_from_name(f.path@, command) {
        Some(d) => Some(date_text(d)),
        None => match f.dates {
            FileDates::Known { created: Some(c), .. } => Some(date_text(c)),
            FileDates::Known { created: None, modified: Some(m) } => Some(date_text(m)),
            _ => None,
        },
    }
}

/// Where a stamped file goes among files ordered newest date first: after
/// every file whose date is not earlier (stable).
pub open spec fn pair_insert_pos(s: Seq<(Seq<char>, int)>, x: Seq<char>) -> int
    decreases s.len(),
{
    if s.len() == 0 {
        0
    } else if !lex_lt(s[0].0, x) {
        1 + pair_insert_pos(s.drop_first(), x)
    } else {
        0
    }
}

pub proof fn lemma_pair_insert_pos(s: Seq<(Seq<char>, int)>, x: Seq<char>)
    ensures
        0 <= pair_insert_pos(s, x) <= s.len(),
    decreases s.len(),
{
    if s.len() > 0 {
        lemma_pair_insert_pos(s.drop_first(), x);
    }
}

/// The files' stamps with their indices, newest date first (stable).
pub open spec fn sorted_stamps(files: Seq<SourceFile>, command: CommandView) -> Seq<(Seq<char>, int)>
    decreases files.len(),
{
    if files.len() == 0 {
        Seq::empty()
    } else {
        let r = sorted_stamps(files.drop_last(), command);
        let x = match resolved_stamp(files.last(), command) {
            Some(t) => t,
            None => Seq::empty(),
        };
        proof {
            lemma_pair_insert_pos(r, x);
        }
        r.insert(pair_insert_pos(r, x), (x, files.len() - 1))
    }
}

/// The files' entries merged into logs in the given order.
pub open spec fn per_file_logs(
    files: Seq<SourceFile>,
    order: Seq<(Seq<char>, int)>,
    is_note: bool,
    is_task: bool,
    is_all: bool,
) -> Seq<LogView>
    decreases order.len(),
{
    if order.len() == 0 {
        Seq::empty()
    } else {
        let p = order.last();
        merged(
            per_file_logs(files, order.drop_last(), is_note, is_task, is_all),
            p.0,
            parse_lines(lines_of(files[p.1].contents@), is_note, is_task, is_all).messages,
            is_all,
        )
    }
}

pub proof fn lemma_sorted_stamps_len(files: Seq<SourceFile>, command: CommandView)
    ensures
        sorted_stamps(files, command).len() == files.len(),
        forall|x: int| 0 <= x < files.len() ==> 0 <= (#[trigger] sorted_stamps(files, command)[x]).1 < files.len(),
    decreases files.len(),
{
    if files.len() > 0 {
        let r = sorted_stamps(files.drop_last(), command);
        lemma_sorted_stamps_len(files.drop_last(), command);
        let x = match resolved_stamp(files.last(), command) {
            Some(t) => t,
            None => Seq::empty(),
        };
        lemma_pair_insert_pos(r, x);
        let s = sorted_stamps(files, command);
        assert forall|y: int| 0 <= y < files.len() implies 0 <= (#[trigger] s[y]).1 < files.len() by {
            let p = pair_insert_pos(r, x);
            if y < p {
                assert(s[y] == r[y]);
            } else if y > p {
                assert(s[y] == r[y - 1]);
            }
        }
    }
}

/// The files' entries merged in any order keep one log per date.
pub proof fn lemma_per_file_unique(
    files: Seq<SourceFile>,
    order: Seq<(Seq<char>, int)>,
    is_note: bool,
    is_task: bool,
    is_all: bool,
)
    ensures
        unique_stamps(per_file_logs(files, order, is_note, is_task, is_all)),
    decreases order.len(),
{
    if order.len() > 0 {
        let p = order.last();
        lemma_per_file_unique(files, order.drop_last(), is_note, is_task, is_all);
        lemma_merged_unique(
            per_file_logs(files, order.drop_last(), is_note, is_task, is_all),
            p.0,
            parse_lines(lines_of(files[p.1].contents@), is_note, is_task, is_all).messages,
            is_all,
        );
    }
}

/// The logs of a command with one file per date: the files' date stamps
/// resolved first (the first file that has none is an error), then the
/// files read newest date first, each file's entries added to the log of
/// its date.
pub fn collect_per_file(
    files: &Vec<SourceFile>,
    command: &CommandConfig,
    is_note: bool,
    is_task: bool,
    is_all: bool,
) -> (r: Result<Vec<DataLog>, QwaError>)
    ensures
        match r {
            Ok(logs) => (forall|i: int| 0 <= i < files@.len() ==> resolved_stamp(#[trigger] files@[i], command@) is Some)
                && log_views(logs@) == per_file_logs(files@, sorted_stamps(files@, command@), is_note, is_task, is_all),
            Err(_) => exists|i: int| 0 <= i < files@.len() && resolved_stamp(#[trigger] files@[i], command@) is None,
        },
{
    let ghost fv = files@;
    let mut stamped: Vec<(Vec<char>, usize)> = Vec::new();
    let mut i: usize = 0;
    assert(fv.take(0) =~= Seq::<SourceFile>::empty());
    while i < files.len()
        invariant
            i <= files.len(),
            fv == files@,
            forall|j: int| 0 <= j < i ==> resolved_stamp(#[trigger] fv[j], command@) is Some,
            stamped@.map_values(|p: (Vec<char>, usize)| (p.0@, p.1 as int)) == sorted_stamps(fv.take(i as int), command@),
        decreases files.len() - i,
    {
        let stamp = match resolve_date_stamp(files[i].path.as_str(), command, &files[i].dates) {
            Ok(s) => chars_of(s.as_str()),
            Err(e) => {
                assert(resolved_stamp(fv[i as int], command@) is None);
                return Err(e);
            },
        };
        let ghost sv = stamped@.map_values(|p: (Vec<char>, usize)| (p.0@, p.1 as int));
        let mut p: usize = 0;
        assert(sv.skip(0) =~= sv);
        while p < stamped.len() && !chars_lex_lt(&stamped[p].0, &stamp)
            invariant
                p <= stamped@.len(),
                sv == stamped@.map_values(|q: (Vec<char>, usize)| (q.0@, q.1 as int)),
                pair_insert_pos(sv, stamp@) == p + pair_insert_pos(sv.skip(p as int), stamp@),
            decreases stamped@.len() - p,
        {
            proof {
                let u = sv.skip(p as int);
                assert(u[0] == sv[p as int]);
                assert(u.drop_first() =~= sv.skip(p + 1));
            }
            p = p + 1;
        }
        proof {
            let u = sv.skip(p as int);
            if p < stamped.len() {
                assert(u[0] == sv[p as int]);
            }
            assert(fv.take(i + 1).drop_last() =~= fv.take(i as int));
            assert(fv.take(i + 1).last() == fv[i as int]);
            assert(resolved_stamp(fv[i as int], command@) == Some(stamp@));
        }
        stamped.insert(p, (stamp, i));
        proof {
            assert(stamped@.map_values(|q: (Vec<char>, usize)| (q.0@, q.1 as int)) =~= sv.insert(p as int, (stamp@, i as int)));
        }
        i = i + 1;
    }
    assert(fv.take(files.len() as int) =~= fv);
    let ghost order = sorted_stamps(fv, command@);
    proof {
        lemma_sorted_stamps_len(fv, command@);
    }
    let mut entries: Vec<DataLog> = Vec::new();
    let mut k: usize = 0;
    assert(order.take(0) =~= Seq::<(Seq<char>, int)>::empty());
    assert(log_views(entries@) =~= Seq::<LogView>::empty());
    while k < stamped.len()
        invariant
            k <= stamped@.len(),
            fv == files@,
            order.len() == files@.len(),
            stamped@.len() == order.len(),
            stamped@.map_values(|p: (Vec<char>, usize)| (p.0@, p.1 as int)) == order,
            forall|x: int| 0 <= x < order.len() ==> 0 <= (#[trigger] order[x]).1 < files@.len(),
            log_views(entries@) == per_file_logs(fv, order.take(k as int), is_note, is_task, is_all),
        decreases stamped@.len() - k,
    {
        assert(order[k as int] == (stamped@[k as int].0@, stamped@[k as int].1 as int));
        let idx = stamped[k].1;
        let f = &files[idx];
        let stamp = string_of(&stamped[k].0);
        let parsed = DataLog::parse(f.contents.as_str(), stamp.as_str(), is_note, is_task, is_all);
        merge_messages(&mut entries, &stamped[k].0, parsed.messages, is_all);
        proof {
            assert(order.take(k + 1).drop_last() =~= order.take(k as int));
            assert(order.take(k + 1).last() == order[k as int]);
        }
        k = k + 1;
    }
    assert(order.take(stamped.len() as int) =~= order);
    Ok(entries)
}

/// The commands to collect from: those named, else the default command.
pub fn command_targets(config: &Config, command_names: &Vec<String>) -> (r: Result<Vec<String>, QwaError>)
    ensures
        command_names@.len() > 0 ==> (r matches Ok(v) && views(v@) == views(command_names@)),
        command_names@.len() == 0 ==> match r {
            Ok(v) => config@.default_command is Some && views(v@) == seq![config@.default_command->0],
            Err(e) => config@.default_command is None && e == QwaError::NoDefaultCommand,
        },
{
    if command_names.len() > 0 {
        return Ok(crate::config::copy_strings(command_names));
    }
    match &config.default_command {
        Some(d) => {
            let mut v: Vec<String> = Vec::new();
            v.push(d.clone());
            assert(views(v@) =~= seq![d@]);
            Ok(v)
        },
        None => Err(QwaError::NoDefaultCommand),
    }
}

/// The files of a command, read as its collection plan asks.
pub enum CommandFiles {
    /// The contents of each file with dated headings, in order.
    Header(Vec<String>),
    /// The command's one file.
    Single(SourceFile),
    /// The command's files, one date each.
    PerFile(Vec<SourceFile>),
}

/// Files with dated headings read one after the other into the logs.
pub open spec fn header_files(
    logs: Seq<LogView>,
    contents: Seq<Seq<char>>,
    insert: Option<Seq<char>>,
    is_note: bool,
    is_task: bool,
    is_all: bool,
) -> Seq<LogView>
    decreases contents.len(),
{
    if contents.len() == 0 {
        logs
    } else {
        header_lines(
            header_start(header_files(logs, contents.drop_last(), insert, is_note, is_task, is_all), None),
            lines_of(contents.last()),
            insert,
            is_note,
            is_task,
            is_all,
        ).logs
    }
}

/// Reading files with dated headings keeps one log per date.
pub proof fn lemma_header_files_unique(
    logs: Seq<LogView>,
    contents: Seq<Seq<char>>,
    insert: Option<Seq<char>>,
    is_note: bool,
    is_task: bool,
    is_all: bool,
)
    requires
        unique_stamps(logs),
    ensures
        unique_stamps(header_files(logs, contents, insert, is_note, is_task, is_all)),
    decreases contents.len(),
{
    if contents.len() > 0 {
        lemma_header_files_unique(logs, contents.drop_last(), insert, is_note, is_task, is_all);
        lemma_header_lines_unique(
            header_start(header_files(logs, contents.drop_last(), insert, is_note, is_task, is_all), None),
            lines_of(contents.last()),
            insert,
            is_note,
            is_task,
            is_all,
        );
    }
}

impl DataLog {
    /// The logs of one command, from its files as read: files with dated
    /// headings each add their entries under their headings' dates; the one
    /// file of a command adds its entries under its date stamp; files with
    /// one date each are taken as `collect_per_file` states.
    pub fn collect_from_command(
        files: &CommandFiles,
        command: &CommandConfig,
        is_note: bool,
        is_task: bool,
        is_all: bool,
    ) -> (r: Result<Vec<DataLog>, QwaError>)
        ensures
            match files {
                CommandFiles::Header(cs) => r matches Ok(logs) && log_views(logs@) == header_files(
                    Seq::empty(),
                    views(cs@),
                    command@.insert,
                    is_note,
                    is_task,
                    is_all,
                ),
                CommandFiles::Single(file) => match r {
                    Ok(logs) => resolved_stamp(*file, command@) is Some && log_views(logs@) == merged(
                        Seq::empty(),
                        resolved_stamp(*file, command@)->0,
                        parse_lines(lines_of(file.contents@), is_note, is_task, is_all).messages,
                        is_all,
                    ),
                    Err(_) => resolved_stamp(*file, command@) is None,
                },
                CommandFiles::PerFile(fs) => match r {
                    Ok(logs) => (forall|i: int| 0 <= i < fs@.len() ==> resolved_stamp(#[trigger] fs@[i], command@) is Some)
                        && log_views(logs@) == per_file_logs(fs@, sorted_stamps(fs@, command@), is_note, is_task, is_all),
                    Err(_) => exists|i: int| 0 <= i < fs@.len() && resolved_stamp(#[trigger] fs@[i], command@) is None,
                },
            },
            r matches Ok(logs) ==> unique_stamps(log_views(logs@)),
    {
        match files {
            CommandFiles::Header(cs) => {
                let mut entries: Vec<DataLog> = Vec::new();
                let ghost cv = views(cs@);
                let insert: Option<&str> = match &command.insert {
                    Some(p) => Some(p.as_str()),
                    None => None,
                };
                assert(crate::datalog::opt_str(insert) == command@.insert);
                let mut i: usize = 0;
                assert(cv.take(0) =~= Seq::<Seq<char>>::empty());
                assert(log_views(entries@) =~= Seq::<LogView>::empty());
                while i < cs.len()
                    invariant
                        i <= cs.len(),
                        cv == views(cs@),
                        crate::datalog::opt_str(insert) == command@.insert,
                        log_views(entries@) == header_files(
                            Seq::empty(),
                            cv.take(i as int),
                            command@.insert,
                            is_note,
                            is_task,
                            is_all,
                        ),
                    decreases cs.len() - i,
                {
                    DataLog::parse_header_contents(&mut entries, cs[i].as_str(), None, insert, is_note, is_task, is_all);
                    proof {
                        assert(cv.take(i + 1).drop_last() =~= cv.take(i as int));
                        assert(cv.take(i + 1).last() == cs@[i as int]@);
                        assert(crate::datalog::opt_str(None::<&str>) == None::<Seq<char>>);
                    }
                    i = i + 1;
                }
                assert(cv.take(cs.len() as int) =~= cv);
                proof {
                    lemma_header_files_unique(Seq::empty(), cv, command@.insert, is_note, is_task, is_all);
                }
                Ok(entries)
            },
            CommandFiles::Single(file) => {
                let r = collect_single_file(file, command, is_note, is_task, is_all);
                proof {
                    if r is Ok {
                        lemma_merged_unique(
                            Seq::empty(),
                            resolved_stamp(*file, command@)->0,
                            parse_lines(lines_of(file.contents@), is_note, is_task, is_all).messages,
                            is_all,
                        );
                    }
                }
                r
            },
            CommandFiles::PerFile(fs) => {
                let r = collect_per_file(fs, command, is_note, is_task, is_all);
                proof {
                    lemma_per_file_unique(fs@, sorted_stamps(fs@, command@), is_note, is_task, is_all);
                }
                r
            },
        }
    }
}

} // verus!
