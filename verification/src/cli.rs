//! What the command line decides: which command and message the arguments
//! name, the date options, the list limit, which mode runs, and the lines of
//! the command list.
use vstd::prelude::*;
use crate::clock::{chrono_parse_error, date_chars, date_text, dash_pattern, named_date, slash_pattern, Date};
use crate::config::{command_map, find_command, CommandConfig, CommandView, Config};
use crate::error::QwaError;
use crate::text::{chars_of, join_with, push_char, string_of, views};

verus! {

// ---------------------------------------------------------------------------
// Command and message
// ---------------------------------------------------------------------------

/// The arguments from `from` on, joined by single spaces.
pub fn join_from(argument: &Vec<String>, from: usize) -> (r: String)
    requires
        from <= argument@.len(),
    ensures
        r@ == join_with(views(argument@).skip(from as int), seq![' ']),
{
    let ghost rest = views(argument@).skip(from as int);
    let mut r = String::new();
    let mut i: usize = from;
    assert(rest.take(0) =~= Seq::<Seq<char>>::empty());
    while i < argument.len()
        invariant
            from <= i <= argument.len(),
            rest == views(argument@).skip(from as int),
            r@ == join_with(rest.take(i - from), seq![' ']),
        decreases argument.len() - i,
    {
        let ghost prev = r@;
        if i > from {
            push_char(&mut r, ' ');
        }
        r.append(argument[i].as_str());
        proof {
            let t = rest.take(i - from + 1);
            assert(t.drop_last() =~= rest.take(i - from));
            assert(t.last() == argument@[i as int]@);
            if i == from {
                assert(prev =~= Seq::<char>::empty());
                assert(r@ =~= t[0]);
            } else {
                assert(r@ =~= prev + seq![' '] + t.last());
            }
        }
        i = i + 1;
    }
    assert(rest.take(argument.len() - from) =~= rest);
    r
}

/// The command and the message that the free arguments name.  With no
/// argument there is no message.  With one argument, or when the
/// configuration sets `auto_command`, the command is the default one, which
/// must be configured, and every argument belongs to the message, joined by
/// spaces.  Otherwise the first argument names the command and the rest,
/// joined by spaces, is the message.
pub fn check_argument_count(config: &Config, argument: &Vec<String>) -> (r: Result<(String, String), QwaError>)
    ensures
        argument@.len() == 0 ==> r == Err::<(String, String), QwaError>(QwaError::NoMessage),
        argument@.len() > 0 && (config.auto_command || argument@.len() == 1) ==> match r {
            Ok((c, m)) => config@.default_command == Some(c@) && m@ == join_with(views(argument@), seq![' ']),
            Err(e) => config@.default_command is None && e == QwaError::NoDefaultCommand,
        },
        argument@.len() > 1 && !config.auto_command ==> match r {
            Ok((c, m)) => c@ == argument@[0]@ && m@ == join_with(views(argument@).skip(1), seq![' ']),
            Err(_) => false,
        },
{
    if argument.len() == 0 {
        Err(QwaError::NoMessage)
    } else if config.auto_command || argument.len() == 1 {
        match &config.default_command {
            Some(c) => {
                let m = join_from(argument, 0);
                assert(views(argument@).skip(0) =~= views(argument@));
                Ok((c.clone(), m))
            },
            None => Err(QwaError::NoDefaultCommand),
        }
    } else {
        Ok((argument[0].clone(), join_from(argument, 1)))
    }
}

// ---------------------------------------------------------------------------
// Dates on the command line
// ---------------------------------------------------------------------------

/// A date option: `YYYY-MM-DD`, else `YYYY/MM/DD`, as chrono reads them.
pub open spec fn spec_option_date(s: Seq<char>) -> Option<Date> {
    match named_date(s, dash_pattern()) {
        Some(d) => Some(d),
        None => named_date(s, slash_pattern()),
    }
}

/// Reads a `--from` / `--to` date: `InvalidDate` when neither form reads,
/// with the text and chrono's reason for refusing it as `YYYY/MM/DD`.
pub fn parse_date(s: &str) -> (r: Result<Date, QwaError>)
    ensures
        match r {
            Ok(d) => spec_option_date(s@) == Some(d),
            Err(e) => spec_option_date(s@) is None && (e matches QwaError::InvalidDate(t, why) && t@ == s@
                && why@ == chrono_parse_error(s@, slash_pattern())),
        },
{
    let dash = string_of(&vec!['%', 'Y', '-', '%', 'm', '-', '%', 'd']);
    match crate::clock::parse_date_text(s, dash.as_str()) {
        Ok(d) => Ok(d),
        Err(_) => {
            let slash = string_of(&vec!['%', 'Y', '/', '%', 'm', '/', '%', 'd']);
            match crate::clock::parse_date_text(s, slash.as_str()) {
                Ok(d) => Ok(d),
                Err(why) => Err(QwaError::InvalidDate(s.to_owned(), why)),
            }
        },
    }
}

/// The date stamp of a date, `YYYY-MM-DD`, as journal logs are dated.
pub fn date_stamp(d: Date) -> (r: String)
    ensures
        r@ == date_text(d),
{
    string_of(&date_chars(d))
}

// ---------------------------------------------------------------------------
// Limit and mode
// ---------------------------------------------------------------------------

/// The list limit: the one given on the command line, else the configured
/// one, else 10.
pub fn resolve_limit(limit: Option<usize>, config: &Config) -> (r: usize)
    ensures
        r == match limit {
            Some(l) => l,
            None => match config.list {
                Some(l) => l.limit,
                None => 10,
            },
        },
{
    match limit {
        Some(l) => l,
        None => match config.list {
            Some(l) => l.limit,
            None => 10,
        },
    }
}

/// What a run does.
#[derive(Clone, Copy, Debug, PartialEq, Eq, Structural)]
pub enum Mode {
    /// Print the loaded configuration.
    ShowConfig,
    /// Print the command list, or the named commands in detail.
    CommandList,
    /// List today's entries.
    Summary,
    /// List entries.
    List,
    /// Replace the last inserted entry.
    LastEdit,
    /// Append an entry (a checkbox with `--checkbox`).
    Add,
}

/// The options that choose the mode.
#[derive(Clone, Copy, Debug, PartialEq, Eq, Structural)]
pub struct ModeFlags {
    pub show_config: bool,
    pub command: bool,
    pub summary: bool,
    pub list: bool,
    pub all: bool,
    pub note: bool,
    pub task: bool,
    pub has_from: bool,
    pub has_to: bool,
    pub last_edit: bool,
}

/// The mode, the first that applies in this order: showing the
/// configuration, the command list, the summary, a listing (`--list`,
/// `--all`, `--note`, `--task` or a date bound), the last edit; adding
/// otherwise.
pub open spec fn spec_mode(f: ModeFlags) -> Mode {
    if f.show_config {
        Mode::ShowConfig
    } else if f.command {
        Mode::CommandList
    } else if f.summary {
        Mode::Summary
    } else if f.list || f.all || f.note || f.task || f.has_from || f.has_to {
        Mode::List
    } else if f.last_edit {
        Mode::LastEdit
    } else {
        Mode::Add
    }
}

/// Chooses the mode of a run.
pub fn select_mode(f: ModeFlags) -> (r: Mode)
    ensures
        r == spec_mode(f),
{
    if f.show_config {
        Mode::ShowConfig
    } else if f.command {
        Mode::CommandList
    } else if f.summary {
        Mode::Summary
    } else if f.list || f.all || f.note || f.task || f.has_from || f.has_to {
        Mode::List
    } else if f.last_edit {
        Mode::LastEdit
    } else {
        Mode::Add
    }
}

// ---------------------------------------------------------------------------
// The command list
// ---------------------------------------------------------------------------

/// A printed line of the command list; `bold` marks a command's name in
/// the detailed form.
#[derive(Debug, Clone, PartialEq, Eq)]
pub struct CommandListLine {
    pub text: String,
    pub bold: bool,
}

impl View for CommandListLine {
    type V = (Seq<char>, bool);

    open spec fn view(&self) -> (Seq<char>, bool) {
        (self.text@, self.bold)
    }
}

pub open spec fn command_line_views(v: Seq<CommandListLine>) -> Seq<(Seq<char>, bool)> {
    v.map_values(|l: CommandListLine| l@)
}

/// A labelled detail line, when the value is set.
pub open spec fn detail_line(label: Seq<char>, value: Option<Seq<char>>) -> Seq<(Seq<char>, bool)> {
    match value {
        Some(v) => seq![(seq![' ', ' '] + label + seq![':', ' '] + v, false)],
        None => Seq::empty(),
    }
}

/// The detailed form of one command: its name in bold, then its directory,
/// file, template and tags (joined by `", "`), each where it is set.
pub open spec fn command_details(name: Seq<char>, c: CommandView) -> Seq<(Seq<char>, bool)> {
    seq![(name, true)] + detail_line(seq!['D', 'i', 'r', 'e', 'c', 't', 'o', 'r', 'y'], c.directory)
        + detail_line(seq!['F', 'i', 'l', 'e'], c.file) + detail_line(
        seq!['T', 'e', 'm', 'p', 'l', 'a', 't', 'e'],
        c.template,
    ) + detail_line(
        seq!['T', 'a', 'g', 's'],
        match c.tags {
            Some(t) => Some(join_with(t, seq![',', ' '])),
            None => None,
        },
    )
}

/// The names of the configured commands, in order.
pub open spec fn command_names(t: Seq<(String, CommandConfig)>) -> Seq<(Seq<char>, bool)> {
    t.map_values(|e: (String, CommandConfig)| (e.0@, false))
}

/// The details of each named command that is configured, in the order
/// named; unknown names are passed over.
pub open spec fn named_details(m: Map<Seq<char>, CommandView>, args: Seq<Seq<char>>) -> Seq<(Seq<char>, bool)>
    decreases args.len(),
{
    if args.len() == 0 {
        Seq::empty()
    } else {
        let rest = named_details(m, args.drop_last());
        if m.contains_key(args.last()) {
            rest + command_details(args.last(), m[args.last()])
        } else {
            rest
        }
    }
}

/// The command list: with no argument every command's name, else the
/// details of the named commands.
pub open spec fn spec_command_list(t: Seq<(String, CommandConfig)>, args: Seq<Seq<char>>) -> Seq<(Seq<char>, bool)> {
    if args.len() == 0 {
        command_names(t)
    } else {
        named_details(command_map(t), args)
    }
}

fn push_detail(out: &mut Vec<CommandListLine>, label: &[char], value: &Option<String>)
    ensures
        command_line_views(final(out)@) == command_line_views(old(out)@) + detail_line(
            label@,
            match value {
                Some(v) => Some(v@),
                None => None,
            },
        ),
{
    match value {
        Some(v) => {
            let mut text: Vec<char> = vec![' ', ' '];
            crate::text::extend_chars(&mut text, label);
            text.push(':');
            text.push(' ');
            let vc = chars_of(v.as_str());
            crate::text::extend_chars(&mut text, &vc);
            let ghost prev = command_line_views(out@);
            let line = CommandListLine { text: string_of(&text), bold: false };
            out.push(line);
            proof {
                assert(text@ =~= seq![' ', ' '] + label@ + seq![':', ' '] + v@);
                assert(command_line_views(out@) =~= prev + seq![(text@, false)]);
            }
        },
        None => {
            assert(command_line_views(out@) =~= command_line_views(out@) + Seq::<(Seq<char>, bool)>::empty());
        },
    }
}

/// The tags joined by `", "`.
fn join_tags(tags: &Vec<String>) -> (r: String)
    ensures
        r@ == join_with(views(tags@), seq![',', ' ']),
{
    let mut r = String::new();
    let mut i: usize = 0;
    assert(views(tags@).take(0) =~= Seq::<Seq<char>>::empty());
    while i < tags.len()
        invariant
            i <= tags.len(),
            r@ == join_with(views(tags@).take(i as int), seq![',', ' ']),
        decreases tags.len() - i,
    {
        let ghost prev = r@;
        if i > 0 {
            push_char(&mut r, ',');
            push_char(&mut r, ' ');
        }
        r.append(tags[i].as_str());
        proof {
            let t = views(tags@).take(i + 1);
            assert(t.drop_last() =~= views(tags@).take(i as int));
            assert(t.last() == tags@[i as int]@);
            if i == 0 {
                assert(prev =~= Seq::<char>::empty());
                assert(r@ =~= t[0]);
            } else {
                assert(r@ =~= prev + seq![',', ' '] + t.last());
            }
        }
        i = i + 1;
    }
    assert(views(tags@).take(tags.len() as int) =~= views(tags@));
    r
}

fn push_details(out: &mut Vec<CommandListLine>, name: &String, c: &CommandConfig)
    ensures
        command_line_views(final(out)@) == command_line_views(old(out)@) + command_details(name@, c@),
{
    let ghost start = command_line_views(out@);
    out.push(CommandListLine { text: name.clone(), bold: true });
    assert(command_line_views(out@) =~= start + seq![(name@, true)]);
    push_detail(out, &['D', 'i', 'r', 'e', 'c', 't', 'o', 'r', 'y'], &c.directory);
    push_detail(out, &['F', 'i', 'l', 'e'], &c.file);
    push_detail(out, &['T', 'e', 'm', 'p', 'l', 'a', 't', 'e'], &c.template);
    let joined = match &c.tags {
        Some(t) => Some(join_tags(t)),
        None => None,
    };
    push_detail(out, &['T', 'a', 'g', 's'], &joined);
    proof {
        let tj: Option<Seq<char>> = match c@.tags {
            Some(t) => Some(join_with(t, seq![',', ' '])),
            None => None,
        };
        assert(match joined {
            Some(v) => Some(v@),
            None => None::<Seq<char>>,
        } == tj);
        assert(command_line_views(out@) =~= start + command_details(name@, c@));
    }
}

/// Format: the lines of the command list, as `spec_command_list` states.
pub fn format_command_list(config: &Config, args: &Vec<String>) -> (r: Vec<CommandListLine>)
    requires
        config.wf(),
    ensures
        command_line_views(r@) == spec_command_list(config.command@, views(args@)),
{
    let mut out: Vec<CommandListLine> = Vec::new();
    if args.len() == 0 {
        let mut i: usize = 0;
        while i < config.command.len()
            invariant
                i <= config.command.len(),
                command_line_views(out@) == command_names(config.command@.take(i as int)),
            decreases config.command.len() - i,
        {
            let ghost prev = command_line_views(out@);
            out.push(CommandListLine { text: config.command[i].0.clone(), bold: false });
            proof {
                assert(command_names(config.command@.take(i + 1)) =~= command_names(
                    config.command@.take(i as int),
                ).push((config.command@[i as int].0@, false)));
                assert(command_line_views(out@) =~= prev.push((config.command@[i as int].0@, false)));
            }
            i = i + 1;
        }
        assert(config.command@.take(config.command.len() as int) =~= config.command@);
        return out;
    }
    let ghost m = command_map(config.command@);
    let ghost av = views(args@);
    let mut i: usize = 0;
    assert(av.take(0) =~= Seq::<Seq<char>>::empty());
    while i < args.len()
        invariant
            i <= args.len(),
            config.wf(),
            m == command_map(config.command@),
            av == views(args@),
            command_line_views(out@) == named_details(m, av.take(i as int)),
        decreases args.len() - i,
    {
        let key = chars_of(args[i].as_str());
        proof {
            assert(av.take(i + 1).drop_last() =~= av.take(i as int));
            assert(av.take(i + 1).last() == args@[i as int]@);
        }
        match find_command(&config.command, &key) {
            Some(k) => {
                push_details(&mut out, &args[i], &config.command[k].1);
            },
            None => {},
        }
        i = i + 1;
    }
    assert(av.take(args.len() as int) =~= av);
    out
}

} // verus!
