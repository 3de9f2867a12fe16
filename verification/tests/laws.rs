use qwato::add::append_message_at;
use qwato::cli::date_stamp;
use qwato::clock::{Date, Moment, Time};
use qwato::config::{merge_config, CommandConfig, Config};
use qwato::datalog::{DataLog, EntryKind, MessageLog};
use qwato::list::{list_entries, ListLine};
use qwato::tags::message_matches_tags;
use qwato::text::{join_lines, split_lines};

fn command(tags: Option<Vec<&str>>) -> CommandConfig {
    CommandConfig {
        base_directory: None,
        auto_create: true,
        date_format: None,
        template: None,
        directory: None,
        file: None,
        insert: None,
        tags: tags.map(|t| t.into_iter().map(String::from).collect()),
        not_format: false,
        end_line: true,
    }
}

fn config(default_command: Option<&str>, time_format: Option<&str>, commands: Vec<(&str, CommandConfig)>) -> Config {
    Config {
        no_global: false,
        base_directory: None,
        default_command: default_command.map(String::from),
        auto_command: false,
        date_format: None,
        list: None,
        time_format: time_format.map(String::from),
        created: None,
        modified: None,
        command: commands.into_iter().map(|(n, c)| (n.to_string(), c)).collect(),
    }
}

#[test]
fn a_written_memo_reads_back() {
    let c = config(None, None, vec![("daily", command(Some(vec!["work"])))]);
    let now = Moment { timestamp: 45296, nanos: 0, offset: 0 };
    for checkbox in [false, true] {
        let lines = append_message_at(&c, "daily", vec![], "ship it", None, &vec!["x".to_string()], checkbox, &now).unwrap();
        let log = DataLog::parse(&lines.join("\n"), "1970-01-01", false, false, false);
        assert_eq!(log.messages.len(), 1);
        assert_eq!(log.messages[0].message, "#work #x ship it");
        assert_eq!(log.messages[0].timestamp, Some(Time { secs: 45296, frac: 0 }));
        let kind = if checkbox { EntryKind::Task { checked: false } } else { EntryKind::Memo };
        assert_eq!(log.messages[0].kind, kind);
    }
}

#[test]
fn layering_is_associative() {
    let a = || config(Some("a"), None, vec![("one", command(None))]);
    let b = || config(None, Some("%H"), vec![("one", command(Some(vec!["b"]))), ("two", command(None))]);
    let c = || config(Some("c"), None, vec![("two", command(Some(vec!["c"])))]);
    let left = merge_config(merge_config(a(), b()), c());
    let right = merge_config(a(), merge_config(b(), c()));
    assert_eq!(left.default_command, right.default_command);
    assert_eq!(left.time_format, right.time_format);
    let tags = |cfg: &Config, n: &str| cfg.command.iter().find(|(k, _)| k == n).unwrap().1.tags.clone();
    assert_eq!(tags(&left, "one"), tags(&right, "one"));
    assert_eq!(tags(&left, "two"), tags(&right, "two"));
    assert_eq!(tags(&left, "two"), Some(vec!["c".to_string()]));
}

#[test]
fn date_stamps_sort_as_dates() {
    let dates = [
        Date { year: 999, month: 12, day: 31 },
        Date { year: 2024, month: 2, day: 29 },
        Date { year: 2024, month: 10, day: 1 },
        Date { year: 2024, month: 10, day: 10 },
        Date { year: 2025, month: 1, day: 1 },
    ];
    for x in &dates {
        for y in &dates {
            let by_date = (x.year, x.month, x.day) < (y.year, y.month, y.day);
            assert_eq!(date_stamp(*x) < date_stamp(*y), by_date);
        }
    }
}

#[test]
fn lines_written_out_read_back() {
    let lines: Vec<String> = vec!["---".into(), "title: x".into(), "".into(), "- 10:00:00 memo".into()];
    let text = join_lines(&lines);
    assert_eq!(text, "---\ntitle: x\n\n- 10:00:00 memo");
    assert_eq!(split_lines(&text), lines);
    // a final empty line does not come back
    let trailing: Vec<String> = vec!["a".into(), "".into()];
    assert_eq!(split_lines(&join_lines(&trailing)), vec!["a".to_string()]);
    // CRLF line ends are read as line ends
    assert_eq!(split_lines("a\r\nb"), vec!["a".to_string(), "b".to_string()]);
}

#[test]
fn entries_sort_newest_first_and_stably() {
    let m = |secs: Option<u32>, text: &str| MessageLog {
        timestamp: secs.map(|s| Time { secs: s, frac: 0 }),
        kind: EntryKind::Memo,
        message: text.to_string(),
    };
    let mut log = DataLog::new("2025-07-29".to_string(), true);
    log.messages = vec![m(Some(10), "a"), m(None, "b"), m(Some(30), "c"), m(Some(10), "d"), m(Some(0), "e")];
    log.sort_messages();
    let order: Vec<&str> = log.messages.iter().map(|x| x.message.as_str()).collect();
    assert_eq!(order, vec!["c", "a", "d", "b", "e"]);
}

#[test]
fn tags_written_with_a_memo_are_found() {
    let c = config(None, None, vec![("daily", command(Some(vec!["Work"])))]);
    let now = Moment { timestamp: 45296, nanos: 0, offset: 0 };
    let lines = append_message_at(&c, "daily", vec![], "plan #later", None, &vec!["x".to_string()], false, &now).unwrap();
    let log = DataLog::parse(&lines.join("\n"), "1970-01-01", false, false, false);
    let message = &log.messages[0].message;
    assert!(message_matches_tags(message, &["work".to_string()]));
    assert!(message_matches_tags(message, &["#X".to_string()]));
    assert!(message_matches_tags(message, &["later".to_string()]));
    assert!(!message_matches_tags(message, &["plan2".to_string()]));
}

fn memo_log(date: &str, texts: &[&str]) -> DataLog {
    let mut log = DataLog::new(date.to_string(), false);
    log.messages = texts
        .iter()
        .map(|t| MessageLog { timestamp: None, kind: EntryKind::Memo, message: t.to_string() })
        .collect();
    log
}

#[test]
fn each_date_has_one_log_after_collecting() {
    let first = vec![memo_log("2025-07-29", &["a"]), memo_log("2025-07-30", &["b"])];
    let second = vec![memo_log("2025-07-30", &["c"]), memo_log("2025-07-29", &["d"])];
    let logs = DataLog::collect_from_commands(vec![first, second], false);
    let dates: Vec<&str> = logs.iter().map(|l| l.date_stamp.as_str()).collect();
    assert_eq!(dates, vec!["2025-07-29", "2025-07-30"]);
    let texts = |i: usize| logs[i].messages.iter().map(|m| m.message.clone()).collect::<Vec<_>>();
    assert_eq!(texts(0), vec!["a".to_string(), "d".to_string()]);
    assert_eq!(texts(1), vec!["b".to_string(), "c".to_string()]);
}

#[test]
fn two_tag_listing_is_the_union_of_one_tag_listings() {
    let logs = vec![
        memo_log("2025-07-29", &["#a one", "#b two", "#c three"]),
        memo_log("2025-07-30", &["#c four", "#A #b five"]),
    ];
    let list = |tags: &[&str]| {
        let filters: Vec<String> = tags.iter().map(|t| t.to_string()).collect();
        list_entries(&logs, &filters, 100, None, None)
    };
    let both = list(&["a", "b"]);
    let only_a = list(&["a"]);
    let only_b = list(&["b"]);
    let texts = |lines: &Vec<ListLine>| {
        lines.iter().filter_map(|l| match l {
            ListLine::Text(t) => Some(t.clone()),
            ListLine::Date(_) => None,
        }).collect::<Vec<String>>()
    };
    let mut union: Vec<String> = texts(&only_a);
    for t in texts(&only_b) {
        if !union.contains(&t) {
            union.push(t);
        }
    }
    let mut got = texts(&both);
    got.sort();
    union.sort();
    assert_eq!(got, union);
    assert_eq!(got.len(), 3);
    assert!(texts(&both).iter().all(|t| !t.contains("#c three") && !t.contains("#c four")));
}
