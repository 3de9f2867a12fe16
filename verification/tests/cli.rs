use chrono::NaiveDate;
use qwato::cli::{
    check_argument_count, date_stamp, format_command_list, parse_date, resolve_limit, select_mode,
    CommandListLine, Mode, ModeFlags,
};
use qwato::clock::Date;
use qwato::config::{CommandConfig, Config, ListConfig};
use qwato::error::QwaError;

fn command(directory: Option<&str>, file: Option<&str>, template: Option<&str>, tags: Option<Vec<&str>>) -> CommandConfig {
    CommandConfig {
        base_directory: None,
        auto_create: false,
        date_format: None,
        template: template.map(String::from),
        directory: directory.map(String::from),
        file: file.map(String::from),
        insert: None,
        tags: tags.map(|t| t.into_iter().map(String::from).collect()),
        not_format: false,
        end_line: false,
    }
}

fn config(default_command: Option<&str>, auto_command: bool) -> Config {
    Config {
        no_global: false,
        base_directory: None,
        default_command: default_command.map(String::from),
        auto_command,
        date_format: None,
        list: None,
        time_format: None,
        created: None,
        modified: None,
        command: vec![
            ("daily".to_string(), command(Some("daily"), Some("%Y-%m-%d.md"), Some("Template/daily.md"), Some(vec!["a", "b"]))),
            ("memo".to_string(), command(None, Some("inbox.md"), None, None)),
        ],
    }
}

fn args(v: &[&str]) -> Vec<String> {
    v.iter().map(|s| s.to_string()).collect()
}

#[test]
fn one_argument_goes_to_the_default_command() {
    let r = check_argument_count(&config(Some("daily"), false), &args(&["hello world"]));
    assert_eq!(r, Ok(("daily".to_string(), "hello world".to_string())));
}

#[test]
fn first_argument_names_the_command_and_the_rest_is_joined() {
    let r = check_argument_count(&config(Some("daily"), false), &args(&["memo", "a", "b", "c"]));
    assert_eq!(r, Ok(("memo".to_string(), "a b c".to_string())));
}

#[test]
fn auto_command_puts_every_argument_in_the_message() {
    let r = check_argument_count(&config(Some("daily"), true), &args(&["memo", "a", "b"]));
    assert_eq!(r, Ok(("daily".to_string(), "memo a b".to_string())));
}

#[test]
fn argument_errors() {
    assert_eq!(check_argument_count(&config(None, false), &args(&[])), Err(QwaError::NoMessage));
    assert_eq!(check_argument_count(&config(None, false), &args(&["x"])), Err(QwaError::NoDefaultCommand));
    assert_eq!(check_argument_count(&config(None, true), &args(&["x", "y"])), Err(QwaError::NoDefaultCommand));
}

#[test]
fn dates_read_in_both_forms() {
    let d = Date { year: 2025, month: 7, day: 27 };
    assert_eq!(parse_date("2025-07-27"), Ok(d));
    assert_eq!(parse_date("2025/07/27"), Ok(d));
    for bad in ["27.07.2025", "2025-02-30"] {
        let why = NaiveDate::parse_from_str(bad, "%Y/%m/%d").unwrap_err().to_string();
        assert_eq!(parse_date(bad), Err(QwaError::InvalidDate(bad.to_string(), why)));
    }
    assert_eq!(date_stamp(d), "2025-07-27");
    assert_eq!(date_stamp(Date { year: 5, month: 1, day: 2 }), "0005-01-02");
}

#[test]
fn invalid_date_message() {
    let e = parse_date("x").unwrap_err();
    let why = NaiveDate::parse_from_str("x", "%Y/%m/%d").unwrap_err();
    assert_eq!(e.message(), format!("Invalid date format '{}' (expected YYYY-MM-DD): {}", "x", why));
}

#[test]
fn limit_comes_from_the_command_line_then_the_configuration() {
    let mut c = config(None, false);
    assert_eq!(resolve_limit(None, &c), 10);
    c.list = Some(ListConfig { limit: 4 });
    assert_eq!(resolve_limit(None, &c), 4);
    assert_eq!(resolve_limit(Some(7), &c), 7);
    c.set_limit(3);
    assert_eq!(c.list, Some(ListConfig { limit: 3 }));
}

fn flags() -> ModeFlags {
    ModeFlags {
        show_config: false,
        command: false,
        summary: false,
        list: false,
        all: false,
        note: false,
        task: false,
        has_from: false,
        has_to: false,
        last_edit: false,
    }
}

#[test]
fn modes_in_order() {
    assert_eq!(select_mode(flags()), Mode::Add);
    assert_eq!(select_mode(ModeFlags { last_edit: true, ..flags() }), Mode::LastEdit);
    assert_eq!(select_mode(ModeFlags { last_edit: true, has_to: true, ..flags() }), Mode::List);
    assert_eq!(select_mode(ModeFlags { note: true, summary: true, ..flags() }), Mode::Summary);
    assert_eq!(select_mode(ModeFlags { summary: true, command: true, ..flags() }), Mode::CommandList);
    assert_eq!(select_mode(ModeFlags { command: true, show_config: true, ..flags() }), Mode::ShowConfig);
}

fn text(lines: Vec<CommandListLine>) -> Vec<(String, bool)> {
    lines.into_iter().map(|l| (l.text, l.bold)).collect()
}

#[test]
fn command_list_names_every_command() {
    let lines = text(format_command_list(&config(None, false), &args(&[])));
    assert_eq!(lines, vec![("daily".to_string(), false), ("memo".to_string(), false)]);
}

#[test]
fn command_list_details_named_commands() {
    let lines = text(format_command_list(&config(None, false), &args(&["daily", "nope", "memo"])));
    assert_eq!(
        lines,
        vec![
            ("daily".to_string(), true),
            ("  Directory: daily".to_string(), false),
            ("  File: %Y-%m-%d.md".to_string(), false),
            ("  Template: Template/daily.md".to_string(), false),
            ("  Tags: a, b".to_string(), false),
            ("memo".to_string(), true),
            ("  File: inbox.md".to_string(), false),
        ]
    );
}

#[test]
fn missing_anchor_message_quotes_as_debug() {
    for anchor in ["## Add", "a\"b", "back\\slash", "tab\there", "bell\u{7}", "été", "a\u{85}b", "e\u{301}"] {
        assert_eq!(
            QwaError::InsertLineNotFound(anchor.to_string()).message(),
            format!("Not Found: Insert line {:?}", anchor)
        );
    }
    assert_eq!(
        QwaError::DateStampUnresolved("x/in\"box.md".to_string()).message(),
        format!("Failed to resolve date stamp: {:?}", "x/in\"box.md")
    );
}
