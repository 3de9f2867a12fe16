use qwato::add::append_message_at;
use qwato::clock::Moment;
use qwato::collect::{collect_per_file, SourceFile};
use qwato::config::{CommandConfig, Config};
use qwato::datalog::DataLog;
use qwato::list::{list_entries, ListLine};
use qwato::paths::{render_at, FileDates};

/// 12:34:56 on 1970-01-01, UTC.
fn now() -> Moment {
    Moment { timestamp: 45296, nanos: 0, offset: 0 }
}

fn command(not_format: bool) -> CommandConfig {
    CommandConfig {
        base_directory: None,
        auto_create: true,
        date_format: None,
        template: None,
        directory: None,
        file: Some("%Y-%m-%d.md".to_string()),
        insert: None,
        tags: None,
        not_format,
        end_line: false,
    }
}

fn config() -> Config {
    Config {
        no_global: false,
        base_directory: None,
        default_command: Some("single_add".to_string()),
        auto_command: false,
        date_format: None,
        list: None,
        time_format: None,
        created: None,
        modified: None,
        command: vec![
            ("single_add".to_string(), command(false)),
            ("add_format_tag".to_string(), command(false)),
        ],
    }
}

/// Adds a memo to a fresh file, then lists today's entries of that file.
fn add_then_summary(name: &str, message: &str) -> Vec<String> {
    let config = config();
    let lines = append_message_at(&config, name, vec![], message, None, &vec![], false, &now()).unwrap();
    let today: String = render_at(&now(), &"%Y-%m-%d".to_string()).unwrap().into_iter().collect();
    let file = SourceFile {
        path: format!("{today}.md"),
        contents: lines.join("\n"),
        dates: FileDates::Unreadable,
    };
    let command = config.command.iter().find(|(n, _)| n == name).unwrap().1.copy();
    let logs = collect_per_file(&vec![file], &command, false, false, false).unwrap();
    let logs = DataLog::collect_from_commands(vec![logs], false);
    list_entries(&logs, &vec![], 10, Some(&today), Some(&today))
        .into_iter()
        .map(|l| match l {
            ListLine::Date(s) => s,
            ListLine::Text(s) => s,
        })
        .collect()
}

#[test]
fn test_summary_command() {
    let lines = add_then_summary("single_add", "summary test memo");
    assert!(
        lines.iter().any(|line| line.contains("summary test memo")),
        "Expected 'summary test memo' in summary output, got: {:?}",
        lines
    );
}

#[test]
fn test_summary_with_specific_command() {
    let lines = add_then_summary("add_format_tag", "test memo");
    assert!(
        lines.iter().any(|line| line.contains("test memo")),
        "Expected 'test memo' in summary output, got: {:?}",
        lines
    );
}

#[test]
fn summary_lists_the_added_memo_under_today() {
    let lines = add_then_summary("single_add", "summary test memo");
    assert_eq!(lines, vec!["1970-01-01", "\t12:34:56\tsummary test memo"]);
}
