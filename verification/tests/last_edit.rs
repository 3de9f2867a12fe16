use qwato::add::append_message_at;
use qwato::clock::Moment;
use qwato::config::{CommandConfig, Config};
use qwato::error::QwaError;
use qwato::last_edit::{edit_last_message_at, find_last_inserted_index};

fn at(secs: i64) -> Moment {
    Moment { timestamp: secs, nanos: 0, offset: 0 }
}

fn command(insert: Option<&str>, end_line: bool) -> CommandConfig {
    CommandConfig {
        base_directory: None,
        auto_create: true,
        date_format: None,
        template: None,
        directory: None,
        file: None,
        insert: insert.map(|s| s.to_string()),
        tags: None,
        not_format: false,
        end_line,
    }
}

fn config() -> Config {
    Config {
        no_global: false,
        base_directory: None,
        default_command: None,
        auto_command: false,
        date_format: None,
        list: None,
        time_format: None,
        created: None,
        modified: None,
        command: vec![
            ("single_add".to_string(), command(None, false)),
            ("add_some_insert".to_string(), command(Some("## Add"), true)),
        ],
    }
}

fn add(lines: Vec<String>, name: &str, message: &str, secs: i64) -> Vec<String> {
    append_message_at(&config(), name, lines, message, None, &vec![], false, &at(secs)).unwrap()
}

#[test]
fn test_last_edit_default() {
    let lines = add(vec![], "single_add", "first memo", 36000);
    let lines = add(lines, "single_add", "second memo", 36060);

    let content = lines.join("\n");
    assert!(content.contains("second memo"));
    assert!(content.contains("first memo"));

    let edited = edit_last_message_at(&config(), "single_add", "notes/single_add.md", lines, "aaa", None, &vec![], &at(36120));
    assert!(edited.is_ok(), "Failed last-edit: {:?}", edited);

    let content_after = edited.unwrap().join("\n");
    assert!(content_after.contains("aaa"));
    assert!(!content_after.contains("second memo"));
    assert!(content_after.contains("first memo"));

    let lines: Vec<&str> = content_after.lines().collect();
    let edited_line = lines.iter().find(|l| l.contains("aaa")).unwrap();
    assert!(edited_line.starts_with("- "));
    assert_eq!(edited_line.split_whitespace().last(), Some("aaa"));
    // the clock of the edited memo is kept
    assert_eq!(*edited_line, "- 10:01:00 aaa");
}

#[test]
fn test_last_edit_with_insert() {
    let start = vec!["# Journal".to_string(), "## Add".to_string()];
    let lines = add(start, "add_some_insert", "section memo 1", 36000);
    let lines = add(lines, "add_some_insert", "section memo 2", 36060);

    let edited = edit_last_message_at(&config(), "add_some_insert", "notes/add_some_insert.md", lines, "section memo updated", None, &vec![], &at(36120));
    assert!(edited.is_ok());

    let content = edited.unwrap().join("\n");
    assert!(content.contains("section memo updated"));
    assert!(!content.contains("section memo 2"));
    assert!(content.contains("section memo 1"));
}

#[test]
fn last_edit_of_an_empty_file_is_refused() {
    let r = edit_last_message_at(&config(), "single_add", "notes/single_add.md", vec![], "x", None, &vec![], &at(0));
    assert_eq!(r, Err(QwaError::EmptyFile("notes/single_add.md".to_string())));
    assert_eq!(r.unwrap_err().message(), "File is empty: notes/single_add.md");
}

#[test]
fn last_edit_with_nothing_to_edit_is_refused() {
    let lines = vec!["# Title".to_string(), "".to_string()];
    assert_eq!(find_last_inserted_index(&lines, None, false), Err(QwaError::NoEntryToEdit));
}

#[test]
fn last_edit_falls_back_to_the_last_text_line() {
    let lines = vec!["# Title".to_string(), "some text".to_string(), "".to_string()];
    assert_eq!(find_last_inserted_index(&lines, None, true), Ok(1));
}

#[test]
fn last_edit_keeps_checkbox_and_clock() {
    let lines = vec!["- [x] 09:00:00 old".to_string()];
    let edited = edit_last_message_at(&config(), "single_add", "notes/single_add.md", lines, "new", None, &vec![], &at(0)).unwrap();
    assert_eq!(edited, vec!["- [x] 09:00:00 new"]);
}
