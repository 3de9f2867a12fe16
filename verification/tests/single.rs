use qwato::add::append_message_at;
use qwato::clock::Moment;
use qwato::config::{CommandConfig, Config};

/// 12:34:56 on 1970-01-01, UTC.
fn noon() -> Moment {
    Moment { timestamp: 45296, nanos: 0, offset: 0 }
}

fn command(not_format: bool) -> CommandConfig {
    CommandConfig {
        base_directory: None,
        auto_create: true,
        date_format: None,
        template: None,
        directory: None,
        file: None,
        insert: None,
        tags: None,
        not_format,
        end_line: false,
    }
}

fn config() -> Config {
    Config {
        no_global: false,
        base_directory: None,
        default_command: None,
        auto_command: false,
        date_format: None,
        list: None,
        time_format: None,
        created: None,
        modified: None,
        command: vec![
            ("single_add".to_string(), command(false)),
            ("single_add_not_format".to_string(), command(true)),
            ("single_checkbox".to_string(), command(false)),
            ("single_checkbox_not_format".to_string(), command(true)),
        ],
    }
}

fn add(name: &str, message: &str, checkbox: bool) -> String {
    append_message_at(&config(), name, vec![], message, None, &vec![], checkbox, &noon())
        .unwrap()
        .join("\n")
}

#[test]
fn single_add() {
    let expected = add("single_add", "This is a test message", false);
    let now_time = "12:34:56";
    let actual = format!("- {now_time} This is a test message");
    assert_eq!(actual, expected);
}

#[test]
fn single_add_not_format() {
    let expected = add("single_add_not_format", "This is a test message", false);
    let actual = "- This is a test message";
    assert_eq!(actual, expected);
}

#[test]
fn single_checkbox() {
    let expected = add("single_checkbox", "This is a test message", true);
    let now_time = "12:34:56";
    let actual = format!("- [ ] {now_time} This is a test message");
    assert_eq!(actual, expected);
}

#[test]
fn single_checkbox_not_format() {
    let expected = add("single_checkbox_not_format", "This is a test message", true);
    let actual = "- [ ] This is a test message";
    assert_eq!(actual, expected);
}
