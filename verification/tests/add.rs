use qwato::add::append_message_at;
use qwato::clock::Moment;
use qwato::config::{CommandConfig, Config, CreatedConfig, ModifiedConfig};
use qwato::error::QwaError;
use qwato::frontmatter::stamp_created_at;

/// 12:34:56 on 1970-01-01, UTC.
fn noon() -> Moment {
    Moment { timestamp: 45296, nanos: 0, offset: 0 }
}

fn command(not_format: bool, end_line: bool, insert: Option<&str>, tags: Option<Vec<&str>>) -> CommandConfig {
    CommandConfig {
        base_directory: None,
        auto_create: true,
        date_format: None,
        template: None,
        directory: None,
        file: None,
        insert: insert.map(|s| s.to_string()),
        tags: tags.map(|t| t.into_iter().map(|s| s.to_string()).collect()),
        not_format,
        end_line,
    }
}

fn config(commands: Vec<(&str, CommandConfig)>) -> Config {
    Config {
        no_global: false,
        base_directory: None,
        default_command: None,
        auto_command: false,
        date_format: None,
        list: None,
        time_format: None,
        created: None,
        modified: None,
        command: commands.into_iter().map(|(n, c)| (n.to_string(), c)).collect(),
    }
}

fn add_config() -> Config {
    config(vec![
        ("add_end_line_true", command(true, true, None, None)),
        ("add_end_line_false", command(true, false, None, None)),
        ("add_tag", command(true, false, None, None)),
        ("add_format_tag", command(false, false, None, None)),
        ("add_config_tag", command(true, false, None, Some(vec!["config", "tag"]))),
        ("add_insert_end_line_true", command(true, true, Some("## Add"), None)),
        ("add_insert_end_line_false", command(true, false, Some("## Add"), None)),
        ("add_some_insert", command(true, true, Some("## Add"), None)),
    ])
}

fn split(contents: &str) -> Vec<String> {
    contents.lines().map(String::from).collect()
}

/// Adds a memo to a file's contents, as the add command does.
fn add(config: &Config, contents: &str, name: &str, message: &str, tags: &[&str], checkbox: bool) -> Result<String, QwaError> {
    let tags: Vec<String> = tags.iter().map(|t| t.to_string()).collect();
    append_message_at(config, name, split(contents), message, None, &tags, checkbox, &noon()).map(|v| v.join("\n"))
}

#[test]
fn add_end_line() {
    let config = add_config();
    let mut file = String::new();
    let mut expected = String::new();
    for count in 0..10 {
        let message = format!("This is a test message {}", count);
        let command = if count % 2 == 0 { "add_end_line_true" } else { "add_end_line_false" };
        file = add(&config, &file, command, &message, &[], false).unwrap();
        if count % 2 == 0 {
            if count != 0 {
                expected.push('\n');
            }
            expected.push_str(&format!("- {message}"));
        } else {
            expected = format!("- {message}\n") + &expected;
        }
        assert_eq!(file, expected);
    }
}

#[test]
fn add_tag() {
    let actual = add(&add_config(), "", "add_tag", "This is a test message", &["tag0", "tag1", "tag2"], false).unwrap();
    assert_eq!(actual, "- #tag0 #tag1 #tag2 This is a test message");
}

#[test]
fn add_format_tag() {
    let actual = add(&add_config(), "", "add_format_tag", "This is a test message", &["tag0", "tag1", "tag2"], false).unwrap();
    let now_time = "12:34:56";
    assert_eq!(format!("- {now_time} #tag0 #tag1 #tag2 This is a test message"), actual);
}

#[test]
fn add_config_tag() {
    let actual = add(&add_config(), "", "add_config_tag", "This is a test message", &[], false).unwrap();
    assert_eq!(actual, "- #config #tag This is a test message");
}

#[test]
fn add_insert_end_line() {
    let config = add_config();
    let insert = "## Add";
    let mut file = "# Journal\n## Add\n".to_string();
    for count in 0..10 {
        let message = format!("This is a test message {}", count);
        let command = if count % 2 == 0 { "add_insert_end_line_true" } else { "add_insert_end_line_false" };
        file = add(&config, &file, command, &message, &[], false).unwrap();
        let actual = file
            .lines()
            .skip_while(|line| line.trim() != insert)
            .skip(1)
            .filter(|line| !line.trim().is_empty())
            .collect::<Vec<_>>();
        let mut expected = Vec::new();
        for index in 0..=count {
            let message = format!("- This is a test message {index}");
            if index % 2 == 0 {
                expected.push(message);
            } else {
                expected.insert(0, message);
            }
        }
        assert_eq!(actual, expected.iter().map(String::as_str).collect::<Vec<_>>());
    }
}

#[test]
fn add_some_insert() {
    let config = add_config();
    let insert = "## Add";
    let mut file = "# Journal\n## Add\n\n## Other\n- other memo".to_string();
    for count in 0..10 {
        let message = format!("This is a test message {}", count);
        file = add(&config, &file, "add_some_insert", &message, &[], false).unwrap();
        let lines: Vec<&str> = file.lines().collect();
        let add_index = lines.iter().rposition(|line| line.trim() == insert).expect("Add heading was not found");
        let next_heading = lines
            .iter()
            .enumerate()
            .skip(add_index + 1)
            .find(|(_, line)| line.trim_start().starts_with("#"))
            .map(|(index, _)| index)
            .unwrap_or(lines.len());
        let add_block = &lines[add_index + 1..next_heading];
        let actual: Vec<&str> = add_block.iter().copied().filter(|line| !line.trim().is_empty()).collect();
        let expected_messages: Vec<String> = (0..=count).map(|index| format!("- This is a test message {index}")).collect();
        let expected: Vec<&str> = expected_messages.iter().map(String::as_str).collect();
        assert!(actual.ends_with(&expected));
    }
}

#[test]
fn add_yaml() {
    let mut config = config(vec![("add_yaml", command(false, false, None, None))]);
    config.created = Some(CreatedConfig { field: Some("Created".to_string()), format: None });
    config.modified = Some(ModifiedConfig { field: Some("Modified".to_string()), format: None });
    let template = "---\nCreated:\nModified:\n---";
    let created = stamp_created_at(template, &config.created, &noon()).unwrap().unwrap();
    let actual = add(&config, &created, "add_yaml", "This is a test message", &[], false).unwrap();
    let now_data = "1970-01-01";
    let now_time = "12:34:56";
    let expected = format!(
        "---\nCreated: {now_data} {now_time}\nModified: {now_data} {now_time}\n---\n- {now_time} This is a test message"
    );
    assert_eq!(actual, expected);
}

#[test]
fn add_with_link_writes_a_markdown_link() {
    let config = add_config();
    let lines = append_message_at(&config, "add_tag", vec![], "docs", Some("https://example.com"), &vec![], false, &noon()).unwrap();
    assert_eq!(lines, vec!["- [docs](https://example.com)"]);
}

#[test]
fn add_to_unknown_anchor_is_refused() {
    let config = add_config();
    let r = add(&config, "# Journal\n", "add_some_insert", "memo", &[], false);
    assert_eq!(r, Err(QwaError::InsertLineNotFound("## Add".to_string())));
}

#[test]
fn add_without_anchor_goes_after_the_frontmatter() {
    let config = add_config();
    let file = "---\ntitle: x\n---\n- old memo";
    let actual = add(&config, file, "add_end_line_false", "new memo", &[], false).unwrap();
    assert_eq!(actual, "---\ntitle: x\n---\n- new memo\n- old memo");
}

#[test]
fn add_with_custom_time_format() {
    let mut config = add_config();
    config.time_format = Some("%H:%M".to_string());
    let actual = add(&config, "", "add_format_tag", "memo", &[], false).unwrap();
    assert_eq!(actual, "- 12:34 memo");
}

#[test]
fn add_at_a_positive_utc_offset_uses_local_time() {
    let config = add_config();
    let now = Moment { timestamp: 45296, nanos: 0, offset: 9 * 3600 };
    let lines = append_message_at(&config, "add_format_tag", vec![], "memo", None, &vec![], false, &now).unwrap();
    assert_eq!(lines, vec!["- 21:34:56 memo"]);
}
