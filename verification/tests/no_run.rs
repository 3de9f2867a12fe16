use qwato::add::append_message_at;
use qwato::cli::check_argument_count;
use qwato::clock::Moment;
use qwato::config::{CommandConfig, Config, CreatedConfig, ModifiedConfig};
use qwato::frontmatter::stamp_created_at;

const MESSAGE: &str = "This is a test message";

fn command() -> CommandConfig {
    CommandConfig {
        base_directory: None,
        auto_create: true,
        date_format: None,
        template: None,
        directory: None,
        file: None,
        insert: None,
        tags: None,
        not_format: true,
        end_line: false,
    }
}

/// A configuration with no default command.
fn non_config() -> Config {
    Config {
        no_global: false,
        base_directory: None,
        default_command: None,
        auto_command: false,
        date_format: None,
        list: None,
        time_format: None,
        created: None,
        modified: None,
        command: vec![
            ("not_created".to_string(), command()),
            ("not_modified".to_string(), command()),
        ],
    }
}

fn args(v: &[&str]) -> Vec<String> {
    v.iter().map(|s| s.to_string()).collect()
}

/// What a run of the add command reports, for a file with the given lines.
fn add_error(config: &Config, arguments: &[&str], lines: Vec<String>) -> String {
    let (command, message) = match check_argument_count(config, &args(arguments)) {
        Ok(pair) => pair,
        Err(e) => return e.message(),
    };
    let now = Moment { timestamp: 0, nanos: 0, offset: 0 };
    match append_message_at(config, &command, lines, &message, None, &vec![], false, &now) {
        Ok(_) => String::new(),
        Err(e) => e.message(),
    }
}

#[test]
fn no_message() {
    assert_eq!("No message provided", add_error(&non_config(), &[], vec![]));
}

#[test]
fn no_default_command() {
    assert_eq!("Not Config: defualt_command", add_error(&non_config(), &[MESSAGE], vec![]));
}

#[test]
fn no_command() {
    assert_eq!("Unknown Command: no_command", add_error(&non_config(), &["no_command", MESSAGE], vec![]));
}

#[test]
fn no_created() {
    let created = Some(CreatedConfig { field: Some("Created".to_string()), format: None });
    let template = "---\ntitle: journal\n---";
    let now = Moment { timestamp: 0, nanos: 0, offset: 0 };
    let error = stamp_created_at(template, &created, &now).unwrap_err();
    assert_eq!("Failed to Found Frontmatter: Created", error.message());
}

#[test]
fn no_modified() {
    let mut config = non_config();
    config.modified = Some(ModifiedConfig { field: Some("Modified".to_string()), format: None });
    let lines = vec!["---".to_string(), "title: journal".to_string(), "---".to_string()];
    assert_eq!(
        "Failed to Found Frontmatter: Modified",
        add_error(&config, &["not_modified", MESSAGE], lines)
    );
}

#[test]
fn a_file_without_frontmatter_needs_no_field() {
    let mut config = non_config();
    config.modified = Some(ModifiedConfig { field: Some("Modified".to_string()), format: None });
    assert_eq!("", add_error(&config, &["not_modified", MESSAGE], vec!["- old".to_string()]));
}

#[test]
fn created_stamp_without_field_leaves_the_file() {
    let created = Some(CreatedConfig { field: None, format: None });
    let now = Moment { timestamp: 0, nanos: 0, offset: 0 };
    assert_eq!(stamp_created_at("---\n---", &created, &now), Ok(None));
}

#[test]
fn missing_anchor_is_named_in_the_error() {
    let mut c = non_config();
    c.command[0].1.insert = Some("## Add".to_string());
    assert_eq!(
        add_error(&c, &["not_created", MESSAGE], vec!["# Title".to_string()]),
        "Not Found: Insert line \"## Add\""
    );
}

#[test]
fn unrenderable_time_pattern_is_named_in_the_error() {
    let mut c = non_config();
    c.command[0].1.not_format = false;
    c.time_format = Some("%Q".to_string());
    assert_eq!(add_error(&c, &["not_created", MESSAGE], vec![]), "Invalid time format: %Q");
}
