use qwato::clock::{Date, Moment};
use qwato::config::{
    check_command_exists, config_file_order, merge_config, CommandConfig, Config, DailyFile, GivenConfig,
    ListConfig,
};
use qwato::error::QwaError;
use qwato::markdown::{is_blank, is_heading, is_list};
use qwato::paths::{
    expand_home_with, is_command_file, join_path, render_at, resolve_date_stamp, FileDates,
};
use qwato::tags::{normalize_tag, parse_tags};

fn command(file: Option<&str>, date_format: Option<DailyFile>) -> CommandConfig {
    CommandConfig {
        base_directory: None,
        auto_create: false,
        date_format,
        template: None,
        directory: None,
        file: file.map(String::from),
        insert: None,
        tags: None,
        not_format: false,
        end_line: false,
    }
}

fn empty_config() -> Config {
    Config {
        no_global: false,
        base_directory: None,
        default_command: None,
        auto_command: false,
        date_format: None,
        list: None,
        time_format: None,
        created: None,
        modified: None,
        command: vec![],
    }
}

#[test]
fn markdown_line_kinds() {
    assert!(is_heading("  ## Journal"));
    assert!(!is_heading("text # not"));
    assert!(is_blank(" \t "));
    assert!(!is_blank(" x "));
    assert!(is_list("- item"));
    assert!(is_list("  * item"));
    assert!(is_list("12. item"));
    assert!(!is_list("-item"));
    assert!(!is_list("12 item"));
    assert!(!is_list("+ item"));
}

#[test]
fn tags_parse_and_normalise() {
    assert_eq!(parse_tags(" a, b ,,c "), Some(vec!["a".to_string(), "b".to_string(), "c".to_string()]));
    assert_eq!(parse_tags("   "), None);
    assert_eq!(normalize_tag(" ##Work# "), "work");
    assert_eq!(normalize_tag("Tag"), "tag");
}

#[test]
fn home_is_expanded_only_for_a_leading_tilde() {
    assert_eq!(expand_home_with("~/notes", Some("/home/u".to_string())), Ok("/home/u/notes".to_string()));
    assert_eq!(expand_home_with("~", Some("/home/u".to_string())), Ok("/home/u".to_string()));
    assert_eq!(expand_home_with("./notes", None), Ok("./notes".to_string()));
    assert_eq!(expand_home_with("~x/notes", None), Ok("~x/notes".to_string()));
    assert_eq!(expand_home_with("~/notes", None), Err(QwaError::HomeDirectoryUnavailable));
}

#[test]
fn paths_join_as_pathbuf_push() {
    let j = |a: &str, b: &str| -> String { join_path(&a.chars().collect::<Vec<_>>(), &b.chars().collect::<Vec<_>>()).into_iter().collect() };
    assert_eq!(j("base", "dir"), "base/dir");
    assert_eq!(j("base/", "dir"), "base/dir");
    assert_eq!(j("", "dir"), "dir");
    assert_eq!(j("base", "/abs"), "/abs");
    assert_eq!(j("base", ""), "base/");
}

#[test]
fn dates_from_paths_per_layout() {
    let d = Some(Date { year: 2025, month: 7, day: 29 });
    assert_eq!(DailyFile::Line.parse_date_from_path("notes/2025-07-29.md"), d);
    assert_eq!(DailyFile::Slash.parse_date_from_path("notes/2025/07/29.md"), d);
    assert_eq!(DailyFile::SlashLine.parse_date_from_path("notes/2025/07/29/2025-07-29.md"), d);
    assert_eq!(DailyFile::Line.parse_date_from_path("notes/inbox.md"), None);
    assert_eq!(DailyFile::Onefile.parse_date_from_path("notes/2025-07-29.md"), None);
}

#[test]
fn command_files_are_recognised_by_pattern() {
    let daily = command(Some("%Y-%m-%d.md"), None);
    assert!(is_command_file("x/2025-07-29.md", &daily));
    assert!(!is_command_file("x/inbox.md", &daily));
    let inbox = command(Some("inbox.md"), None);
    assert!(is_command_file("x/inbox.md", &inbox));
    assert!(!is_command_file("x/other.md", &inbox));
    assert!(is_command_file("x/anything.md", &command(None, None)));
}

#[test]
fn date_stamps_come_from_the_name_then_the_metadata() {
    let daily = command(Some("%Y-%m-%d.md"), None);
    let created = Date { year: 2024, month: 1, day: 2 };
    let modified = Date { year: 2024, month: 3, day: 4 };
    let known = FileDates::Known { created: Some(created), modified: Some(modified) };
    assert_eq!(resolve_date_stamp("x/2025-07-29.md", &daily, &known), Ok("2025-07-29".to_string()));
    let inbox = command(Some("inbox.md"), None);
    assert_eq!(resolve_date_stamp("x/inbox.md", &inbox, &known), Ok("2024-01-02".to_string()));
    let only_modified = FileDates::Known { created: None, modified: Some(modified) };
    assert_eq!(resolve_date_stamp("x/inbox.md", &inbox, &only_modified), Ok("2024-03-04".to_string()));
    let none = FileDates::Known { created: None, modified: None };
    assert_eq!(
        resolve_date_stamp("x/inbox.md", &inbox, &none),
        Err(QwaError::DateStampUnresolved("x/inbox.md".to_string()))
    );
    assert_eq!(
        resolve_date_stamp("x/inbox.md", &inbox, &FileDates::Unreadable),
        Err(QwaError::MetadataUnreadable("x/inbox.md".to_string()))
    );
}

#[test]
fn the_clock_renders_patterns() {
    let render = |m: &Moment, p: &str| -> String { render_at(m, &p.to_string()).unwrap().into_iter().collect() };
    let m = Moment { timestamp: 1753792496, nanos: 0, offset: 0 };
    assert_eq!(render(&m, "%Y-%m-%d %H:%M:%S"), "2025-07-29 12:34:56");
    let tokyo = Moment { timestamp: 1753792496, nanos: 0, offset: 9 * 3600 };
    assert_eq!(render(&tokyo, "%H:%M"), "21:34");
}

#[test]
fn later_configuration_files_win() {
    let mut base = empty_config();
    base.default_command = Some("daily".to_string());
    base.list = Some(ListConfig { limit: 10 });
    base.command = vec![("daily".to_string(), command(Some("a.md"), None))];
    let mut over = empty_config();
    over.list = Some(ListConfig { limit: 3 });
    over.auto_command = true;
    over.no_global = true;
    over.command = vec![
        ("daily".to_string(), command(Some("b.md"), None)),
        ("memo".to_string(), command(None, None)),
    ];
    let merged = merge_config(base, over);
    assert_eq!(merged.default_command, Some("daily".to_string()));
    assert_eq!(merged.list, Some(ListConfig { limit: 3 }));
    assert!(merged.auto_command);
    assert!(!merged.no_global);
    assert_eq!(check_command_exists(&merged, "daily").unwrap().file, Some("b.md".to_string()));
    assert!(check_command_exists(&merged, "memo").is_ok());
    assert_eq!(
        check_command_exists(&merged, "other").unwrap_err(),
        QwaError::UnknownCommand("other".to_string())
    );
}

#[test]
fn merging_an_empty_file_changes_nothing() {
    let mut base = empty_config();
    base.default_command = Some("daily".to_string());
    base.time_format = Some("%H:%M".to_string());
    base.command = vec![("daily".to_string(), command(Some("a.md"), None))];
    let merged = merge_config(base, empty_config());
    assert_eq!(merged.default_command, Some("daily".to_string()));
    assert_eq!(merged.time_format, Some("%H:%M".to_string()));
    assert_eq!(merged.command.len(), 1);
}

#[test]
fn base_directory_fills_commands_without_one() {
    let mut c = empty_config();
    c.base_directory = Some("/base".to_string());
    let mut own = command(None, None);
    own.base_directory = Some("/own".to_string());
    c.command = vec![("a".to_string(), command(None, None)), ("b".to_string(), own)];
    c.apply_base_directory_to_commands();
    assert_eq!(c.command[0].1.base_directory, Some("/base".to_string()));
    assert_eq!(c.command[1].1.base_directory, Some("/own".to_string()));
}

#[test]
fn default_configuration() {
    let c = Config::default();
    assert_eq!(c.default_command, Some("default".to_string()));
    assert_eq!(c.list, Some(ListConfig { limit: 10 }));
    let d = check_command_exists(&c, "default").unwrap();
    assert!(d.auto_create);
    assert_eq!(d.file, Some("%Y-%m-%d.md".to_string()));
    assert_eq!(d.date_format(), DailyFile::Line);
}

#[test]
fn configuration_files_in_priority_order() {
    let home = vec!["h/b.toml".to_string(), "h/a.toml".to_string()];
    let given = Some(GivenConfig::Directory(vec!["d/z.toml".to_string(), "d/m.toml".to_string()]));
    assert_eq!(
        config_file_order(&home, Some("./qwato.toml".to_string()), &given),
        Ok(vec![
            "h/a.toml".to_string(),
            "h/b.toml".to_string(),
            "./qwato.toml".to_string(),
            "d/m.toml".to_string(),
            "d/z.toml".to_string(),
        ])
    );
    let file = Some(GivenConfig::File("my.toml".to_string()));
    assert_eq!(config_file_order(&vec![], None, &file), Ok(vec!["my.toml".to_string()]));
    assert_eq!(config_file_order(&vec![], None, &None), Err(QwaError::NoConfigFile));
    assert_eq!(QwaError::NoConfigFile.message(), "Failed to Find: config file");
}
