use qwato::add::append_message_at;
use qwato::clock::Moment;
use qwato::collect::{collect_single_file, SourceFile};
use qwato::config::{load_config, CommandConfig, Config};
use qwato::datalog::DataLog;
use qwato::list::{list_entries, ListLine};
use qwato::paths::{conversion_target_file_path_at, FileDates};

fn now() -> Moment {
    Moment { timestamp: 45296, nanos: 0, offset: 0 }
}

fn command() -> CommandConfig {
    CommandConfig {
        base_directory: None,
        auto_create: true,
        date_format: None,
        template: None,
        directory: None,
        file: None,
        insert: None,
        tags: None,
        not_format: true,
        end_line: false,
    }
}

fn workspace(base: &str, name: &str) -> Config {
    let mut c = Config {
        no_global: false,
        base_directory: Some(base.to_string()),
        default_command: None,
        auto_command: false,
        date_format: None,
        list: None,
        time_format: None,
        created: None,
        modified: None,
        command: vec![(name.to_string(), command())],
    };
    c.apply_base_directory_to_commands();
    c
}

fn listed(lines: Vec<ListLine>) -> String {
    lines
        .into_iter()
        .map(|l| match l {
            ListLine::Date(s) => s,
            ListLine::Text(s) => s,
        })
        .collect::<Vec<_>>()
        .join("\n")
}

#[test]
fn test_workspace_multiple_configs_separate_base_directories() {
    let config = load_config(vec![
        workspace("./tests/output/workspace_a", "aaa"),
        workspace("./tests/output/workspace_b", "bbb"),
    ]);
    let output_a = "./tests/output/workspace_a/aaa.md";
    let output_b = "./tests/output/workspace_b/bbb.md";

    let aaa = config.command.iter().find(|(n, _)| n == "aaa").unwrap().1.copy();
    let bbb = config.command.iter().find(|(n, _)| n == "bbb").unwrap().1.copy();

    // Command `aaa` writes to workspace_a
    assert_eq!(conversion_target_file_path_at(&config, "aaa", &aaa, &now(), None).unwrap(), output_a);
    let file_a = append_message_at(&config, "aaa", vec![], "Message for A", None, &vec![], false, &now()).unwrap().join("\n");
    assert_eq!(file_a, "- Message for A");

    // Command `bbb` writes to workspace_b
    assert_eq!(conversion_target_file_path_at(&config, "bbb", &bbb, &now(), None).unwrap(), output_b);
    let file_b = append_message_at(&config, "bbb", vec![], "Message for B", None, &vec![], false, &now()).unwrap().join("\n");
    assert_eq!(file_b, "- Message for B");

    // `--all aaa` reads from workspace_a
    let a = SourceFile {
        path: output_a.to_string(),
        contents: file_a,
        dates: FileDates::Known { created: None, modified: Some(qwato::clock::Date { year: 1970, month: 1, day: 1 }) },
    };
    let logs_a = collect_single_file(&a, &aaa, false, false, true).unwrap();
    let listing_a = listed(list_entries(&DataLog::collect_from_commands(vec![logs_a], true), &vec![], 10, None, None));
    assert!(listing_a.contains("Message for A"));

    // `--all bbb` reads from workspace_b
    let b = SourceFile {
        path: output_b.to_string(),
        contents: file_b,
        dates: FileDates::Known { created: None, modified: Some(qwato::clock::Date { year: 1970, month: 1, day: 1 }) },
    };
    let logs_b = collect_single_file(&b, &bbb, false, false, true).unwrap();
    let listing_b = listed(list_entries(&DataLog::collect_from_commands(vec![logs_b], true), &vec![], 10, None, None));
    assert!(listing_b.contains("Message for B"));
}
