use qwato::cli::{date_stamp, parse_date};
use qwato::collect::{collect_per_file, SourceFile};
use qwato::config::{CommandConfig, DailyFile};
use qwato::datalog::DataLog;
use qwato::list::{list_entries, ListLine};
use qwato::paths::FileDates;

/// Five days of journal, five entries a day, some tagged, some tasks.
fn journal() -> Vec<(&'static str, &'static str)> {
    vec![
        (
            "2025-07-25.md",
            "- 12:12:12 0725.1\n- 14:05:00 0725.2\n- [ ] 13:45:00 0725.3\n- 15:30:00 0725.4\n- 16:10:12 #tag1 0725.5\n",
        ),
        (
            "2025-07-26.md",
            "- 09:10:11 0726.1\n- 17:24:35 #tag2 0726.2\n- 10:00:00 0726.3\n- [ ] 15:20:32 #tag1 0726.4\n- 21:32:12 #tag1 #tag2 0726.5\n",
        ),
        (
            "2025-07-27.md",
            "- [ ] 09:32:16 #tag2 0727.1\n- 11:00:00 0727.2\n- 17:21:38 #tag1 0727.3\n- [ ] 17:21:47 0727.4\n- [x] 08:00:00 0727.5\n",
        ),
        (
            "2025-07-28.md",
            "- 08:30:00 0728.1\n- [x] 09:00:00 0728.2\n- 10:23:23 #tag2 0728.3\n- 12:00:00 0728.4\n- [ ] 21:19:25 0728.5\n",
        ),
        (
            "2025-07-29.md",
            "- 08:15:00 0729.1\n- 11:47:45 #tag1 #tag2 0729.2\n- 11:48:36 #tag1 0729.3\n- [ ] 16:37:54 0729.4\n- 19:00:00 #tag2 0729.5\n",
        ),
    ]
}

fn line_command() -> CommandConfig {
    CommandConfig {
        base_directory: None,
        auto_create: false,
        date_format: Some(DailyFile::Line),
        template: None,
        directory: None,
        file: Some("%Y-%m-%d.md".to_string()),
        insert: None,
        tags: None,
        not_format: false,
        end_line: false,
    }
}

fn logs(is_note: bool, is_task: bool, is_all: bool) -> Vec<DataLog> {
    let files: Vec<SourceFile> = journal()
        .into_iter()
        .map(|(path, contents)| SourceFile {
            path: path.to_string(),
            contents: contents.to_string(),
            dates: FileDates::Unreadable,
        })
        .collect();
    let per_command = collect_per_file(&files, &line_command(), is_note, is_task, is_all).unwrap();
    DataLog::collect_from_commands(vec![per_command], is_all)
}

fn render(lines: Vec<ListLine>) -> Vec<String> {
    lines
        .into_iter()
        .map(|l| match l {
            ListLine::Date(s) => s,
            ListLine::Text(s) => s,
        })
        .collect()
}

fn list(is_note: bool, is_task: bool, tags: &[&str], limit: usize, from: Option<&str>, to: Option<&str>) -> Vec<String> {
    let filters: Vec<String> = tags.iter().map(|t| t.to_string()).collect();
    let from = from.map(|d| date_stamp(parse_date(d).unwrap()));
    let to = to.map(|d| date_stamp(parse_date(d).unwrap()));
    render(list_entries(
        &logs(is_note, is_task, false),
        &filters,
        limit,
        from.as_deref(),
        to.as_deref(),
    ))
}

#[test]
fn normal_list() {
    let lines = list(false, false, &[], 25, None, None);
    assert_eq!(lines.first().map(String::as_str), Some("2025-07-29"));
    assert_eq!(lines.last().map(String::as_str), Some("\t12:12:12\t0725.1"));
    assert!(lines.windows(2).any(|pair| pair == ["2025-07-28", "\t21:19:25\t[ ] 0728.5"]));
    assert!(lines.contains(&"\t19:00:00\t#tag2 0729.5".to_string()));
    assert!(lines.iter().any(|line| line.contains("0725.5")));
}

#[test]
fn list_tag1() {
    let lines = list(false, false, &["tag1"], 10, None, None);
    assert_eq!(
        lines,
        vec![
            "2025-07-29",
            "\t11:48:36\t#tag1 0729.3",
            "\t11:47:45\t#tag1 #tag2 0729.2",
            "2025-07-27",
            "\t17:21:38\t#tag1 0727.3",
            "2025-07-26",
            "\t21:32:12\t#tag1 #tag2 0726.5",
            "\t15:20:32\t[ ] #tag1 0726.4",
            "2025-07-25",
            "\t16:10:12\t#tag1 0725.5",
        ]
    );
}

#[test]
fn list_tag2() {
    let lines = list(false, false, &["tag2"], 10, None, None);
    assert_eq!(
        lines,
        vec![
            "2025-07-29",
            "\t19:00:00\t#tag2 0729.5",
            "\t11:47:45\t#tag1 #tag2 0729.2",
            "2025-07-28",
            "\t10:23:23\t#tag2 0728.3",
            "2025-07-27",
            "\t09:32:16\t[ ] #tag2 0727.1",
            "2025-07-26",
            "\t21:32:12\t#tag1 #tag2 0726.5",
            "\t17:24:35\t#tag2 0726.2",
        ]
    );
}

#[test]
fn list_tag1_and_tag2() {
    let lines = list(false, false, &["tag1", "tag2"], 10, None, None);
    assert_eq!(
        lines,
        vec![
            "2025-07-29",
            "\t19:00:00\t#tag2 0729.5",
            "\t11:48:36\t#tag1 0729.3",
            "\t11:47:45\t#tag1 #tag2 0729.2",
            "2025-07-28",
            "\t10:23:23\t#tag2 0728.3",
            "2025-07-27",
            "\t17:21:38\t#tag1 0727.3",
            "\t09:32:16\t[ ] #tag2 0727.1",
            "2025-07-26",
            "\t21:32:12\t#tag1 #tag2 0726.5",
            "\t17:24:35\t#tag2 0726.2",
            "\t15:20:32\t[ ] #tag1 0726.4",
            "2025-07-25",
            "\t16:10:12\t#tag1 0725.5",
        ]
    );
}

#[test]
fn list_tag3_has_no_results() {
    let lines = list(false, false, &["tag3"], 10, None, None);
    assert!(lines.is_empty());
}

#[test]
fn list_limit() {
    let lines = list(false, false, &[], 3, None, None);
    assert_eq!(
        lines,
        vec![
            "2025-07-29",
            "\t19:00:00\t#tag2 0729.5",
            "\t16:37:54\t[ ] 0729.4",
            "\t11:48:36\t#tag1 0729.3",
        ]
    );
}

#[test]
fn date_format_list() {
    let lines = list(false, false, &[], 25, None, None);
    assert_eq!(lines.first().map(String::as_str), Some("2025-07-29"));
    assert_eq!(lines.last().map(String::as_str), Some("\t12:12:12\t0725.1"));
    assert!(lines.windows(2).any(|pair| pair == ["2025-07-28", "\t21:19:25\t[ ] 0728.5"]));
    assert!(lines.contains(&"\t19:00:00\t#tag2 0729.5".to_string()));
    assert!(lines.iter().any(|line| line.contains("0725.5")));
}

#[test]
fn note_date_range_from_to() {
    let lines = list(true, false, &[], 20, Some("2025-07-27"), Some("2025-07-28"));
    assert!(lines.contains(&"2025-07-28".to_string()));
    assert!(lines.contains(&"2025-07-27".to_string()));
    assert!(!lines.contains(&"2025-07-29".to_string()));
    assert!(!lines.contains(&"2025-07-26".to_string()));
    assert!(!lines.contains(&"2025-07-25".to_string()));
}

#[test]
fn note_date_range_from_only() {
    let lines = list(true, false, &[], 20, Some("2025-07-28"), None);
    assert!(lines.contains(&"2025-07-29".to_string()));
    assert!(lines.contains(&"2025-07-28".to_string()));
    assert!(!lines.contains(&"2025-07-27".to_string()));
    assert!(!lines.contains(&"2025-07-26".to_string()));
    assert!(!lines.contains(&"2025-07-25".to_string()));
}

#[test]
fn note_date_range_to_only() {
    let lines = list(true, false, &[], 20, None, Some("2025-07-26"));
    assert!(!lines.contains(&"2025-07-29".to_string()));
    assert!(!lines.contains(&"2025-07-28".to_string()));
    assert!(!lines.contains(&"2025-07-27".to_string()));
    assert!(lines.contains(&"2025-07-26".to_string()));
    assert!(lines.contains(&"2025-07-25".to_string()));
}

#[test]
fn list_date_range_with_slash_format() {
    let lines = list(false, false, &[], 20, Some("2025/07/27"), Some("2025/07/28"));
    assert!(lines.contains(&"2025-07-28".to_string()));
    assert!(lines.contains(&"2025-07-27".to_string()));
    assert!(!lines.contains(&"2025-07-29".to_string()));
}

#[test]
fn normal_task() {
    let lines = list(false, true, &[], 25, None, None);
    assert_eq!(lines.first().map(String::as_str), Some("2025-07-29"));
    assert_eq!(lines.last().map(String::as_str), Some("\t13:45:00\t[ ] 0725.3"));
    assert!(lines.windows(2).any(|pair| pair == ["2025-07-28", "\t21:19:25\t[ ] 0728.5"]));
    assert!(lines.contains(&"\t09:32:16\t[ ] #tag2 0727.1".to_string()));
    assert!(!lines.iter().any(|line| line.contains("0729.5")));
}

#[test]
fn task_tag1() {
    let lines = list(false, true, &["tag1"], 10, None, None);
    assert_eq!(lines, vec!["2025-07-26", "\t15:20:32\t[ ] #tag1 0726.4"]);
}

#[test]
fn task_tag2() {
    let lines = list(false, true, &["tag2"], 10, None, None);
    assert_eq!(lines, vec!["2025-07-27", "\t09:32:16\t[ ] #tag2 0727.1"]);
}

#[test]
fn task_tag1_and_tag2() {
    let lines = list(false, true, &["tag1", "tag2"], 25, None, None);
    assert_eq!(
        lines,
        vec![
            "2025-07-27",
            "\t09:32:16\t[ ] #tag2 0727.1",
            "2025-07-26",
            "\t15:20:32\t[ ] #tag1 0726.4",
        ]
    );
}

#[test]
fn task_tag3_has_no_results() {
    let lines = list(false, true, &["tag3"], 10, None, None);
    assert!(lines.is_empty());
}

#[test]
fn task_limit() {
    let lines = list(false, true, &[], 3, None, None);
    assert_eq!(
        lines,
        vec![
            "2025-07-29",
            "\t16:37:54\t[ ] 0729.4",
            "2025-07-28",
            "\t21:19:25\t[ ] 0728.5",
            "2025-07-27",
            "\t17:21:47\t[ ] 0727.4",
        ]
    );
}

#[test]
fn listing_limit_zero_shows_nothing() {
    let lines = list(false, false, &[], 0, None, None);
    assert!(lines.is_empty());
}

#[test]
fn listing_shows_every_entry_in_range_under_a_large_limit() {
    // 25 entries, two of them checked tasks: 23 shown, 5 date headings.
    let lines = list(false, false, &[], 100, None, None);
    assert_eq!(lines.len(), 28);
}

#[test]
fn listing_dates_come_newest_first_and_in_range() {
    let lines = list(false, false, &[], 100, Some("2025-07-26"), Some("2025-07-28"));
    let dates: Vec<&String> = lines.iter().filter(|l| !l.starts_with('\t')).collect();
    assert_eq!(dates, vec!["2025-07-28", "2025-07-27", "2025-07-26"]);
}

#[test]
fn all_mode_reads_entries_without_a_clock() {
    let files = vec![SourceFile {
        path: "2025-07-30.md".to_string(),
        contents: "- no clock here\n- 10:00:00 with clock\n".to_string(),
        dates: FileDates::Unreadable,
    }];
    let strict = collect_per_file(&files, &line_command(), false, false, false).unwrap();
    let all = collect_per_file(&files, &line_command(), false, false, true).unwrap();
    assert_eq!(strict[0].messages.len(), 1);
    assert_eq!(all[0].messages.len(), 2);
    let lines = render(list_entries(&all, &vec![], 10, None, None));
    assert_eq!(lines, vec!["2025-07-30", "\t10:00:00\twith clock", "\tno clock here"]);
}

#[test]
fn continuation_lines_are_shown_indented() {
    let files = vec![SourceFile {
        path: "2025-07-30.md".to_string(),
        contents: "- 10:00:00 first line\n  second line\n".to_string(),
        dates: FileDates::Unreadable,
    }];
    let logs = collect_per_file(&files, &line_command(), false, false, false).unwrap();
    let lines = render(list_entries(&logs, &vec![], 10, None, None));
    assert_eq!(lines, vec!["2025-07-30", "\t10:00:00\tfirst line", "\t\t\tsecond line"]);
}
