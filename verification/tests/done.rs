use qwato::datalog::{DataLog, EntryKind};
use qwato::done::{choose_open_task, is_open_task_line, pick_task_by_index, task_entries_in_file, tick_line, tick_task_in, TaskEntry};
use qwato::error::QwaError;
use qwato::tags::message_matches_tags;

#[test]
fn message_matches_tags_accepts_any_matching_tag() {
    assert!(message_matches_tags(
        "- 10:12:34 #Software Obsidian",
        &["Software".to_string(), "daily".to_string()],
    ));
    assert!(message_matches_tags(
        "- 12:23:45 #Game Minecraft",
        &["Game".to_string(), "daily".to_string()],
    ));
    assert!(!message_matches_tags(
        "- 17:00:00 #Game Minecraft",
        &["Software".to_string(), "daily".to_string()],
    ));
}

#[test]
fn pick_task_by_index_uses_newest_first_order() {
    let tasks = vec![
        ("2024-06-20", 3, "- [ ] 12:00:00 #daily third"),
        ("2024-06-20", 2, "- [ ] 11:00:00 #software second"),
        ("2024-06-20", 1, "- [ ] 10:00:00 #daily first"),
    ];

    let picked = pick_task_by_index(&tasks, 2).unwrap();
    assert_eq!(picked.2, "- [ ] 11:00:00 #software second");
}

#[test]
fn unchecked_task_filter_ignores_done_entries() {
    let contents = "- [ ] 11:29:26 Test3\n- [x] 11:29:25 Test2\n- [ ] 11:29:23 Test1\n";
    let lines: Vec<&str> = contents.lines().collect();
    let unchecked = TaskEntry {
        date_stamp: "2026-08-19".to_string(),
        file_path: "2026-08-19.md".to_string(),
        line_number: 1,
        timestamp: None,
    };
    let open = TaskEntry {
        date_stamp: "2026-08-19".to_string(),
        file_path: "2026-08-19.md".to_string(),
        line_number: 0,
        timestamp: None,
    };

    assert!(!is_open_task_line(lines[unchecked.line_number]));
    assert!(is_open_task_line(lines[open.line_number]));
}

#[test]
fn data_log_accepts_tasks_without_timestamps() {
    let mut data_log = DataLog::new("2026-08-19".to_string(), false);

    assert!(data_log.push("- [ ] Test3", false, true));
    assert_eq!(data_log.messages.len(), 1);
    assert_eq!(data_log.messages[0].timestamp, None);
    assert_eq!(data_log.messages[0].message, "Test3");
}

#[test]
fn memos_without_a_clock_need_all_mode() {
    let mut strict = DataLog::new("2026-08-19".to_string(), false);
    assert!(!strict.push("- memo without clock", false, false));
    let mut all = DataLog::new("2026-08-19".to_string(), true);
    assert!(all.push("- memo without clock", false, false));
    assert_eq!(all.messages[0].kind, EntryKind::Memo);
}

#[test]
fn pick_task_index_zero_is_the_first() {
    let tasks = vec![10, 20, 30];
    assert_eq!(pick_task_by_index(&tasks, 0), Some(10));
    assert_eq!(pick_task_by_index(&tasks, 1), Some(10));
    assert_eq!(pick_task_by_index(&tasks, 3), Some(30));
    assert_eq!(pick_task_by_index(&tasks, 4), None);
}

#[test]
fn tasks_of_a_file_are_found_outside_code_and_frontmatter() {
    let contents = "---\n- [ ] 01:00:00 in frontmatter\n---\n- [ ] 09:00:00 #work first\n- 10:00:00 a memo\n- [x] 11:00:00 done one\n> - [ ] 12:00:00 quoted\n- [ ] 13:00:00 second\n```\n- [ ] 14:00:00 in code";
    let tasks = task_entries_in_file(contents, "2026-08-19", "2026-08-19.md", &vec![]);
    let lines: Vec<usize> = tasks.iter().map(|t| t.line_number).collect();
    assert_eq!(lines, vec![3, 5, 7]);
    let work = task_entries_in_file(contents, "2026-08-19", "2026-08-19.md", &vec!["work".to_string()]);
    assert_eq!(work.len(), 1);
    assert_eq!(work[0].line_number, 3);
}

#[test]
fn open_tasks_are_chosen_newest_first() {
    let a = task_entries_in_file("- [ ] 09:00:00 old\n- [ ] 18:00:00 late", "2026-08-18", "a.md", &vec![]);
    let b = task_entries_in_file("- [ ] 07:00:00 new", "2026-08-19", "b.md", &vec![]);
    let all: Vec<TaskEntry> = a.into_iter().chain(b).collect();
    let first = choose_open_task(&all, 1).unwrap();
    assert_eq!((first.file_path.as_str(), first.line_number), ("b.md", 0));
    let second = choose_open_task(&all, 2).unwrap();
    assert_eq!((second.file_path.as_str(), second.line_number), ("a.md", 1));
    let third = choose_open_task(&all, 3).unwrap();
    assert_eq!((third.file_path.as_str(), third.line_number), ("a.md", 0));
    assert_eq!(choose_open_task(&all, 4).unwrap_err(), QwaError::NoTaskAtIndex(4));
}

#[test]
fn ticking_a_task_checks_its_box() {
    assert_eq!(tick_line("- [ ] 09:00:00 task"), Some("- [x] 09:00:00 task".to_string()));
    assert_eq!(tick_line("- [x] 09:00:00 task"), None);
    let contents = "# Day\n- [ ] 09:00:00 task\n- 10:00:00 memo\n";
    assert_eq!(
        tick_task_in(contents, 1),
        Some("# Day\n- [x] 09:00:00 task\n- 10:00:00 memo".to_string())
    );
    assert_eq!(tick_task_in(contents, 2), None);
}

#[test]
fn no_task_message_names_the_index() {
    assert_eq!(
        QwaError::NoTaskAtIndex(12).message(),
        "No task found for index 12 in the current filtered list"
    );
}
