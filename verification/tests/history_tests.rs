use chrono::TimeZone;
use zsh_history_cleaner::dates::Date;
use zsh_history_cleaner::history::fold_date_range;
use zsh_history_cleaner::errors::HistoryError;
use zsh_history_cleaner::history::History;

fn history_from(content: &str) -> History {
    // History files end with a newline after the last entry.
    let bytes = format!("{}\n", content).into_bytes();
    History::from_content("test_history".to_string(), &bytes).unwrap()
}

#[test]
fn test_empty_history() {
    assert_eq!(history_from("").size(), 0);
}

#[test]
fn test_from_file() {
    let cmds = [
        ": 1732577005:0;tf fmt -recursive",
        ": 1732577037:0;tf apply",
    ];

    let history = history_from(cmds.join("\n").as_str());

    assert_eq!(history.entries().len(), 2, "Wrong number of history entries!");

    assert_eq!(history.entries()[0].command(), "tf fmt -recursive");
    assert_eq!(history.entries()[0].duration(), 0);
    assert_eq!(*history.entries()[0].timestamp(), 1732577005);

    assert_eq!(history.entries()[1].command(), "tf apply");
    assert_eq!(history.entries()[1].duration(), 0);
    assert_eq!(*history.entries()[1].timestamp(), 1732577037);
}

#[test]
fn test_from_file_multiline_commands() {
    let cmds = [
        r#": 1733015058:0;echo 'hello hacha \
world'"#,
        r#": 1732659779:0;echo 'multiple \
line'"#,
        r#": 1732659789:0;reload"#,
    ];
    let history = history_from(cmds.join("\n").as_str());

    assert_eq!(history.entries().len(), 3, "Wrong number of history entries!");

    // First command
    assert_eq!(
        history.entries()[0].command(),
        r#"echo 'hello hacha \
world'"#
    );

    // Second command
    assert_eq!(
        history.entries()[1].command(),
        r#"echo 'multiple \
line'"#
    );

    // Third command
    assert_eq!(history.entries()[2].command(), "reload");
}

#[test]
fn test_non_utf_8_chars_in_the_fle() {
    // A valid first line followed by a line with invalid UTF-8 bytes.
    let mut content: Vec<u8> = Vec::new();
    content.extend_from_slice(b": 1732577005:0;echo 'valid command'\n");
    content.extend_from_slice(b": 1732577010:0;echo 'invalid \xFF\xFE command'\n");

    let result = History::from_content("test_history".to_string(), &content);

    assert!(
        result.is_err(),
        "Expected an error when reading non-UTF-8 content"
    );

    if let Err(error) = result {
        match error {
            HistoryError::LineEncodingError(line_number, error_msg) => {
                assert_eq!(line_number, "2", "Error should occur on line 2");
                assert!(
                    error_msg.contains("stream did not contain valid UTF-8"),
                    "Error message should mention UTF-8: {}",
                    error_msg
                );
            }
            _other_error => {
                panic!("Expected LineEncodingError, but got a different error type")
            }
        }
    }
}

// Remove duplicate commands from the history
#[test]
fn test_remove_duplicates() {
    let cmds = [
        ": 1732577005:0;tf fmt -recursive",
        ": 1732577037:0;tf apply",
        ": 1732577157:0;tf apply",
        ": 1732577197:0;echo 'hello world'",
    ];

    let mut history = history_from(cmds.join("\n").as_str());

    assert_eq!(history.entries().len(), 4);
    history.remove_duplicates();
    assert_eq!(history.entries().len(), 3, "Wrong number of history entries!");
    assert_eq!(history.entries()[0].command(), "tf fmt -recursive");

    assert_eq!(history.entries()[1].command(), "tf apply");
    assert_eq!(*history.entries()[1].timestamp(), 1732577157);

    assert_eq!(history.entries()[2].command(), "echo 'hello world'");
}

// Remove commands between two dates
#[test]
fn test_remove_between_dates() {
    let cmds = [
        format!(
            ": {}:0;echo 'first command'",
            chrono::Local
                .with_ymd_and_hms(2020, 1, 1, 12, 0, 0)
                .unwrap()
                .timestamp()
        ),
        format!(
            ": {}:0;echo 'second command'",
            chrono::Local
                .with_ymd_and_hms(2024, 2, 1, 12, 0, 0)
                .unwrap()
                .timestamp()
        ),
        format!(
            ": {}:0;echo 'third command'",
            chrono::Local
                .with_ymd_and_hms(2025, 3, 3, 12, 0, 0)
                .unwrap()
                .timestamp()
        ),
        format!(
            ": {}:0;echo 'fourth command'",
            chrono::Local
                .with_ymd_and_hms(2026, 4, 3, 12, 0, 0)
                .unwrap()
                .timestamp()
        ),
        format!(
            ": {}:0;echo 'fifth command'",
            chrono::Local
                .with_ymd_and_hms(2027, 4, 3, 12, 0, 0)
                .unwrap()
                .timestamp()
        ),
    ];

    let mut history = history_from(cmds.join("\n").as_str());

    let remove_count = history.remove_between_dates(
        &Date { year: 2024, month: 1, day: 1 },
        &Date { year: 2025, month: 12, day: 31 },
    );

    assert_eq!(remove_count, 2, "We should have removed 2 entries");

    assert_eq!(
        history.entries().len(),
        3,
        "We should have 2 entries left after removal"
    );
    assert_eq!(history.entries()[0].command(), "echo 'first command'");
    assert_eq!(history.entries()[1].command(), "echo 'fourth command'");

    // Remove with a date range that matches no entries
    let removed_count = history.remove_between_dates(
        &Date { year: 2030, month: 1, day: 1 },
        &Date { year: 2030, month: 12, day: 31 },
    );
    assert_eq!(removed_count, 0, "No entries should have been removed");
    assert_eq!(history.entries().len(), 3, "We should still have 3 entries");
}

/// Test the date_range function makes sure it correctly identifies the min and max dates
#[test]
fn test_date_range() {
    // Common case with multiple entries
    let cmds = [
        ": 1707258478:0;echo 'first command'",
        ": 1766959482:0;echo 'second command'",
    ];
    let history = history_from(cmds.join("\n").as_str());
    let date_range = history.date_range().unwrap();
    assert_eq!(date_range.0, Date { year: 2024, month: 2, day: 6 });
    assert_eq!(date_range.1, Date { year: 2025, month: 12, day: 28 });

    // Empty history
    let empty_history = history_from("");
    assert!(empty_history.date_range().is_none());

    // Reverse order entries
    let cmds = [
        ": 1766959482:0;echo 'second command'",
        ": 1707258478:0;echo 'first command'",
    ];
    let history = history_from(cmds.join("\n").as_str());
    let date_range = history.date_range().unwrap();
    assert_eq!(date_range.0, Date { year: 2024, month: 2, day: 6 });
    assert_eq!(date_range.1, Date { year: 2025, month: 12, day: 28 });
}

// Deduplication keeps the last occurrence of each command, in order.
#[test]
fn test_dedup_keeps_last_occurrence() {
    let cmds = [
        ": 1000000001:0;A",
        ": 1000000002:0;B",
        ": 1000000003:0;A",
        ": 1000000004:0;C",
    ];
    let mut history = history_from(cmds.join("\n").as_str());
    let removed = history.remove_duplicates();
    assert_eq!(removed, 1);
    assert_eq!(history.entries().len(), 3);
    assert_eq!(history.entries()[0].command(), "B");
    assert_eq!(history.entries()[1].command(), "A");
    assert_eq!(*history.entries()[1].timestamp(), 1000000003);
    assert_eq!(history.entries()[2].command(), "C");
}

// Deduplicating a second time changes nothing.
#[test]
fn test_dedup_idempotent() {
    let cmds = [
        ": 1000000001:0;ls",
        ": 1000000002:0;pwd",
        ": 1000000003:0;ls",
        ": 1000000004:0;ls",
        ": 1000000005:0;cd /",
    ];
    let mut history = history_from(cmds.join("\n").as_str());
    let removed_first = history.remove_duplicates();
    assert_eq!(removed_first, 2);
    let after_first: Vec<String> = history
        .entries()
        .iter()
        .map(|e| e.command().to_string())
        .collect();
    let removed_second = history.remove_duplicates();
    assert_eq!(removed_second, 0);
    let after_second: Vec<String> = history
        .entries()
        .iter()
        .map(|e| e.command().to_string())
        .collect();
    assert_eq!(after_first, after_second);
}

// The spec's date-filtering scenario: four dated entries, the range
// removes exactly the first two and keeps the last two in order.
#[test]
fn test_remove_in_date_range_scenario() {
    let cmds = [
        format!(
            ": {}:0;one",
            chrono::Local
                .with_ymd_and_hms(2020, 1, 1, 12, 0, 0)
                .unwrap()
                .timestamp()
        ),
        format!(
            ": {}:0;two",
            chrono::Local
                .with_ymd_and_hms(2023, 2, 26, 12, 0, 0)
                .unwrap()
                .timestamp()
        ),
        format!(
            ": {}:0;three",
            chrono::Local
                .with_ymd_and_hms(2024, 3, 26, 12, 0, 0)
                .unwrap()
                .timestamp()
        ),
        format!(
            ": {}:0;four",
            chrono::Local
                .with_ymd_and_hms(2026, 6, 26, 12, 0, 0)
                .unwrap()
                .timestamp()
        ),
    ];
    let mut history = history_from(cmds.join("\n").as_str());
    let removed = history.remove_between_dates(
        &Date { year: 2020, month: 1, day: 1 },
        &Date { year: 2023, month: 2, day: 26 },
    );
    assert_eq!(removed, 2);
    assert_eq!(history.entries().len(), 2);
    assert_eq!(history.entries()[0].command(), "three");
    assert_eq!(history.entries()[1].command(), "four");
}

// Malformed lines are skipped, not fatal: two valid lines and one with a
// negative-looking elapsed field load as two entries.
#[test]
fn test_malformed_line_tolerance() {
    let cmds = [
        ": 1732577005:0;tf fmt -recursive",
        ": 1732577010:-7;broken elapsed",
        ": 1732577037:0;tf apply",
    ];
    let history = history_from(cmds.join("\n").as_str());
    assert_eq!(history.entries().len(), 2);
    assert_eq!(history.entries()[0].command(), "tf fmt -recursive");
    assert_eq!(history.entries()[1].command(), "tf apply");
}

// Loading an empty file: no entries, no duplicates, no date range.
#[test]
fn test_empty_file_behavior() {
    let history = history_from("");
    assert_eq!(history.size(), 0);
    assert!(history.is_empty());
    assert_eq!(history.count_duplicates(), 0);
    assert!(history.date_range().is_none());
}

// count_duplicates counts distinct repeated commands, not extra copies.
#[test]
fn test_count_duplicates_distinct_values() {
    let cmds = [
        ": 1000000001:0;a",
        ": 1000000002:0;a",
        ": 1000000003:0;a",
        ": 1000000004:0;b",
        ": 1000000005:0;b",
        ": 1000000006:0;c",
    ];
    let history = history_from(cmds.join("\n").as_str());
    assert_eq!(history.count_duplicates(), 2);
}

// The regenerated file content matches the loaded bytes for a clean history.
#[test]
fn test_to_file_content_round_trip() {
    let content = ": 1732577005:0;tf fmt -recursive\n: 1732577037:0;tf apply\n";
    let history = History::from_content(
        "test_history".to_string(),
        &content.as_bytes().to_vec(),
    )
    .unwrap();
    assert_eq!(history.to_file_content(), content);
    assert_eq!(history.filename(), "test_history");
}

// The date-filtering decision on plain values: an entry is removed
// exactly when its date slot holds a date inside the inclusive range;
// a slot without a date keeps its entry.
#[test]
fn test_remove_by_dates() {
    let cmds = [
        ": 1000000001:0;one",
        ": 1000000002:0;two",
        ": 1000000003:0;three",
        ": 1000000004:0;four",
    ];
    let mut history = history_from(cmds.join("\n").as_str());
    let dates = vec![
        Some(Date { year: 2020, month: 1, day: 1 }),
        Some(Date { year: 2023, month: 2, day: 26 }),
        None,
        Some(Date { year: 2026, month: 6, day: 26 }),
    ];
    let removed = history.remove_by_dates(
        &dates,
        &Date { year: 2020, month: 1, day: 1 },
        &Date { year: 2023, month: 2, day: 26 },
    );
    assert_eq!(removed, 2);
    assert_eq!(history.entries().len(), 2);
    assert_eq!(history.entries()[0].command(), "three");
    assert_eq!(history.entries()[1].command(), "four");
}

// The date-span fold on plain values: minimum and maximum in calendar
// order, slots without a date skipped, any input order.
#[test]
fn test_fold_date_range() {
    let empty: Vec<Option<Date>> = vec![None, None];
    assert_eq!(fold_date_range(&empty), None);
    assert_eq!(fold_date_range(&Vec::new()), None);

    let dates = vec![
        Some(Date { year: 2025, month: 12, day: 28 }),
        None,
        Some(Date { year: 2024, month: 2, day: 6 }),
        Some(Date { year: 2024, month: 7, day: 1 }),
    ];
    assert_eq!(
        fold_date_range(&dates),
        Some((
            Date { year: 2024, month: 2, day: 6 },
            Date { year: 2025, month: 12, day: 28 }
        ))
    );
}
