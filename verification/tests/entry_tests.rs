use chrono::Datelike;
use zsh_history_cleaner::entry::HistoryEntry;
use zsh_history_cleaner::errors::HistoryError;

// Test with simple commands without special characters or multiple lines
#[test]
fn entry_test_parsing_simple_history_entry() {
    let sleep = HistoryEntry::try_from(": 1731884069:0;sleep 2").unwrap();

    assert_eq!(sleep.command(), "sleep 2");
    assert_eq!(*sleep.timestamp(), 1731884069);
    assert_eq!(sleep.duration(), 0);

    let cargo_build = HistoryEntry::try_from(": 1731884069:10;cargo build").unwrap();

    assert_eq!(cargo_build.command(), "cargo build");
    assert_eq!(*cargo_build.timestamp(), 1731884069);
    assert_eq!(cargo_build.duration(), 10);
}

// Test with a command that includes a backslash for line continuation
#[test]
fn test_two_lines_command() {
    let cmd = r#": 1731622185:9;brew update\
brew install opentofu"#;
    let entry = HistoryEntry::try_from(cmd).unwrap();
    let expected_cmd = r#"brew update\
brew install opentofu"#;

    assert_eq!(*entry.timestamp(), 1731622185);
    assert_eq!(entry.duration(), 9);
    assert_eq!(entry.command(), expected_cmd);
}

// Test with a command that spans multiple lines using backslashes
#[test]
fn test_multiple_lines_command() {
    let cmd = r#": 1733005037:0;docker run -d --name mysql \\
-v mysql:/var/lib/mysql \\
-e MYSQL_ROOT_PASSWORD=vaalala -e MYSQL_DATABASE=vaalala -e MYSQL_USER=vaalala \\
-e MYSQL_PASSWORD=vaalala \\
-p 3306:3306 mysql:8
"#;
    let entry = HistoryEntry::try_from(cmd).unwrap();

    let expected_cmd = r#"docker run -d --name mysql \\
-v mysql:/var/lib/mysql \\
-e MYSQL_ROOT_PASSWORD=vaalala -e MYSQL_DATABASE=vaalala -e MYSQL_USER=vaalala \\
-e MYSQL_PASSWORD=vaalala \\
-p 3306:3306 mysql:8
"#;
    println!("{}", entry.command());
    assert_eq!(entry.command(), expected_cmd);
}

// Test with a command that includes a backslash at the end of the line
#[test]
fn entry_test_multiline_command_back_slash_at_the_end() {
    let cmd = r#": 1732663091:0;echo 'hello hacha\
world'\"#;
    let entry = HistoryEntry::try_from(cmd).unwrap();
    let expected_cmd = r#"echo 'hello hacha\
world'\"#;

    assert_eq!(*entry.timestamp(), 1732663091);
    assert_eq!(entry.duration(), 0);
    assert_eq!(entry.command(), expected_cmd);
}

// Test the conversion of HistoryEntry back to the original history line format
#[test]
fn entry_test_to_history_line() {
    let cmds = [
        ": 1731317544:12;for d in VWT.*; do l $d; done",
        r#": 1733005037:0;docker run -d --name mysql \\
-v mysql:/var/lib/mysql \\
-e MYSQL_ROOT_PASSWORD=vaalala -e MYSQL_DATABASE=vaalala -e MYSQL_USER=vaalala \\
-e MYSQL_PASSWORD=vaalala \\
-p 3306:3306 mysql:8
"#,
    ];

    for cmd in cmds {
        let entry = HistoryEntry::try_from(cmd).unwrap();
        assert_eq!(entry.to_history_line(), cmd);
    }
}

// Specifically test the conversion for a multi-line command
#[test]
fn test_to_history_line_for_multiple_lines() {
    let cmd = r#": 1733005037:0;docker run -d --name mysql \\
-v mysql:/var/lib/mysql \\
-e MYSQL_ROOT_PASSWORD=vaalala -e MYSQL_DATABASE=vaalala -e MYSQL_USER=vaalala \\
-e MYSQL_PASSWORD=vaalala \\
-p 3306:3306 mysql:8
"#;
    let for_loop = HistoryEntry::try_from(cmd).unwrap();
    assert_eq!(for_loop.to_history_line(), cmd.to_string());
}

// Test with a more complex command that includes special characters and multiple statements
#[test]
fn entry_test_parsing_complex_history_entry() {
    let complex = HistoryEntry::try_from(": 1731317544:12;for d in VWT.*; do l $d; done").unwrap();

    assert_eq!(complex.command(), "for d in VWT.*; do l $d; done");
    assert_eq!(*complex.timestamp(), 1731317544);
    assert_eq!(complex.duration(), 12);
}

// Test with an invalid history entry that does not match the expected format
#[test]
fn entry_test_parsing_history_entry_no_matching() {
    let entry = HistoryEntry::try_from(": 1731884069;");
    assert!(matches!(
        entry.unwrap_err(),
        HistoryError::EntryMatchingError(_)
    ));
}

// Test with an invalid history entry that has a negative duration
#[test]
fn entry_test_parsing_history_entry_from_invalid_duration() {
    let entry = HistoryEntry::try_from(": 1731884069:-10;sleep 2");
    assert!(entry.is_err());
}

// Test the equality and inequality of HistoryEntry instances based on the command field
#[test]
fn entry_test_entry_equality() {
    let entry_1 = HistoryEntry::try_from(": 1731884069:0;ls").unwrap();
    let entry_2 = HistoryEntry::try_from(": 1731084669:10;ls").unwrap();
    assert_eq!(entry_1, entry_2);

    let entry_3 = HistoryEntry::try_from(": 1731084669:1;terraform apply").unwrap();
    assert_ne!(entry_1, entry_3);
}

#[test]
fn history_entry_test_parsing_simple_history_entry() {
    let sleep = HistoryEntry::try_from(": 1731884069:0;sleep 2").unwrap();

    assert_eq!(sleep.command(), "sleep 2");
    assert_eq!(*sleep.timestamp(), 1731884069);
    assert_eq!(sleep.duration(), 0);

    let cargo_build = HistoryEntry::try_from(": 1731884069:10;cargo build").unwrap();

    assert_eq!(cargo_build.command(), "cargo build");
    assert_eq!(*cargo_build.timestamp(), 1731884069);
    assert_eq!(cargo_build.duration(), 10);
}

#[test]
fn test_multiline_command() {
    let cmd = r#": 1731622185:9;brew update\
    brew install opentofu"#;
    let entry = HistoryEntry::try_from(cmd).unwrap();
    let expected_cmd = r#"brew update\
    brew install opentofu"#;

    assert_eq!(*entry.timestamp(), 1731622185);
    assert_eq!(entry.duration(), 9);
    assert_eq!(entry.command(), expected_cmd);
}

#[test]
fn history_entry_test_multiline_command_back_slash_at_the_end() {
    let cmd = r#": 1732663091:0;echo 'hello hacha\
world'\"#;
    let entry = HistoryEntry::try_from(cmd).unwrap();
    let expected_cmd = r#"echo 'hello hacha\
world'\"#;

    assert_eq!(*entry.timestamp(), 1732663091);
    assert_eq!(entry.duration(), 0);
    assert_eq!(entry.command(), expected_cmd);
}

#[test]
fn history_entry_test_to_history_line() {
    let cmd = ": 1731317544:12;for d in VWT.*; do l $d; done";
    let for_loop = HistoryEntry::try_from(cmd).unwrap();
    assert_eq!(for_loop.to_history_line(), cmd.to_string());
}

#[test]
fn history_entry_test_parsing_complex_history_entry() {
    let complex = HistoryEntry::try_from(": 1731317544:12;for d in VWT.*; do l $d; done").unwrap();

    assert_eq!(complex.command(), "for d in VWT.*; do l $d; done");
    assert_eq!(*complex.timestamp(), 1731317544);
    assert_eq!(complex.duration(), 12);
}

#[test]
fn history_entry_test_parsing_history_entry_no_matching() {
    let entry = HistoryEntry::try_from(": 1731884069;");
    assert!(matches!(
        entry.unwrap_err(),
        HistoryError::EntryMatchingError(_)
    ));
}

#[test]
fn history_entry_test_parsing_history_entry_from_invalid_duration() {
    let entry = HistoryEntry::try_from(": 1731884069:-10;sleep 2");
    assert!(entry.is_err());
}

#[test]
fn history_entry_test_entry_equality() {
    let entry_1 = HistoryEntry::try_from(": 1731884069:0;ls").unwrap();
    let entry_2 = HistoryEntry::try_from(": 1731084669:10;ls").unwrap();
    assert_eq!(entry_1, entry_2);

    let entry_3 = HistoryEntry::try_from(": 1731084669:1;terraform apply").unwrap();
    assert_ne!(entry_1, entry_3);
}

#[test]
fn test_display_history() {
    let history = HistoryEntry::try_from(": 1731884069:10;cd ~").unwrap();
    assert_eq!(
        "Command: 'cd ~', Executed at: 1731884069, Duration: 10s",
        history.describe()
    );
}

// An elapsed field too large for 64 bits is rejected with the digit run.
#[test]
fn test_parsing_history_entry_elapsed_overflow() {
    let entry = HistoryEntry::try_from(": 1731884069:99999999999999999999;sleep 2");
    match entry.unwrap_err() {
        HistoryError::ParseIntError(digits) => {
            assert_eq!(digits, "99999999999999999999");
        }
        other => panic!("expected ParseIntError, got {:?}", other),
    }
}

// Round trip: encoding the parsed entry reproduces the record exactly.
#[test]
fn test_round_trip_identity() {
    let records = [
        ": 1731884069:0;sleep 2",
        ": 1731884069:10;cargo build",
        ": 1731317544:12;for d in VWT.*; do l $d; done",
        ": 1732663091:0;echo 'a: b; c'",
    ];
    for record in records {
        let entry = HistoryEntry::try_from(record).unwrap();
        assert_eq!(entry.to_history_line(), record);
    }
}

#[test]
fn test_timestamp_as_local_date_time() {
    let entry = HistoryEntry::try_from(": 1759099958:0;ls").unwrap();
    let date = entry.timestamp_as_local_date().unwrap();

    let expected = chrono::DateTime::from_timestamp(1759099958, 0)
        .unwrap()
        .with_timezone(&chrono::Local)
        .date_naive();
    assert_eq!(date.year, expected.year() as i64);
    assert_eq!(date.month, expected.month() as u8);
    assert_eq!(date.day, expected.day() as u8);

    assert_eq!(*entry.timestamp(), 1759099958);
}

#[test]
fn test_timestamp_as_local_date_time_edge_cases() {
    // Test timestamp 0 (Unix epoch)
    let entry_zero = HistoryEntry::try_from(": 0000000000:0;ls").unwrap();
    assert!(entry_zero.timestamp_as_local_date().is_some());
}
