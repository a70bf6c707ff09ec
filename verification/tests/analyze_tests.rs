use zsh_history_cleaner::analyze::HistoryAnalyzer;
use zsh_history_cleaner::format_rank_icon;
use zsh_history_cleaner::history::History;

fn history_from(content: &str) -> History {
    let bytes = format!("{}\n", content).into_bytes();
    History::from_content("test_history".to_string(), &bytes).unwrap()
}

// The spec's ranking scenario: ties are broken by ascending lexicographic
// order, so the result order is fixed.
#[test]
fn test_top_n_commands_tie_break() {
    let cmds = [
        ": 1000000001:0;ls",
        ": 1000000002:0;pwd",
        ": 1000000003:0;ls",
        ": 1000000004:0;cd",
        ": 1000000005:0;pwd",
        ": 1000000006:0;ls",
        ": 1000000007:0;pwd",
    ];
    let history = history_from(cmds.join("\n").as_str());
    let top = history.top_n_commands(2);
    assert_eq!(
        top,
        vec![("ls".to_string(), 3), ("pwd".to_string(), 3)]
    );
}

#[test]
fn test_top_n_commands_zero_and_empty() {
    let history = history_from(": 1000000001:0;ls");
    assert_eq!(history.top_n_commands(0), Vec::<(String, usize)>::new());

    let empty = history_from("");
    assert_eq!(empty.top_n_commands(5), Vec::<(String, usize)>::new());
}

#[test]
fn test_top_n_commands_counts() {
    let cmds = [
        ": 1000000001:0;git status",
        ": 1000000002:0;git push",
        ": 1000000003:0;git status",
        ": 1000000004:0;ls -la",
    ];
    let history = history_from(cmds.join("\n").as_str());
    let top = history.top_n_commands(10);
    assert_eq!(
        top,
        vec![
            ("git status".to_string(), 2),
            ("git push".to_string(), 1),
            ("ls -la".to_string(), 1),
        ]
    );
}

// Binaries are the first whitespace-delimited token of each command.
#[test]
fn test_top_n_binaries() {
    let cmds = [
        ": 1000000001:0;git status",
        ": 1000000002:0;git push",
        ": 1000000003:0;ls -la",
        ": 1000000004:0;   ",
    ];
    let history = history_from(cmds.join("\n").as_str());
    let top = history.top_n_binaries(10);
    assert_eq!(
        top,
        vec![("git".to_string(), 2), ("ls".to_string(), 1)]
    );
}

// The analyzer delegates to the history's statistics.
#[test]
fn test_analyzer_delegation() {
    let cmds = [
        ": 1000000001:0;ls",
        ": 1000000002:0;ls",
        ": 1000000003:0;pwd",
    ];
    let history = history_from(cmds.join("\n").as_str());
    let analyzer = HistoryAnalyzer::new(&history);
    assert_eq!(
        analyzer.top_n_commands(1),
        vec![("ls".to_string(), 2)]
    );
    assert_eq!(
        analyzer.top_n_binaries(1),
        vec![("ls".to_string(), 2)]
    );
    assert_eq!(analyzer.duplicate_count(), 1);
    assert!(analyzer.date_range().is_some());
}

#[test]
fn test_analyze_summary() {
    let cmds = [
        ": 1707258478:0;ls",
        ": 1707258479:0;ls",
        ": 1707258480:0;pwd",
    ];
    let history = history_from(cmds.join("\n").as_str());
    let analysis = history.analyze_by_time();
    assert_eq!(analysis.filename, "test_history");
    assert_eq!(analysis.size, 3);
    assert_eq!(analysis.top_n_commands.len(), 2);
    assert_eq!(analysis.top_n_commands[0], ("ls".to_string(), 2));
    assert_eq!(analysis.top_n_binaries[0], ("ls".to_string(), 2));
}

#[test]
fn test_format_rank_icon() {
    assert_eq!(format_rank_icon(1), "\u{1F947}");
    assert_eq!(format_rank_icon(2), "\u{1F948}");
    assert_eq!(format_rank_icon(3), "\u{1F949}");
    assert_eq!(format_rank_icon(4), "4");
    assert_eq!(format_rank_icon(17), "17");
}
