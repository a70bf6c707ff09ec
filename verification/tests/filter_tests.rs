use zsh_history_cleaner::filters::Filter;
use zsh_history_cleaner::history::History;

fn history_from(content: &str) -> History {
    let bytes = format!("{}\n", content).into_bytes();
    History::from_content("test_history".to_string(), &bytes).unwrap()
}

#[test]
fn test_filter_matches_case_sensitive() {
    let words = vec!["apply".to_string(), "plan".to_string()];
    let filter = Filter::new(&words, false);
    assert!(filter.matches("terraform apply -auto-approve"));
    assert!(filter.matches("tf plan"));
    assert!(!filter.matches("terraform APPLY"));
    assert!(!filter.matches("ls -la"));
}

#[test]
fn test_filter_matches_ignore_case() {
    let words = vec!["LS".to_string()];
    let filter = Filter::new(&words, true);
    assert!(filter.matches("ls -la"));
    assert!(filter.matches("LS"));
    assert!(!filter.matches("pwd"));
}

#[test]
fn test_filter_empty_words_match_nothing() {
    let words: Vec<String> = Vec::new();
    let filter = Filter::new(&words, true);
    assert!(!filter.matches("anything at all"));
    assert!(!filter.matches(""));
}

#[test]
fn test_remove_matching() {
    let cmds = [
        ": 1000000001:0;terraform apply",
        ": 1000000002:0;ls -la",
        ": 1000000003:0;terraform plan",
        ": 1000000004:0;pwd",
    ];
    let mut history = history_from(cmds.join("\n").as_str());
    let words = vec!["terraform".to_string()];
    let filter = Filter::new(&words, false);
    let removed = history.remove_matching(&filter);
    assert_eq!(removed, 2);
    assert_eq!(history.entries().len(), 2);
    assert_eq!(history.entries()[0].command(), "ls -la");
    assert_eq!(history.entries()[1].command(), "pwd");
}

#[test]
fn test_remove_matching_ignore_case() {
    let cmds = [": 1000000001:0;Echo HI", ": 1000000002:0;pwd"];
    let mut history = history_from(cmds.join("\n").as_str());
    let words = vec!["echo".to_string()];
    let filter = Filter::new(&words, true);
    let removed = history.remove_matching(&filter);
    assert_eq!(removed, 1);
    assert_eq!(history.entries().len(), 1);
    assert_eq!(history.entries()[0].command(), "pwd");
}
