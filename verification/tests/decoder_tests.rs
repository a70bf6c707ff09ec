use zsh_history_cleaner::decoder::{decode_records, ZshLines};
use zsh_history_cleaner::errors::HistoryError;
use zsh_history_cleaner::history::History;

// The metafication marker followed by a byte decodes to that byte XOR 0x20.
#[test]
fn test_metafied_byte_is_unmasked() {
    // 0x83 0x4E decodes to 0x6E, the letter n.
    let mut content: Vec<u8> = Vec::new();
    content.extend_from_slice(b": 1731884069:0;echo \x83\x4E\n");
    let history = History::from_content("test_history".to_string(), &content).unwrap();
    assert_eq!(history.entries().len(), 1);
    assert_eq!(history.entries()[0].command(), "echo n");
}

// A marker byte at the very end of a line is kept as it is, which makes
// the line invalid text.
#[test]
fn test_trailing_marker_fails_decoding() {
    let mut content: Vec<u8> = Vec::new();
    content.extend_from_slice(b": 1731884069:0;echo \x83\n");
    let result = History::from_content("test_history".to_string(), &content);
    match result {
        Err(HistoryError::LineEncodingError(_, _)) => {}
        Err(other) => panic!("expected LineEncodingError, got {:?}", other),
        Ok(_) => panic!("expected an error for a trailing marker byte"),
    }
}

// Physical lines come out one at a time, in file order.
#[test]
fn test_zsh_lines_iteration() {
    let content = b"first\nsecond\nthird".to_vec();
    let mut lines = ZshLines::new(&content).unwrap();
    assert_eq!(lines.next(), Some("first".to_string()));
    assert_eq!(lines.next(), Some("second".to_string()));
    assert_eq!(lines.next(), Some("third".to_string()));
    assert_eq!(lines.next(), None);
}

// Continuation lines are joined with a literal newline, the backslash
// kept; a trailing partial record is emitted rather than dropped.
#[test]
fn test_decode_records_continuation_and_partial() {
    let content = b"alpha\\\nbeta\ngamma\\".to_vec();
    let records = decode_records(&content).unwrap();
    assert_eq!(records.len(), 2);
    assert_eq!(records[0], "alpha\\\nbeta");
    assert_eq!(records[1], "gamma\\");
}

// Trailing whitespace is trimmed from each physical line before joining.
#[test]
fn test_decode_records_trims_trailing_whitespace() {
    let content = b"one   \ntwo\t\n".to_vec();
    let records = decode_records(&content).unwrap();
    assert_eq!(records, vec!["one".to_string(), "two".to_string()]);
}

// Carriage returns before the newline are trimmed like other whitespace.
#[test]
fn test_decode_records_strips_carriage_return() {
    let content = b"one\r\ntwo\r\n".to_vec();
    let records = decode_records(&content).unwrap();
    assert_eq!(records, vec!["one".to_string(), "two".to_string()]);
}

// An empty input decodes to no records at all.
#[test]
fn test_decode_records_empty_input() {
    let content: Vec<u8> = Vec::new();
    let records = decode_records(&content).unwrap();
    assert_eq!(records, Vec::<String>::new());
}

// A carriage return directly before a line's newline terminator is
// dropped with it; a final line without a terminator keeps its bytes.
#[test]
fn test_zsh_lines_crlf() {
    let content = b"a\r\nb\r".to_vec();
    let mut lines = ZshLines::new(&content).unwrap();
    assert_eq!(lines.next(), Some("a".to_string()));
    assert_eq!(lines.next(), Some("b\r".to_string()));
    assert_eq!(lines.next(), None);
}
