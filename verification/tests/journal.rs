use photorg::journal::{is_blank, lines_of, load, needs_newline, record, record_if_done, Entry};
use photorg::plan::{Action, Operation, Reason};

fn op(source: &str, dest: Option<&str>, action: Action) -> Operation {
    Operation {
        source_rel: source.into(),
        dest_rel: dest.map(Into::into),
        action,
        reason: Reason::Planned,
        bytes: 1,
        duplicate_of: None,
    }
}

fn entry(source: &str, destination: &str) -> Entry {
    Entry {
        source: source.into(),
        destination: destination.into(),
    }
}

#[test]
fn round_trips_completed_operations() {
    let lines: Vec<Option<Entry>> = vec![
        record_if_done(&op("a.jpg", Some("2026/a.jpg"), Action::Copy), true),
        record_if_done(&op("b.jpg", Some("2026/b.jpg"), Action::Copy), false),
        record_if_done(&op("c.jpg", Some("2026/c.jpg"), Action::Skip), true),
    ];
    assert_eq!(lines.iter().filter(|l| l.is_some()).count(), 1);
    let done = load(lines);
    assert_eq!(done.get("a.jpg").map(|d| d.as_str()), Some("2026/a.jpg"));
    assert!(!done.contains("b.jpg"));
    assert!(!done.contains("c.jpg"));
}

#[test]
fn appends_across_runs() {
    let first = record(&op("a.jpg", Some("a.jpg"), Action::Copy));
    let second = record(&op("b.jpg", Some("b.jpg"), Action::Copy));
    let done = load(vec![first, second]);
    assert!(done.contains("a.jpg"));
    assert!(done.contains("b.jpg"));
}

#[test]
fn a_truncated_last_line_is_ignored() {
    // The second line does not parse.
    let done = load(vec![Some(entry("a.jpg", "a.jpg")), None]);
    assert!(done.contains("a.jpg"));
    assert!(!done.contains("b.jpg"));
    assert!(!done.contains("b.jp"));
}

#[test]
fn later_lines_win() {
    let done = load(vec![
        Some(entry("a.jpg", "old/a.jpg")),
        Some(entry("a.jpg", "new/a.jpg")),
    ]);
    assert_eq!(done.get("a.jpg").map(|d| d.as_str()), Some("new/a.jpg"));
}

#[test]
fn operations_without_a_destination_leave_no_line() {
    assert!(record(&op("a.jpg", None, Action::Copy)).is_none());
}

#[test]
fn blank_lines_are_told() {
    assert!(is_blank(""));
    assert!(is_blank(" \t\r\n"));
    assert!(!is_blank("{}"));
}

#[test]
fn a_line_that_is_not_text_is_no_entry() {
    let lines = lines_of(b"one\ntw\xc3\n\nfour\r\nfi\xff");
    assert_eq!(
        lines,
        vec![
            Some("one".to_string()),
            None,
            Some(String::new()),
            Some("four\r".to_string()),
            None,
        ]
    );
    assert_eq!(lines_of(b""), vec![Some(String::new())]);
}

#[test]
fn a_cut_line_is_ended_before_the_next_one() {
    assert!(!needs_newline(b""));
    assert!(!needs_newline(b"{}\n"));
    assert!(needs_newline(b"{}\n{\"sou"));
    let mut file = b"{}\n{\"sou".to_vec();
    file.push(b'\n');
    file.extend(b"next\n");
    let lines = lines_of(&file);
    assert_eq!(lines[lines.len() - 2].as_deref(), Some("next"));
}
