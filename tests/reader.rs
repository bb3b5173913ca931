use topgrep::reader::{ReadError, SnapshotReader};
use topgrep::snapshot::Snapshot;
use topgrep::text::{header_time, parse_pid, split_fields, trimmed};

fn read_all(lines: &[&str]) -> (Vec<Snapshot>, Result<Option<Snapshot>, ReadError>) {
    let mut reader = SnapshotReader::new();
    let mut out = Vec::new();
    for line in lines {
        if let Some(s) = reader.feed(line) {
            out.push(s);
        }
    }
    (out, reader.finish())
}

fn column<'a>(s: &'a Snapshot, name: &str) -> &'a Vec<String> {
    let c = s.columns.iter().position(|x| x == name).unwrap();
    &s.table[c]
}

#[test]
fn header_stamp_is_text_between_top_and_up() {
    let (t, cs) = trimmed("  top - 12:00:01 up 3 days,  2 users\n");
    assert_eq!(header_time(t, &cs), Some("12:00:01".to_string()));
    let (t, cs) = trimmed("top - a up b up c");
    assert_eq!(header_time(t, &cs), Some("a".to_string()));
    let (t, cs) = trimmed("top -  up");
    assert_eq!(header_time(t, &cs), None);
    let (t, cs) = trimmed("Tasks: 100 total");
    assert_eq!(header_time(t, &cs), None);
    let (t, cs) = trimmed("top - 12:00:01 down");
    assert_eq!(header_time(t, &cs), None);
}

#[test]
fn trailing_field_keeps_command_arguments() {
    let (t, cs) = trimmed("1 root 0.0 firefox --profile /x y");
    let f = split_fields(t, &cs, 4);
    assert_eq!(f, vec!["1", "root", "0.0", "firefox --profile /x y"]);
    let (t, cs) = trimmed("  1   root  firefox   --profile /x  y ");
    let f = split_fields(t, &cs, 3);
    assert_eq!(f, vec!["1", "root", "firefox   --profile /x  y"]);
}

#[test]
fn trailing_field_in_snapshot() {
    let (snaps, end) = read_all(&[
        "top - 10:00:00 up 1 day",
        "",
        "PID USER %CPU COMMAND",
        "1 root 0.0 firefox --profile /x y",
        "",
    ]);
    assert_eq!(end, Ok(None));
    assert_eq!(snaps.len(), 1);
    assert_eq!(column(&snaps[0], "COMMAND"), &vec!["firefox --profile /x y".to_string()]);
    assert_eq!(column(&snaps[0], "PID"), &vec!["1".to_string()]);
}

#[test]
fn block_row_count_matches_data_lines() {
    let (snaps, end) = read_all(&[
        "banner before any block",
        "top - 12:00:01 up 2 min,  1 user",
        "Tasks: 3 total",
        "%Cpu(s): 1.0 us",
        "   ",
        "A B C",
        "1 2 3",
        "4 5 6",
        "7 8 9 10",
        "",
    ]);
    assert_eq!(end, Ok(None));
    assert_eq!(snaps.len(), 1);
    let s = &snaps[0];
    assert_eq!(s.time, "12:00:01");
    assert_eq!(s.columns, vec!["A", "B", "C"]);
    assert_eq!(s.nrows, 3);
    assert_eq!(s.table.len(), 3);
    for col in &s.table {
        assert_eq!(col.len(), 3);
    }
    assert_eq!(column(s, "C"), &vec!["3".to_string(), "6".to_string(), "9 10".to_string()]);
}

#[test]
fn ragged_row_is_dropped() {
    let (snaps, _) = read_all(&[
        "top - 12:00:01 up 2 min",
        "",
        "PID USER %CPU COMMAND",
        "1 root 0.5 init",
        "2 root",
        "3 user 1.5 bash",
        "",
    ]);
    let s = &snaps[0];
    assert_eq!(s.nrows, 2);
    assert_eq!(column(s, "PID"), &vec!["1".to_string(), "3".to_string()]);
    for col in &s.table {
        assert_eq!(col.len(), 2);
    }
}

#[test]
fn two_blocks_and_end_of_input() {
    let (snaps, end) = read_all(&[
        "top - 12:00:01 up 2 min",
        "",
        "PID COMMAND",
        "1 a",
        "",
        "top - 12:00:02 up 2 min",
        "",
        "PID COMMAND",
        "2 b",
    ]);
    assert_eq!(snaps.len(), 1);
    assert_eq!(snaps[0].time, "12:00:01");
    let last = end.unwrap().unwrap();
    assert_eq!(last.time, "12:00:02");
    assert_eq!(last.nrows, 1);
}

#[test]
fn input_ending_before_column_line_is_an_error() {
    let (snaps, end) = read_all(&["top - 12:00:01 up 2 min", "Tasks: 1"]);
    assert!(snaps.is_empty());
    assert_eq!(end.err(), Some(ReadError::TruncatedBlock));
    let (_, end) = read_all(&["top - 12:00:01 up 2 min", ""]);
    assert_eq!(end.err(), Some(ReadError::TruncatedBlock));
    let (snaps, end) = read_all(&["no block here"]);
    assert!(snaps.is_empty());
    assert_eq!(end, Ok(None));
}

#[test]
fn pid_parsing_follows_u32() {
    assert_eq!(parse_pid("42"), Some(42));
    assert_eq!(parse_pid("+7"), Some(7));
    assert_eq!(parse_pid("4294967295"), Some(4294967295));
    assert_eq!(parse_pid("4294967296"), None);
    assert_eq!(parse_pid("-1"), None);
    assert_eq!(parse_pid("+"), None);
    assert_eq!(parse_pid(""), None);
    assert_eq!(parse_pid("12a"), None);
}
