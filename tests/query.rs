use topgrep::fold::{ClosedGroup, Fold};
use topgrep::query::{Query, QueryError};
use topgrep::reader::SnapshotReader;
use topgrep::snapshot::Snapshot;

fn snapshot(time: &str, columns: &[&str], rows: &[&[&str]]) -> Snapshot {
    Snapshot::from_rows(
        time.to_string(),
        columns.iter().map(|c| c.to_string()).collect(),
        rows.iter().map(|r| r.iter().map(|v| v.to_string()).collect()).collect(),
    )
}

fn cpu_sum(q: &Query, s: &Snapshot) -> Result<f64, QueryError> {
    let vals = q.cpu_values(s)?;
    Ok(vals.iter().map(|v| v.parse::<f64>().unwrap()).sum())
}

fn sample() -> Snapshot {
    snapshot(
        "12:00:01",
        &["PID", "USER", "%CPU", "COMMAND"],
        &[
            &["1", "root", "0.5", "init"],
            &["42", "me", "3.5", "myproc"],
            &["43", "me", "1.0", "myproc"],
        ],
    )
}

#[test]
fn process_get_reads_by_column_name() {
    let s = sample();
    let rows = s.iter();
    assert_eq!(rows.len(), 3);
    assert_eq!(rows[1].get("PID"), Some("42"));
    assert_eq!(rows[2].get("COMMAND"), Some("myproc"));
    assert_eq!(rows[0].get("NI"), None);
}

#[test]
fn match_by_pid_and_by_command() {
    let s = sample();
    let rows = s.iter();
    assert_eq!(Query::Pid(42).is_match(rows[1]), Ok(true));
    assert_eq!(Query::Pid(42).is_match(rows[0]), Ok(false));
    assert_eq!(Query::Command("myproc".to_string()).is_match(rows[2]), Ok(true));
    assert_eq!(Query::Command("myp".to_string()).is_match(rows[2]), Ok(false));
}

#[test]
fn bad_pid_field_is_an_error() {
    let s = snapshot("t", &["PID", "%CPU", "COMMAND"], &[&["x1", "0.0", "a"]]);
    assert_eq!(
        Query::Pid(1).cpu_values(&s),
        Err(QueryError::InvalidPid("x1".to_string()))
    );
    assert_eq!(Query::Command("a".to_string()).cpu_values(&s), Ok(vec!["0.0".to_string()]));
}

#[test]
fn missing_columns_are_errors() {
    let s = snapshot("t", &["PID", "%CPU"], &[&["1", "2.0"]]);
    assert_eq!(
        Query::Command("a".to_string()).cpu_values(&s),
        Err(QueryError::MissingColumn("COMMAND".to_string()))
    );
    let s = snapshot("t", &["PID", "COMMAND"], &[&["1", "a"]]);
    assert_eq!(
        Query::Pid(1).cpu_values(&s),
        Err(QueryError::MissingColumn("%CPU".to_string()))
    );
    assert_eq!(Query::Pid(2).cpu_values(&s), Ok(vec![]));
    let s = snapshot("t", &["COMMAND"], &[&["a"]]);
    assert_eq!(
        Query::Pid(2).cpu_values(&s),
        Err(QueryError::MissingColumn("PID".to_string()))
    );
}

#[test]
fn zero_matches_sum_to_zero() {
    let s = sample();
    assert_eq!(Query::Pid(9999).cpu_values(&s), Ok(vec![]));
    assert_eq!(cpu_sum(&Query::Pid(9999), &s), Ok(0.0));
}

#[test]
fn sum_over_matching_rows() {
    let s = sample();
    assert_eq!(
        Query::Command("myproc".to_string()).cpu_values(&s),
        Ok(vec!["3.5".to_string(), "1.0".to_string()])
    );
    assert_eq!(cpu_sum(&Query::Command("myproc".to_string()), &s), Ok(4.5));
}

#[test]
fn display_is_bare_payload() {
    assert_eq!(Query::Pid(42).display(), "42");
    assert_eq!(Query::Pid(0).display(), "0");
    assert_eq!(Query::Pid(4294967295).display(), "4294967295");
    assert_eq!(Query::Command("my proc".to_string()).display(), "my proc");
}

#[test]
fn non_folding_evaluation_is_repeatable() {
    let s = sample();
    let queries = vec![Query::Pid(42), Query::Command("myproc".to_string()), Query::Pid(42)];
    let first: Vec<_> = queries.iter().map(|q| q.cpu_values(&s)).collect();
    let second: Vec<_> = queries.iter().map(|q| q.cpu_values(&s)).collect();
    assert_eq!(first, second);
    assert_eq!(first[0], first[2]);
}

#[test]
fn fold_groups_equal_stamps() {
    let snaps = vec![
        snapshot("12:00:01", &["PID", "%CPU", "COMMAND"], &[&["7", "10.0", "a"]]),
        snapshot("12:00:01", &["PID", "%CPU", "COMMAND"], &[&["7", "20.0", "a"]]),
        snapshot("12:00:02", &["PID", "%CPU", "COMMAND"], &[&["7", "5.0", "a"]]),
    ];
    let q = Query::Pid(7);
    let mut fold = Fold::new();
    let mut sum = 0.0;
    let mut lines: Vec<(String, f64)> = Vec::new();
    let mut emitted_before_end = 0;
    for s in &snaps {
        if let Some(g) = fold.observe(&s.time) {
            lines.push((g.key.clone(), sum / g.count as f64));
            sum = 0.0;
        }
        sum += cpu_sum(&q, s).unwrap();
        emitted_before_end = lines.len();
    }
    assert_eq!(emitted_before_end, 1);
    assert_eq!(lines, vec![("12:00:01".to_string(), 15.0)]);
    let last = fold.finish().unwrap();
    assert_eq!(last, ClosedGroup { key: "12:00:02".to_string(), count: 1 });
    lines.push((last.key.clone(), sum / last.count as f64));
    assert_eq!(lines[1], ("12:00:02".to_string(), 5.0));
}

#[test]
fn fold_without_snapshots_emits_nothing() {
    let mut fold = Fold::new();
    assert_eq!(fold.count(), 0);
    assert_eq!(fold.observe("a"), None);
    assert_eq!(fold.observe("a"), None);
    assert_eq!(fold.count(), 2);
    assert_eq!(fold.observe("b"), Some(ClosedGroup { key: "a".to_string(), count: 2 }));
    assert_eq!(Fold::new().finish(), None);
}

#[test]
fn end_to_end_single_block() {
    let input = "top - 10:11:12 up 1 day\n\nPID COMMAND %CPU\n42 myproc 3.5\n";
    let q = Query::Pid(42);
    let mut reader = SnapshotReader::new();
    let mut out: Vec<String> = Vec::new();
    let mut snaps = Vec::new();
    for line in input.split_inclusive('\n') {
        if let Some(s) = reader.feed(line) {
            snaps.push(s);
        }
    }
    if let Some(s) = reader.finish().unwrap() {
        snaps.push(s);
    }
    for s in &snaps {
        let sum = cpu_sum(&q, s).unwrap();
        out.push(format!("{}\t{}\t{}", s.time, q.display(), sum));
    }
    assert_eq!(out, vec!["10:11:12\t42\t3.5".to_string()]);
}
