use capture::list::{alive, bytes_le, row_text, run, Entry, Scanned};
use capture::meta::Meta;

const HEADER: &str = "NAME             PID      STATUS     STARTED                  COMMAND";

fn meta(pid: u32, command: &[&str]) -> Meta {
    Meta::new(
        pid,
        command.iter().map(|w| w.to_string()).collect(),
        "2025-01-01T00:00:00Z".to_string(),
    )
}

fn scanned(name: &str, pid: u32, command: &[&str], alive: bool) -> Scanned {
    Scanned { name: name.to_string(), meta: Some(meta(pid, command)), alive }
}

fn unreadable(name: &str) -> Scanned {
    Scanned { name: name.to_string(), meta: None, alive: false }
}

fn expected_row(name: &str, pid: u32, status: &str, started: &str, command: &str) -> String {
    format!("{:<16} {:<8} {:<10} {:<24} {}", name, pid, status, started, command)
}

#[test]
fn list_empty() {
    assert_eq!(run(Vec::new()), vec!["no active captures"]);
}

#[test]
fn list_shows_running_capture() {
    let lines = run(vec![scanned("srv", 4242, &["sleep", "60"], true)]);
    assert_eq!(lines.len(), 2);
    assert_eq!(lines[0], HEADER);
    assert!(lines[1].contains("srv"));
    assert!(lines[1].contains("running"));
    assert!(lines[1].contains("sleep 60"));
    assert_eq!(
        lines[1],
        "srv              4242     running    2025-01-01T00:00:00Z     sleep 60"
    );
}

#[test]
fn list_shows_dead_capture() {
    let lines = run(vec![scanned("done", 17, &["echo", "bye"], false)]);
    assert_eq!(lines.len(), 2);
    assert!(lines[1].contains("done"));
    assert!(lines[1].contains("dead"));
    assert_eq!(
        lines[1],
        "done             17       dead       2025-01-01T00:00:00Z     echo bye"
    );
}

#[test]
fn list_shows_multiple_captures() {
    let lines = run(vec![
        scanned("beta", 2, &["sleep", "60"], true),
        scanned("alpha", 1, &["sleep", "60"], true),
    ]);
    assert_eq!(lines.len(), 3);
    assert_eq!(lines[0], HEADER);
    assert!(lines[1].contains("alpha"));
    assert!(lines[2].contains("beta"));
}

#[test]
fn list_tags_live_and_dead() {
    let lines = run(vec![
        scanned("live", 10, &["sleep", "60"], true),
        scanned("gone", 11, &["true"], false),
    ]);
    assert_eq!(
        lines,
        vec![
            HEADER.to_string(),
            expected_row("gone", 11, "dead", "2025-01-01T00:00:00Z", "true"),
            expected_row("live", 10, "running", "2025-01-01T00:00:00Z", "sleep 60"),
        ]
    );
}

#[test]
fn list_header_is_the_padded_titles() {
    assert_eq!(
        HEADER,
        format!("{:<16} {:<8} {:<10} {:<24} {}", "NAME", "PID", "STATUS", "STARTED", "COMMAND")
    );
}

#[test]
fn list_passes_over_unreadable_records() {
    let lines = run(vec![
        unreadable("broken"),
        scanned("good", 5, &["true"], false),
        unreadable("also-broken"),
    ]);
    assert_eq!(lines.len(), 2);
    assert_eq!(lines[1], expected_row("good", 5, "dead", "2025-01-01T00:00:00Z", "true"));
    assert_eq!(run(vec![unreadable("broken")]), vec!["no active captures"]);
}

#[test]
fn list_sorts_by_name_in_byte_order() {
    let mut names = vec!["b", "a", "B", "ab", "", "a-b", "aa", "ä", "z", "10", "9", "a b"];
    let lines = run(names.iter().map(|n| scanned(n, 1, &["x"], true)).collect());
    names.sort();
    let shown: Vec<String> = lines[1..].to_vec();
    let expected: Vec<String> = names
        .iter()
        .map(|n| expected_row(n, 1, "running", "2025-01-01T00:00:00Z", "x"))
        .collect();
    assert_eq!(shown, expected);
}

#[test]
fn list_does_not_depend_on_the_order_found() {
    let make = |order: &[usize]| -> Vec<Scanned> {
        let all = [("alpha", 1, true), ("beta", 2, false), ("gamma", 3, true)];
        let mut out: Vec<Scanned> = order
            .iter()
            .map(|i| scanned(all[*i].0, all[*i].1, &["sleep", "60"], all[*i].2))
            .collect();
        out.insert(1, unreadable("broken"));
        out
    };
    let first = run(make(&[0, 1, 2]));
    for order in [[0, 2, 1], [1, 0, 2], [1, 2, 0], [2, 0, 1], [2, 1, 0]] {
        assert_eq!(run(make(&order)), first);
    }
    assert_eq!(run(make(&[0, 1, 2])), first);
}

#[test]
fn list_no_longer_shows_what_was_removed() {
    let before = run(vec![
        scanned("keep", 1, &["sleep", "60"], true),
        scanned("foo", 2, &["sleep", "60"], true),
    ]);
    assert!(before.iter().any(|line| line.starts_with("foo ")));
    let after = run(vec![scanned("keep", 1, &["sleep", "60"], true)]);
    assert_eq!(after.len(), 2);
    assert!(!after.iter().any(|line| line.starts_with("foo ")));
}

#[test]
fn row_does_not_cut_long_columns() {
    let entry = Entry {
        name: "a-name-longer-than-the-column".to_string(),
        meta: Meta::new(4294967295, vec![], "a start time longer than its column".to_string()),
        alive: true,
    };
    assert_eq!(
        row_text(&entry),
        expected_row(
            "a-name-longer-than-the-column",
            4294967295,
            "running",
            "a start time longer than its column",
            ""
        )
    );
}

#[test]
fn row_counts_characters_not_bytes() {
    let entry = Entry {
        name: "äöü".to_string(),
        meta: Meta::new(0, vec!["echo".to_string(), "".to_string(), "x y".to_string()], "t".to_string()),
        alive: false,
    };
    assert_eq!(row_text(&entry), expected_row("äöü", 0, "dead", "t", "echo  x y"));
}

#[test]
fn alive_is_a_probe_that_returned_zero() {
    assert!(alive(Some(0)));
    assert!(!alive(Some(-1)));
    assert!(!alive(Some(1)));
    assert!(!alive(None));
}

#[test]
fn bytes_le_is_the_order_of_byte_strings() {
    let all: [&[u8]; 8] = [b"", b"a", b"aa", b"ab", b"b", b"B", &[255], &[0]];
    for x in all {
        for y in all {
            assert_eq!(bytes_le(x, y), x <= y);
        }
    }
}
