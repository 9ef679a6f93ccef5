use capture::lines::LineBuffer;
use capture::logs::{
    keep_matching, plan, print, run, tail_follow, take_window, Follower, Next, Plan, Polled,
    POLL_MILLIS,
};
use capture::start::{tee, Chunk};

fn bytes(lines: &[&str]) -> Vec<Vec<u8>> {
    lines.iter().map(|l| l.as_bytes().to_vec()).collect()
}

/// The log that the duplication of `stream` writes.
fn captured(stream: &[u8]) -> Vec<u8> {
    let mut buffer = LineBuffer::new();
    let mut log: Vec<u8> = Vec::new();
    for chunk in stream.chunks(3) {
        for piece in tee(&mut buffer, Chunk::Data(chunk.to_vec())).writes {
            log.extend(piece);
        }
    }
    for piece in tee(&mut buffer, Chunk::End).writes {
        log.extend(piece);
    }
    log
}

#[test]
fn logs_default() {
    let log = captured(b"hello\n");
    let out = run(&log, None, None, None);
    assert_eq!(print(&out), b"hello\n");
}

#[test]
fn logs_lines() {
    let log = captured(b"a\nb\nc\nd\n");
    let out = run(&log, Some(2), None, None);
    assert_eq!(out, bytes(&["c", "d"]));
    assert_eq!(print(&out), b"c\nd\n");
}

#[test]
fn logs_head() {
    let log = captured(b"a\nb\nc\nd\n");
    let out = run(&log, None, Some(2), None);
    assert_eq!(out, bytes(&["a", "b"]));
    assert_eq!(print(&out), b"a\nb\n");
}

#[test]
fn logs_grep() {
    let log = captured(b"apple\nbanana\napricot\n");
    let out = run(&log, None, None, Some("ap"));
    assert_eq!(out, bytes(&["apple", "apricot"]));
    assert_eq!(print(&out), b"apple\napricot\n");
}

#[test]
fn logs_stderr_flag() {
    let stdout_log = captured(b"");
    let stderr_log = captured(b"err\n");
    let file = match plan("/h/.capture/foo", "foo", true, false, true) {
        Plan::Print { path } => path,
        _ => panic!("the log of an existing capture is printed"),
    };
    assert_eq!(file, "/h/.capture/foo/stderr.log");
    let other = match plan("/h/.capture/foo", "foo", true, false, false) {
        Plan::Print { path } => path,
        _ => panic!("the log of an existing capture is printed"),
    };
    assert_eq!(other, "/h/.capture/foo/stdout.log");
    assert_eq!(print(&run(&stderr_log, None, None, None)), b"err\n");
    assert_eq!(print(&run(&stdout_log, None, None, None)), b"");
}

#[test]
fn logs_missing_errors() {
    match plan("/h/.capture/nope", "nope", false, false, false) {
        Plan::Missing { diagnostic, code } => {
            assert_eq!(code, 1);
            assert_eq!(diagnostic, "error: no capture 'nope'");
        }
        _ => panic!("a capture that is not there has no log"),
    }
    for (follow, stderr) in [(true, false), (false, true), (true, true)] {
        assert!(matches!(
            plan("/h/.capture/nope", "nope", false, follow, stderr),
            Plan::Missing { code: 1, .. }
        ));
    }
}

#[test]
fn plan_follows_where_asked() {
    match plan("/h/.capture/foo", "foo", true, true, false) {
        Plan::Follow { path } => assert_eq!(path, "/h/.capture/foo/stdout.log"),
        _ => panic!("the log is followed"),
    }
    match plan("/h/.capture/foo", "foo", true, true, true) {
        Plan::Follow { path } => assert_eq!(path, "/h/.capture/foo/stderr.log"),
        _ => panic!("the log is followed"),
    }
}

#[test]
fn logs_slice_is_all_where_fewer_lines() {
    let log = b"a\nb\n";
    assert_eq!(run(log, Some(5), None, None), bytes(&["a", "b"]));
    assert_eq!(run(log, None, Some(5), None), bytes(&["a", "b"]));
    assert_eq!(run(log, Some(2), None, None), bytes(&["a", "b"]));
    assert_eq!(run(log, None, Some(2), None), bytes(&["a", "b"]));
    assert_eq!(run(log, Some(0), None, None), bytes(&[]));
    assert_eq!(run(log, None, Some(0), None), bytes(&[]));
    assert_eq!(run(log, Some(usize::MAX), None, None), bytes(&["a", "b"]));
    assert_eq!(run(log, None, Some(usize::MAX), None), bytes(&["a", "b"]));
    assert_eq!(run(b"", Some(1), None, None), bytes(&[]));
}

#[test]
fn logs_head_goes_before_tail() {
    let log = b"a\nb\nc\nd\n";
    assert_eq!(run(log, Some(1), Some(2), None), bytes(&["a", "b"]));
    assert_eq!(run(log, Some(3), Some(0), None), bytes(&[]));
}

#[test]
fn logs_filter_goes_before_slice() {
    let log = b"apple\nbanana\napricot\navocado\ngrape\n";
    assert_eq!(run(log, Some(2), None, Some("ap")), bytes(&["apricot", "grape"]));
    assert_eq!(run(log, None, Some(2), Some("ap")), bytes(&["apple", "apricot"]));
    assert_eq!(run(log, Some(1), None, Some("an")), bytes(&["banana"]));
    assert_eq!(run(log, None, None, Some("zz")), bytes(&[]));
    assert_eq!(run(log, None, None, Some("")).len(), 5);
    assert_eq!(run(log, None, None, Some("Apple")), bytes(&[]));
}

#[test]
fn logs_reads_an_unterminated_last_line() {
    assert_eq!(run(b"a\nb", None, None, None), bytes(&["a", "b"]));
    assert_eq!(run(&captured(b"a\nb"), Some(1), None, None), bytes(&["b"]));
}

#[test]
fn logs_are_repeatable() {
    let log = captured(b"one\ntwo\nthree\n");
    let first = run(&log, Some(2), None, Some("t"));
    let second = run(&log, Some(2), None, Some("t"));
    assert_eq!(first, second);
    assert_eq!(first, bytes(&["two", "three"]));
}

#[test]
fn logs_read_back_what_was_written() {
    let lines = bytes(&["", "x", "two words", "tab\there", "ä"]);
    assert_eq!(run(&print(&lines), None, None, None), lines);
}

#[test]
fn keep_matching_keeps_order() {
    let lines = bytes(&["b1", "a", "b2", "", "b3"]);
    assert_eq!(keep_matching(lines, b"b"), bytes(&["b1", "b2", "b3"]));
}

#[test]
fn take_window_takes_head_or_tail() {
    let lines = bytes(&["1", "2", "3"]);
    assert_eq!(take_window(lines.clone(), None, None), lines);
    assert_eq!(take_window(lines.clone(), Some(1), None), bytes(&["1"]));
    assert_eq!(take_window(lines.clone(), None, Some(1)), bytes(&["3"]));
    assert_eq!(take_window(lines.clone(), Some(2), Some(1)), bytes(&["1", "2"]));
}

#[test]
fn print_ends_each_line() {
    assert_eq!(print(&bytes(&[])), b"");
    assert_eq!(print(&bytes(&[""])), b"\n");
    assert_eq!(print(&bytes(&["a", "", "b"])), b"a\n\nb\n");
}

fn printed(next: Next) -> Vec<Vec<u8>> {
    match next {
        Next::Print(lines) => lines,
        _ => panic!("new bytes are answered with lines to print"),
    }
}

#[test]
fn follow_prints_complete_lines_only() {
    let mut follower = Follower::new(None);
    assert_eq!(printed(tail_follow(&mut follower, Polled::Data(b"a\nb".to_vec()))), bytes(&["a"]));
    assert_eq!(printed(tail_follow(&mut follower, Polled::Data(b"c".to_vec()))), bytes(&[]));
    assert_eq!(
        printed(tail_follow(&mut follower, Polled::Data(b"\nd\n".to_vec()))),
        bytes(&["bc", "d"])
    );
    assert_eq!(printed(tail_follow(&mut follower, Polled::Data(b"\n".to_vec()))), bytes(&[""]));
}

#[test]
fn follow_keeps_a_carriage_return() {
    let mut follower = Follower::new(None);
    assert_eq!(
        printed(tail_follow(&mut follower, Polled::Data(b"a\r\n".to_vec()))),
        bytes(&["a\r"])
    );
}

#[test]
fn follow_applies_the_filter() {
    let mut follower = Follower::new(Some("ap"));
    let data = Polled::Data(b"apple\nbanana\napri".to_vec());
    assert_eq!(printed(tail_follow(&mut follower, data)), bytes(&["apple"]));
    let data = Polled::Data(b"cot\ngrape\nplum\n".to_vec());
    assert_eq!(printed(tail_follow(&mut follower, data)), bytes(&["apricot", "grape"]));
}

#[test]
fn follow_sleeps_when_nothing_is_new() {
    assert_eq!(POLL_MILLIS, 100);
    let mut follower = Follower::new(None);
    tail_follow(&mut follower, Polled::Data(b"par".to_vec()));
    assert!(matches!(tail_follow(&mut follower, Polled::Idle), Next::Sleep(100)));
    assert!(matches!(tail_follow(&mut follower, Polled::Idle), Next::Sleep(100)));
    let data = Polled::Data(b"tial\n".to_vec());
    assert_eq!(printed(tail_follow(&mut follower, data)), bytes(&["partial"]));
}

#[test]
fn follow_halts_on_a_failed_read() {
    let mut follower = Follower::new(None);
    match tail_follow(&mut follower, Polled::Failed("broken".to_string())) {
        Next::Halt(diagnostic) => assert_eq!(diagnostic, "error reading log: broken"),
        _ => panic!("a failed read ends the following"),
    }
}
