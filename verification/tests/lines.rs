use capture::lines::{contains, read_lines, strip_terminator, LineBuffer};

fn bytes(lines: &[&str]) -> Vec<Vec<u8>> {
    lines.iter().map(|l| l.as_bytes().to_vec()).collect()
}

#[test]
fn feed_hands_out_complete_lines() {
    let mut buffer = LineBuffer::new();
    assert_eq!(buffer.feed(b"a\nb\nc"), bytes(&["a\n", "b\n"]));
    assert_eq!(buffer.feed(b"d\n"), bytes(&["cd\n"]));
    assert_eq!(buffer.finish(), b"");
}

#[test]
fn feed_holds_back_a_fragment() {
    let mut buffer = LineBuffer::new();
    assert_eq!(buffer.feed(b"par"), bytes(&[]));
    assert_eq!(buffer.feed(b"tial"), bytes(&[]));
    assert_eq!(buffer.finish(), b"partial");
    assert_eq!(buffer.finish(), b"");
}

#[test]
fn feed_of_nothing_gives_nothing() {
    let mut buffer = LineBuffer::new();
    assert_eq!(buffer.feed(b""), bytes(&[]));
    assert_eq!(buffer.feed(b"\n"), bytes(&["\n"]));
    assert_eq!(buffer.feed(b"\n\n"), bytes(&["\n", "\n"]));
}

#[test]
fn feed_does_not_depend_on_the_chunks() {
    let stream = b"one\ntwo\n\nthree and\r\nfour\nrest";
    let mut whole = LineBuffer::new();
    let expected = whole.feed(stream);
    let expected_rest = whole.finish();
    for size in 1..stream.len() {
        let mut buffer = LineBuffer::new();
        let mut lines: Vec<Vec<u8>> = Vec::new();
        for chunk in stream.chunks(size) {
            lines.extend(buffer.feed(chunk));
        }
        assert_eq!(lines, expected);
        assert_eq!(buffer.finish(), expected_rest);
    }
}

#[test]
fn feed_keeps_every_byte() {
    let stream: Vec<u8> = (0..=255u8).chain([10, 10, 13, 10, 0, 255]).collect();
    let mut buffer = LineBuffer::new();
    let mut written: Vec<u8> = Vec::new();
    for chunk in stream.chunks(7) {
        for line in buffer.feed(chunk) {
            assert_eq!(line.last(), Some(&10));
            assert_eq!(line.iter().filter(|b| **b == 10).count(), 1);
            written.extend(line);
        }
    }
    written.extend(buffer.finish());
    assert_eq!(written, stream);
}

#[test]
fn read_lines_strips_terminators() {
    assert_eq!(read_lines(b"a\nb\n"), bytes(&["a", "b"]));
    assert_eq!(read_lines(b"a\r\nb\r\n"), bytes(&["a", "b"]));
    assert_eq!(read_lines(b"a\nb"), bytes(&["a", "b"]));
    assert_eq!(read_lines(b"a\nb\r"), bytes(&["a", "b\r"]));
    assert_eq!(read_lines(b""), bytes(&[]));
    assert_eq!(read_lines(b"\n"), bytes(&[""]));
    assert_eq!(read_lines(b"\n\n"), bytes(&["", ""]));
    assert_eq!(read_lines(b"\r\r\n"), bytes(&["\r"]));
}

#[test]
fn read_lines_agrees_with_std_lines() {
    let texts = ["", "a", "a\n", "a\nb", "a\r\nb\n", "\n\n", "x\r", "x\r\n\r\n", "ä\nö"];
    for text in texts {
        let expected: Vec<Vec<u8>> = std::io::BufRead::lines(text.as_bytes())
            .map(|l| l.unwrap().into_bytes())
            .collect();
        assert_eq!(read_lines(text.as_bytes()), expected);
    }
}

#[test]
fn strip_terminator_takes_newline_and_carriage_return() {
    assert_eq!(strip_terminator(b"abc\n".to_vec()), b"abc");
    assert_eq!(strip_terminator(b"abc\r\n".to_vec()), b"abc");
    assert_eq!(strip_terminator(b"\n".to_vec()), b"");
    assert_eq!(strip_terminator(b"a\rb\n".to_vec()), b"a\rb");
    assert_eq!(strip_terminator(b"abc".to_vec()), b"abc");
    assert_eq!(strip_terminator(b"abc\r".to_vec()), b"abc\r");
    assert_eq!(strip_terminator(b"".to_vec()), b"");
}

#[test]
fn contains_finds_substrings() {
    assert!(contains(b"apple", b"ap"));
    assert!(contains(b"apple", b"le"));
    assert!(contains(b"apple", b"apple"));
    assert!(contains(b"apple", b"ppl"));
    assert!(!contains(b"banana", b"ap"));
    assert!(!contains(b"apple", b"apples"));
    assert!(!contains(b"apple", b"AP"));
    assert!(!contains(b"", b"a"));
}

#[test]
fn contains_finds_the_empty_needle_everywhere() {
    assert!(contains(b"", b""));
    assert!(contains(b"abc", b""));
}

#[test]
fn contains_agrees_with_std_on_text() {
    let hays = ["", "a", "aab", "abab", "apricot", "ää", "mississippi"];
    let needles = ["", "a", "ab", "b", "bab", "ä", "issip", "ppi", "pp i"];
    for hay in hays {
        for needle in needles {
            assert_eq!(contains(hay.as_bytes(), needle.as_bytes()), hay.contains(needle));
        }
    }
}
