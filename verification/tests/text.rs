use capture::text::{copy_text, copy_texts, decimal_text, join, pad};

#[test]
fn decimal_text_writes_numbers() {
    assert_eq!(decimal_text(0), "0");
    assert_eq!(decimal_text(7), "7");
    assert_eq!(decimal_text(10), "10");
    assert_eq!(decimal_text(4242), "4242");
    assert_eq!(decimal_text(4294967295), "4294967295");
    assert_eq!(decimal_text(u64::MAX), "18446744073709551615");
    for n in 0..1200u64 {
        assert_eq!(decimal_text(n), n.to_string());
    }
}

#[test]
fn pad_fills_up_with_spaces() {
    assert_eq!(pad("ab", 5), "ab   ");
    assert_eq!(pad("ab", 2), "ab");
    assert_eq!(pad("abc", 2), "abc");
    assert_eq!(pad("", 3), "   ");
    assert_eq!(pad("", 0), "");
    assert_eq!(pad("äö", 4), "äö  ");
}

#[test]
fn join_puts_the_separator_between() {
    let words = |list: &[&str]| -> Vec<String> { list.iter().map(|w| w.to_string()).collect() };
    assert_eq!(join(&words(&[]), " "), "");
    assert_eq!(join(&words(&["a"]), " "), "a");
    assert_eq!(join(&words(&["a", "b", "c"]), " "), "a b c");
    assert_eq!(join(&words(&["", ""]), ", "), ", ");
    assert_eq!(join(&words(&["sh", "-c", "echo a; echo b"]), " "), "sh -c echo a; echo b");
}

#[test]
fn copies_are_equal() {
    let list = vec!["a".to_string(), "".to_string(), "ä b".to_string()];
    assert_eq!(copy_texts(&list), list);
    assert_eq!(copy_text(&list[2]), "ä b");
    assert!(copy_texts(&Vec::new()).is_empty());
}
