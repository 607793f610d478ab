use ref_sorter::classify::{classify_line, classify_lines, Entry};
use ref_sorter::text::{split_fields, split_lines, strip_line};

fn strs(v: &[&str]) -> Vec<String> {
    v.iter().map(|s| s.to_string()).collect()
}

#[test]
fn strip_removes_leading_non_alphabetic() {
    assert_eq!(strip_line("123. Apple"), "Apple");
    assert_eq!(strip_line("  - banana"), "banana");
    assert_eq!(strip_line("Apple"), "Apple");
    assert_eq!(strip_line("42 17 99"), "");
    assert_eq!(strip_line(""), "");
}

#[test]
fn strip_is_idempotent() {
    for line in ["123. Apple", "  - 三國志", "9.9.9", "", "Cherry pie"] {
        let once = strip_line(line);
        let twice = strip_line(&once);
        assert_eq!(twice, once);
    }
}

#[test]
fn classify_latin_and_han() {
    match classify_line("1. banana").unwrap() {
        Entry::Latin(s) => assert_eq!(s, "banana"),
        Entry::Han(_) => panic!("expected a Latin entry"),
    }
    match classify_line("2) 三國志").unwrap() {
        Entry::Han(s) => assert_eq!(s, "三國志"),
        Entry::Latin(_) => panic!("expected a Han entry"),
    }
    assert!(classify_line("12345").is_none());
    assert!(classify_line("").is_none());
}

#[test]
fn classification_is_a_code_point_range_test() {
    // 'z' is U+007A, the top of the Latin range.
    match classify_line("zebra").unwrap() {
        Entry::Latin(s) => assert_eq!(s, "zebra"),
        Entry::Han(_) => panic!("expected a Latin entry"),
    }
    // An alphabetic character above U+007A lands in the Han bucket, even
    // when it is not Chinese.
    match classify_line("Ωmega").unwrap() {
        Entry::Han(s) => assert_eq!(s, "Ωmega"),
        Entry::Latin(_) => panic!("expected a Han entry"),
    }
}

#[test]
fn classification_partitions_the_input() {
    let lines = strs(&["1. banana", "--- 三", "123", "", "Apple"]);
    let (latin, han, dropped) = classify_lines(&lines);
    assert_eq!(latin, strs(&["banana", "Apple"]));
    assert_eq!(han, strs(&["三"]));
    assert_eq!(dropped, 2);
    assert_eq!(latin.len() + han.len() + dropped, lines.len());
}

#[test]
fn split_lines_handles_line_endings() {
    assert_eq!(split_lines("a\r\nb\nc\r"), strs(&["a", "b", "c\r"]));
    assert_eq!(split_lines("a\n"), strs(&["a"]));
    assert_eq!(split_lines("a\n\nb"), strs(&["a", "", "b"]));
    assert_eq!(split_lines(""), strs(&[]));
}

#[test]
fn split_fields_on_whitespace() {
    assert_eq!(split_fields(" a  bb\tc "), strs(&["a", "bb", "c"]));
    assert_eq!(split_fields(""), strs(&[]));
    assert_eq!(split_fields("   "), strs(&[]));
}
