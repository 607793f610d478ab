use ref_sorter::numbers::{decimal_string, parse_stroke_field};
use ref_sorter::stroke_table::{load_stroke_table, StrokeTable};

const HEADER: &str = "h1\nh2\nh3\nh4\nh5\nh6\n";

#[test]
fn stroke_table_loading() {
    let data = format!("{}一 x x x x x 1\n", HEADER);
    let table = load_stroke_table(&data);
    assert!(table.contains_char('一'));
    assert_eq!(table.get_stroke('一'), 1);
}

#[test]
fn duplicate_rows_first_wins() {
    let data = format!("{}一 x x x x x 1\n一 y y y y y 9\n", HEADER);
    let table = load_stroke_table(&data);
    assert_eq!(table.get_stroke('一'), 1);
}

#[test]
fn malformed_rows_are_skipped() {
    let data = format!("{}一 x x\n\n二 a b c d e 2\n", HEADER);
    let table = load_stroke_table(&data);
    assert!(!table.contains_char('一'));
    assert_eq!(table.get_stroke('二'), 2);
}

#[test]
fn unparseable_stroke_count_defaults_to_zero() {
    let data = format!("{}一 x x x x x abc\n二 x x x x x -4\n三 x x x x x +5\n", HEADER);
    let table = load_stroke_table(&data);
    assert_eq!(table.get_stroke('一'), 0);
    assert_eq!(table.get_stroke('二'), -4);
    assert_eq!(table.get_stroke('三'), 5);
}

#[test]
fn dataset_with_crlf_line_endings() {
    let data = "h1\r\nh2\r\nh3\r\nh4\r\nh5\r\nh6\r\n一 x x x x x 1\r\n二 x x x x x 2\r\n";
    let table = load_stroke_table(data);
    assert_eq!(table.get_stroke('一'), 1);
    assert_eq!(table.get_stroke('二'), 2);
}

#[test]
fn header_lines_are_not_data() {
    let data = "一 x x x x x 1\n一 x x x x x 1\n一 x x x x x 1\n";
    let table = load_stroke_table(data);
    assert!(!table.contains_char('一'));
}

#[test]
fn insert_if_absent_keeps_first_entry() {
    let mut table = StrokeTable::new();
    assert!(!table.contains_char('一'));
    table.insert_if_absent('一', 1);
    table.insert_if_absent('一', 9);
    assert_eq!(table.get_stroke('一'), 1);
}

#[test]
fn stroke_field_parsing() {
    assert_eq!(parse_stroke_field("42"), 42);
    assert_eq!(parse_stroke_field("0"), 0);
    assert_eq!(parse_stroke_field("-7"), -7);
    assert_eq!(parse_stroke_field("+7"), 7);
    assert_eq!(parse_stroke_field(""), 0);
    assert_eq!(parse_stroke_field("12a"), 0);
    assert_eq!(parse_stroke_field("a12"), 0);
    assert_eq!(parse_stroke_field("-"), 0);
    assert_eq!(parse_stroke_field("2147483647"), 2147483647);
    assert_eq!(parse_stroke_field("2147483648"), 0);
    assert_eq!(parse_stroke_field("-2147483648"), -2147483648);
    assert_eq!(parse_stroke_field("-2147483649"), 0);
    assert_eq!(parse_stroke_field("99999999999999999999"), 0);
}

#[test]
fn decimal_rendering() {
    assert_eq!(decimal_string(0), "0");
    assert_eq!(decimal_string(7), "7");
    assert_eq!(decimal_string(10), "10");
    assert_eq!(decimal_string(12345), "12345");
}
