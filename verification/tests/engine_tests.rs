use ref_sorter::engine::{sort_references, SortError};
use ref_sorter::sorting::{assemble, sort_han, sort_latin};
use ref_sorter::stroke_table::{load_stroke_table, StrokeTable};

fn strs(v: &[&str]) -> Vec<String> {
    v.iter().map(|s| s.to_string()).collect()
}

fn small_table() -> StrokeTable {
    let mut table = StrokeTable::new();
    table.insert_if_absent('一', 1);
    table.insert_if_absent('二', 2);
    table.insert_if_absent('三', 3);
    table
}

#[test]
fn latin_ordering_is_by_code_points() {
    let sorted = sort_latin(strs(&["banana", "Apple", "cherry"]));
    assert_eq!(sorted, strs(&["Apple", "banana", "cherry"]));
}

#[test]
fn han_ordering_is_by_stroke_count() {
    let table = small_table();
    let sorted = sort_han(strs(&["三 entry", "一 entry", "二 entry"]), &table);
    assert_eq!(sorted, strs(&["一 entry", "二 entry", "三 entry"]));
}

#[test]
fn latin_block_precedes_han_block() {
    let table = small_table();
    let text = "三 z\nbanana\n一 a\nApple\n二 m\ncherry\n";
    let out = sort_references(text, false, &table).unwrap();
    assert_eq!(out, strs(&["Apple", "banana", "cherry", "一 a", "二 m", "三 z"]));
}

#[test]
fn numbering_prefixes_the_final_sequence() {
    let numbered = assemble(strs(&["a"]), strs(&["b"]), true);
    assert_eq!(numbered, strs(&["1. a", "2. b"]));
    let plain = assemble(strs(&["a"]), strs(&["b"]), false);
    assert_eq!(plain, strs(&["a", "b"]));
}

#[test]
fn numbering_reaches_two_digits() {
    let table = StrokeTable::new();
    let text = "c\nb\na\nd\ne\nf\ng\nh\ni\nj\nk\nl\n";
    let out = sort_references(text, true, &table).unwrap();
    assert_eq!(out.len(), 12);
    assert_eq!(out[0], "1. a");
    assert_eq!(out[9], "10. j");
    assert_eq!(out[11], "12. l");
}

#[test]
fn sorting_a_sorted_sequence_changes_nothing() {
    let sorted_latin = strs(&["Apple", "banana", "cherry"]);
    assert_eq!(sort_latin(sorted_latin.clone()), sorted_latin);
    let table = small_table();
    let sorted_han = strs(&["一 a", "二 b", "三 c"]);
    assert_eq!(sort_han(sorted_han.clone(), &table), sorted_han);
}

#[test]
fn missing_stroke_entry_fails_the_sort() {
    let table = small_table();
    let r = sort_references("banana\n四 entry\n", false, &table);
    assert!(matches!(r, Err(SortError::StrokeLookupMiss)));
}

#[test]
fn unclassifiable_lines_are_dropped() {
    let table = StrokeTable::new();
    let out = sort_references("123\nApple\n\n9.9\nbanana\n", false, &table).unwrap();
    assert_eq!(out, strs(&["Apple", "banana"]));
}

#[test]
fn empty_input_sorts_to_nothing() {
    let table = StrokeTable::new();
    let out = sort_references("", true, &table).unwrap();
    assert_eq!(out, strs(&[]));
}

#[test]
fn engine_works_with_a_loaded_table() {
    let data = "h1\nh2\nh3\nh4\nh5\nh6\n一 x x x x x 1\n二 x x x x x 2\n三 x x x x x 3\n";
    let table = load_stroke_table(data);
    let text = "2. 三 c\n1. banana\n3) 一 a\nApple\n";
    let out = sort_references(text, true, &table).unwrap();
    assert_eq!(out, strs(&["1. Apple", "2. banana", "3. 一 a", "4. 三 c"]));
}
