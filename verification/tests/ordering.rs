use word_processor::order::{place_of, Place};
use word_processor::select::retain_marked;
use word_processor::sorting::{merge, sort_distinct};
use word_processor::text::{blank, chars_of, digit, drop_blanks, skip_blanks, skip_digits, trim_bounds};

fn strings(items: Vec<&str>) -> Vec<String> {
    items.into_iter().map(String::from).collect()
}

#[test]
fn place_of_is_dictionary_order() {
    assert_eq!(place_of("a", "b"), Place::Before);
    assert_eq!(place_of("b", "a"), Place::After);
    assert_eq!(place_of("abc", "abc"), Place::Same);
    assert_eq!(place_of("", ""), Place::Same);
    assert_eq!(place_of("", "a"), Place::Before);
    assert_eq!(place_of("ab", "abc"), Place::Before);
    assert_eq!(place_of("abd", "abc"), Place::After);
    assert_eq!(place_of("Z", "a"), Place::Before);
    assert_eq!(place_of("z", "é"), Place::Before);
}

#[test]
fn sort_distinct_in_both_directions() {
    let words = strings(vec!["b", "c", "a", "b", "a"]);
    assert_eq!(sort_distinct(words.clone(), true), strings(vec!["a", "b", "c"]));
    assert_eq!(sort_distinct(words, false), strings(vec!["c", "b", "a"]));
}

#[test]
fn merge_keeps_a_shared_token_once() {
    let a = strings(vec!["e", "c", "a"]);
    let b = strings(vec!["d", "c", "b"]);
    assert_eq!(merge(a, b, true), strings(vec!["a", "b", "c", "d", "e"]));
    let a = strings(vec!["a", "c"]);
    let b = strings(vec!["c", "d"]);
    assert_eq!(merge(a, b, false), strings(vec!["d", "c", "a"]));
}

#[test]
fn retain_marked_keeps_order() {
    let kept = retain_marked(vec![1, 2, 3, 4], &vec![true, false, false, true]);
    assert_eq!(kept, vec![1, 4]);
    let none: Vec<u8> = retain_marked(Vec::new(), &Vec::new());
    assert!(none.is_empty());
}

#[test]
fn blanks_and_digits() {
    assert!(blank(' ') && blank('\t') && blank('\n'));
    assert!(!blank('\r') && !blank('a') && !blank('\u{a0}'));
    assert!(digit('0') && digit('9') && digit('5'));
    assert!(!digit('a') && !digit('/') && !digit(':') && !digit('٣'));
}

#[test]
fn scanning_positions() {
    let chars = chars_of("12  ab \n");
    assert_eq!(chars.len(), 8);
    assert_eq!(skip_digits(&chars, 0, 8), 2);
    assert_eq!(skip_blanks(&chars, 2, 8), 4);
    assert_eq!(skip_blanks(&chars, 4, 8), 4);
    assert_eq!(drop_blanks(&chars, 4, 8), 6);
    assert_eq!(drop_blanks(&chars, 6, 8), 6);
    assert_eq!(trim_bounds(&chars, 2), (4, 6));
    assert_eq!(chars_of("héllo"), vec!['h', 'é', 'l', 'l', 'o']);
}

#[test]
fn retain_marked_without_a_mark_drops() {
    assert_eq!(retain_marked(vec![1, 2, 3], &vec![true, true]), vec![1, 2]);
    assert_eq!(retain_marked(vec![1], &vec![true, true, true]), vec![1]);
}
