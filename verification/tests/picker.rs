use pepper::picker::{FuzzyMatcher, Picker, BONUS_CONSECUTIVE, BONUS_WORD_BOUNDARY};
use pepper::word_database::WordDatabase;

#[test]
fn fuzzy_matcher_test() {
    let mut fuzzy_matcher = FuzzyMatcher::default();

    assert_eq!(1, fuzzy_matcher.score("", ""));
    assert_eq!(1, fuzzy_matcher.score("abc", ""));
    assert_eq!(0, fuzzy_matcher.score("", "abc"));
    assert_eq!(0, fuzzy_matcher.score("abc", "z"));
    assert_eq!(0, fuzzy_matcher.score("a", "xyz"));

    assert_eq!(BONUS_WORD_BOUNDARY + BONUS_CONSECUTIVE * 3 + 1, fuzzy_matcher.score("word", "word"));
    assert_eq!(BONUS_WORD_BOUNDARY + BONUS_CONSECUTIVE * 2, fuzzy_matcher.score("word", "wor"));
    assert_eq!(0, fuzzy_matcher.score("word", "wrd"));
    assert_eq!(BONUS_WORD_BOUNDARY * 2, fuzzy_matcher.score("first/second", "f/s"));
    assert_eq!((BONUS_WORD_BOUNDARY + BONUS_CONSECUTIVE) * 2, fuzzy_matcher.score("camelCase", "caca"));
    assert_eq!(BONUS_WORD_BOUNDARY * 3, fuzzy_matcher.score("ababAbA", "aaa"));
    assert_eq!(BONUS_WORD_BOUNDARY * 2, fuzzy_matcher.score("abc cde", "ac"));
    assert_eq!(BONUS_WORD_BOUNDARY, fuzzy_matcher.score("abc x", "x"));
    assert_eq!(BONUS_WORD_BOUNDARY + BONUS_CONSECUTIVE * 3, fuzzy_matcher.score("AxxBxx Abcd", "abcd"));
}

#[test]
fn picker_filters_and_orders_by_score() {
    let words = WordDatabase::new();
    let mut picker = Picker::default();
    picker.add_custom_entry("abc x");
    picker.add_custom_entry("abc");
    picker.add_custom_entry("x");
    picker.filter(&words, "x");
    assert_eq!(vec!["x", "abc x"], picker.entries(&words));
    assert_eq!(2, picker.len());
}

#[test]
fn picker_cursor_wraps_around() {
    let words = WordDatabase::new();
    let mut picker = Picker::default();
    picker.add_custom_entry("a");
    picker.add_custom_entry("b");
    picker.add_custom_entry("c");
    picker.filter(&words, "");
    assert_eq!(None, picker.cursor());
    picker.move_cursor(1);
    assert_eq!(Some(0), picker.cursor());
    picker.move_cursor(1);
    assert_eq!(Some(1), picker.cursor());
    picker.move_cursor(-2);
    assert_eq!(Some(0), picker.cursor());
    picker.move_cursor(-1);
    assert_eq!(Some(2), picker.cursor());
    picker.clear();
    assert_eq!(0, picker.len());
}
