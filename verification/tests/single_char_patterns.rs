use pepper::pattern::{MatchResult, Pattern};

fn compiled(text: &str) -> Pattern {
    let mut pattern = Pattern::new();
    assert!(pattern.compile(text).is_ok());
    pattern
}

#[test]
fn plain_pattern_matches_texts_that_start_with_it() {
    let pattern = compiled("hello");
    assert_eq!(MatchResult::Matched(5), pattern.matches("hello"));
    assert_eq!(MatchResult::Matched(5), pattern.matches("hello world"));
    assert_eq!(MatchResult::Failed, pattern.matches("help"));
    assert_eq!(MatchResult::Failed, pattern.matches("hell"));
    assert_eq!(MatchResult::Failed, pattern.matches(" hello"));
}

#[test]
fn long_plain_pattern_is_cut_into_pieces() {
    let text = "abcdefghijklmnopqrstuvwxyz_0123456789";
    let pattern = compiled(text);
    assert_eq!(MatchResult::Matched(text.len()), pattern.matches(text));
    assert_eq!(MatchResult::Matched(text.len()), pattern.matches(&format!("{}!", text)));
    assert_eq!(MatchResult::Failed, pattern.matches(&text[..text.len() - 1]));
    assert_eq!(MatchResult::Failed, pattern.matches("abcdefghijklmnopqrstuvwxyz_012345678X"));
    let listing = pattern.debug_string();
    assert!(listing.contains("String    'abcdefghij' 3 0"));
    assert!(listing.contains("String    'klmnopqrst' 4 0"));
    assert!(listing.contains("String    'uvwxyz_012' 5 0"));
    assert!(listing.contains("String    '3456789' 1 0"));
}

#[test]
fn plain_pattern_with_a_lone_last_char() {
    let pattern = compiled("abcdefghijk");
    assert_eq!(MatchResult::Matched(11), pattern.matches("abcdefghijk"));
    assert_eq!(MatchResult::Failed, pattern.matches("abcdefghijK"));
    assert!(pattern.debug_string().contains("Char      'k' 1 0"));
}

#[test]
fn empty_pattern_matches_everything() {
    let pattern = compiled("");
    assert_eq!(MatchResult::Matched(0), pattern.matches(""));
    assert_eq!(MatchResult::Matched(0), pattern.matches("abc"));
}

#[test]
fn plain_pattern_is_case_sensitive() {
    let pattern = compiled("Abc");
    assert_eq!(MatchResult::Matched(3), pattern.matches("Abc"));
    assert_eq!(MatchResult::Failed, pattern.matches("abc"));
}

#[test]
fn char_classes_and_any_char_test_one_char_each() {
    let pattern = compiled("%a%d.%w");
    assert_eq!(MatchResult::Matched(4), pattern.matches("x7-zrest"));
    assert_eq!(MatchResult::Matched(5), pattern.matches("q1éz"));
    assert_eq!(MatchResult::Failed, pattern.matches("77-z"));
    assert_eq!(MatchResult::Failed, pattern.matches("x7-"));
    assert_eq!(MatchResult::Failed, pattern.matches("x7-_"));
    let pattern = compiled("%l%u");
    assert_eq!(MatchResult::Matched(2), pattern.matches("aB"));
    assert_eq!(MatchResult::Failed, pattern.matches("Ab"));
}

#[test]
fn escaped_chars_stand_for_themselves() {
    let pattern = compiled("a%.b%%");
    assert_eq!(MatchResult::Matched(4), pattern.matches("a.b%"));
    assert_eq!(MatchResult::Failed, pattern.matches("axb%"));
    let listing = pattern.debug_string();
    assert!(listing.contains("String    'a.b%' 1 0"));
}

#[test]
fn chars_between_classes_are_grouped() {
    let pattern = compiled("ab%dcd");
    assert_eq!(MatchResult::Matched(5), pattern.matches("ab1cd"));
    assert_eq!(MatchResult::Failed, pattern.matches("abxcd"));
    let listing = pattern.debug_string();
    assert!(listing.contains("String    'ab' 3 0"));
    assert!(listing.contains("Digit         4 0"));
    assert!(listing.contains("String    'cd' 1 0"));
}
