use pepper::pattern::{MatchResult, Pattern};

fn compiled(text: &str) -> Pattern {
    let mut pattern = Pattern::new();
    assert!(pattern.compile(text).is_ok());
    pattern
}

#[test]
fn any_alternative_may_match() {
    let pattern = compiled("abc|abd");
    assert_eq!(MatchResult::Matched(3), pattern.matches("abc"));
    assert_eq!(MatchResult::Matched(3), pattern.matches("abd"));
    assert_eq!(MatchResult::Matched(3), pattern.matches("abdz"));
    assert_eq!(MatchResult::Failed, pattern.matches("ab"));
    assert_eq!(MatchResult::Failed, pattern.matches("abe"));
    assert_eq!(MatchResult::Failed, pattern.matches(""));
}

#[test]
fn first_matching_alternative_wins() {
    let pattern = compiled("a|ab");
    assert_eq!(MatchResult::Matched(1), pattern.matches("ab"));
    let pattern = compiled("ab|a");
    assert_eq!(MatchResult::Matched(2), pattern.matches("ab"));
    assert_eq!(MatchResult::Matched(1), pattern.matches("ac"));
}

#[test]
fn alternatives_start_again_from_the_start_of_the_text() {
    let pattern = compiled("xy|xz|x");
    assert_eq!(MatchResult::Matched(2), pattern.matches("xy"));
    assert_eq!(MatchResult::Matched(2), pattern.matches("xz"));
    assert_eq!(MatchResult::Matched(1), pattern.matches("xw"));
    assert_eq!(MatchResult::Failed, pattern.matches("w"));
}

#[test]
fn alternatives_of_classes_and_escapes() {
    let pattern = compiled("%d%d|x.|%||%(");
    assert_eq!(MatchResult::Matched(2), pattern.matches("42"));
    assert_eq!(MatchResult::Matched(2), pattern.matches("x!"));
    assert_eq!(MatchResult::Matched(1), pattern.matches("|"));
    assert_eq!(MatchResult::Matched(1), pattern.matches("("));
    assert_eq!(MatchResult::Failed, pattern.matches("4"));
    assert_eq!(MatchResult::Failed, pattern.matches("x"));
}

#[test]
fn long_alternatives_are_cut_into_pieces() {
    let pattern = compiled("abcdefghijkl|z|abcdefghijkm");
    assert_eq!(MatchResult::Matched(12), pattern.matches("abcdefghijkl"));
    assert_eq!(MatchResult::Matched(12), pattern.matches("abcdefghijkm"));
    assert_eq!(MatchResult::Matched(1), pattern.matches("z"));
    assert_eq!(MatchResult::Failed, pattern.matches("abcdefghijk"));
    let listing = pattern.debug_string();
    assert!(listing.contains("Reset"));
    assert!(listing.contains("String    'abcdefghij'"));
}
