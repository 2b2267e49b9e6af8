use pepper::pattern::{MatchResult, Pattern, PatternErrorKind};

fn matches(pattern: &Pattern, text: &str) -> MatchResult {
    pattern.matches(text)
}

#[test]
fn literal_searcher_ignores_case_when_all_lower_case() {
    let mut pattern = Pattern::new();
    pattern.compile_searcher("abc").unwrap();
    assert_eq!(MatchResult::Matched(3), matches(&pattern, "ABCd"));
    assert_eq!(MatchResult::Failed, matches(&pattern, "abd"));

    pattern.compile_searcher("Abc").unwrap();
    assert_eq!(MatchResult::Failed, matches(&pattern, "abc"));
    assert_eq!(MatchResult::Matched(3), matches(&pattern, "Abc"));

    pattern.compile_searcher("_abc").unwrap();
    assert_eq!(MatchResult::Failed, matches(&pattern, "ABC"));
    assert_eq!(MatchResult::Matched(3), matches(&pattern, "abc"));
}

#[test]
fn long_literal_searcher_spans_string_ops() {
    let mut pattern = Pattern::new();
    pattern.compile_searcher("_0123456789éabcdefghij(").unwrap();
    assert_eq!(MatchResult::Matched(23), matches(&pattern, "0123456789éabcdefghij(!"));
    assert_eq!(MatchResult::Failed, matches(&pattern, "0123456789éabcdefghij"));
}

#[test]
fn searcher_pattern_after_percent() {
    let mut pattern = Pattern::new();
    pattern.compile_searcher("%{%d}").unwrap();
    assert_eq!(MatchResult::Matched(3), matches(&pattern, "123a"));
    let error = pattern.compile_searcher("%(a").unwrap_err();
    assert_eq!(PatternErrorKind::UnexpectedEndOfPattern, error.kind);
    assert_eq!("(a", error.pattern);
    assert!(pattern.is_empty());
}

#[test]
fn match_indices_finds_every_match() {
    let mut pattern = Pattern::new();
    pattern.compile_searcher("ab").unwrap();
    let text = "xxabyyAB ab";
    let mut found = Vec::new();
    let mut iter = pattern.match_indices(text, None);
    while let Some(m) = iter.next() {
        found.push(m);
    }
    assert_eq!(vec![(2, "ab"), (6, "AB"), (9, "ab")], found);

    let mut iter = pattern.match_indices(text, Some('A'));
    assert_eq!(Some((6, "AB")), iter.next());
    assert_eq!(None, iter.next());
    assert_eq!(None, iter.next());
}

#[test]
fn match_indices_skips_empty_matches() {
    let mut pattern = Pattern::new();
    pattern.compile("{a}").unwrap();
    let mut iter = pattern.match_indices("baab", None);
    assert_eq!(Some((1, "aa")), iter.next());
    assert_eq!(None, iter.next());
}

#[test]
fn match_indices_never_overlap() {
    let mut pattern = Pattern::new();
    pattern.compile("aa").unwrap();
    let mut iter = pattern.match_indices("aaaaa", None);
    assert_eq!(Some((0, "aa")), iter.next());
    assert_eq!(Some((2, "aa")), iter.next());
    assert_eq!(None, iter.next());

    pattern.compile("é|x").unwrap();
    let mut iter = pattern.match_indices("aéxé", None);
    assert_eq!(Some((1, "é")), iter.next());
    assert_eq!(Some((3, "x")), iter.next());
    assert_eq!(Some((4, "é")), iter.next());
    assert_eq!(None, iter.next());
}
