use pepper::pattern::{Jump, Length, Op, Pattern};

#[test]
fn op_listing_text() {
    assert_eq!("Ok", Op::Accept.debug_string());
    assert_eq!("Error", Op::Error.debug_string());
    assert_eq!("Reset      3", Op::Reset(Jump(3)).debug_string());
    assert_eq!("Unwind    [1] 2", Op::Unwind(Jump(2), Length(1)).debug_string());
    assert_eq!("EndAnchor     1 0", Op::EndAnchor(Jump(1), Jump(0)).debug_string());
    assert_eq!("SkipOne       4 0", Op::SkipOne(Jump(4), Jump(0)).debug_string());
    assert_eq!("SkipMany  [12] 5 0", Op::SkipMany(Jump(5), Jump(0), Length(12)).debug_string());
    assert_eq!("Alphanumeric  7 1", Op::Alphanumeric(Jump(7), Jump(1)).debug_string());
    assert_eq!("Char      'é' 3 0", Op::Char(Jump(3), Jump(0), 'é').debug_string());
    assert_eq!(
        "CharCaseInsensitive'a' 3 0",
        Op::CharCaseInsensitive(Jump(3), Jump(0), 'a').debug_string()
    );
    let mut bytes = [0u8; 10];
    bytes[..3].copy_from_slice(b"abc");
    assert_eq!("String    'abc' 4 0", Op::String(Jump(4), Jump(0), 3, bytes).debug_string());
    assert_eq!(
        "StringCaseInsensitive'ab' 4 0",
        Op::StringCaseInsensitive(Jump(4), Jump(0), 2, bytes).debug_string()
    );
}

#[test]
fn empty_pattern_listing() {
    assert_eq!("Pattern {\n  > [0] Error\n}\n", Pattern::new().debug_string());
}

#[test]
fn searcher_listing() {
    let mut pattern = Pattern::new();
    assert!(pattern.compile_searcher("_abc").is_ok());
    assert_eq!(
        "Pattern {\n    [0] Error\n  > [1] String    'abc' 2 0\n    [2] Ok\n}\n",
        pattern.debug_string()
    );
    assert!(pattern.compile_searcher("abc").is_ok());
    assert_eq!(
        "Pattern {\n    [0] Error\n  > [1] StringCaseInsensitive'abc' 2 0\n    [2] Ok\n}\n",
        pattern.debug_string()
    );
}

#[test]
fn listing_aligns_indices() {
    // a literal search is cut into chunks of at most nine bytes
    let mut pattern = Pattern::new();
    let text = format!("_{}", "abcdefghi".repeat(9));
    assert!(pattern.compile_searcher(&text).is_ok());
    let mut expected = String::from("Pattern {\n    [ 0] Error\n");
    for i in 1..=9 {
        let marker = if i == 1 { "  > " } else { "    " };
        expected.push_str(&format!("{}[{:2}] String    'abcdefghi' {} 0\n", marker, i, i + 1));
    }
    expected.push_str("    [10] Ok\n}\n");
    assert_eq!(expected, pattern.debug_string());
}

#[test]
fn compiled_pattern_listing_has_one_line_per_op() {
    let mut pattern = Pattern::new();
    assert!(pattern.compile("a%d{.}$").is_ok());
    let listing = pattern.debug_string();
    assert!(listing.starts_with("Pattern {\n"));
    assert!(listing.ends_with("}\n"));
    assert_eq!(1, listing.matches('>').count());
    // the optimizer leaves no plain jump behind
    assert!(!listing.contains("Unwind    [0]"));
    assert!(listing.contains("String    'a'") || listing.contains("Char      'a'"));
}

#[test]
fn chained_chars_become_one_string_test() {
    let mut pattern = Pattern::new();
    assert!(pattern.compile("ab").is_ok());
    assert_eq!(
        "Pattern {\n    [0] Error\n    [1] Ok\n  > [2] String    'ab' 1 0\n}\n",
        pattern.debug_string()
    );
}
