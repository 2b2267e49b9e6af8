use pepper::pattern::{Pattern, PatternError, PatternErrorKind};

#[test]
fn error_kind_messages() {
    assert_eq!("unexpected end of pattern", PatternErrorKind::UnexpectedEndOfPattern.message());
    assert_eq!("expected character ')'", PatternErrorKind::Expected(')').message());
    assert_eq!("invalid escaping '%q'", PatternErrorKind::InvalidEscaping('q').message());
    assert_eq!("unescaped character 'é'", PatternErrorKind::Unescaped('é').message());
    assert_eq!("empty pattern group", PatternErrorKind::EmptyGroup.message());
    assert_eq!(
        "pattern group has elements of different size",
        PatternErrorKind::GroupWithElementsOfDifferentSize.message()
    );
}

#[test]
fn error_message_names_the_pattern() {
    let error = PatternError { pattern: "[a", kind: PatternErrorKind::UnexpectedEndOfPattern };
    assert_eq!("invalid pattern '[a': unexpected end of pattern", error.message());
}

#[test]
fn compile_error_message() {
    let mut pattern = Pattern::new();
    match pattern.compile("a)") {
        Err(error) => assert_eq!("invalid pattern 'a)': unescaped character ')'", error.message()),
        Ok(()) => panic!("pattern should not compile"),
    }
}
