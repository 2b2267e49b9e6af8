use pepper::pattern::{MatchResult, Op, Pattern, PatternError, PatternErrorKind, PatternState};

fn try_new_pattern(pattern: &str) -> Result<Pattern, PatternError> {
    let mut p = Pattern::new();
    p.compile(pattern)?;
    Ok(p)
}

fn new_pattern(pattern: &str) -> Pattern {
    try_new_pattern(pattern).unwrap()
}

#[test]
fn assert_size() {
    assert_eq!(16, std::mem::size_of::<Op>());
}

#[test]
fn search_anchor() {
    assert_eq!(None, new_pattern("").search_anchor());
    assert_eq!(Some('a'), new_pattern("a").search_anchor());
    assert_eq!(Some('a'), new_pattern("abc").search_anchor());
    assert_eq!(Some('a'), new_pattern("(abc)").search_anchor());
    assert_eq!(None, new_pattern(".").search_anchor());
    assert_eq!(None, new_pattern("%w").search_anchor());
    assert_eq!(None, new_pattern("%d").search_anchor());
    assert_eq!(Some('%'), new_pattern("%%").search_anchor());
    assert_eq!(None, new_pattern("[abc]").search_anchor());
    assert_eq!(None, new_pattern("{abc}").search_anchor());
    assert_eq!(None, new_pattern("abc|def").search_anchor());
}

#[test]
fn simple_pattern() {
    let p = new_pattern("");
    assert_eq!(MatchResult::Matched(0), p.matches(""));
    assert_eq!(MatchResult::Matched(0), p.matches("a"));
    assert_eq!(MatchResult::Matched(0), p.matches("z"));
    assert_eq!(MatchResult::Matched(0), p.matches("A"));
    assert_eq!(MatchResult::Matched(0), p.matches("Z"));
    assert_eq!(MatchResult::Matched(0), p.matches("0"));
    assert_eq!(MatchResult::Matched(0), p.matches("9"));
    assert_eq!(MatchResult::Matched(0), p.matches("!"));

    let p = new_pattern("a");
    assert_eq!(MatchResult::Matched(1), p.matches("a"));
    assert_eq!(MatchResult::Matched(1), p.matches("aa"));
    assert_eq!(MatchResult::Failed, p.matches("b"));
    assert_eq!(MatchResult::Failed, p.matches(""));

    let p = new_pattern("aa");
    assert_eq!(MatchResult::Matched(2), p.matches("aa"));
    assert_eq!(MatchResult::Matched(2), p.matches("aaa"));
    assert_eq!(MatchResult::Failed, p.matches("baa"));

    let p = new_pattern("abc");
    assert_eq!(MatchResult::Matched(3), p.matches("abc"));
    assert_eq!(MatchResult::Matched(3), p.matches("abcd"));
    assert_eq!(MatchResult::Failed, p.matches("aabc"));

    let p = new_pattern("%% %$ %. %! %( %) %[ %] %{ %}");
    let matched_text = "% $ . ! ( ) [ ] { }";
    assert_eq!(MatchResult::Matched(matched_text.len()), p.matches(matched_text));

    let p = new_pattern(".");
    assert_eq!(MatchResult::Matched(1), p.matches("a"));
    assert_eq!(MatchResult::Matched(1), p.matches("z"));
    assert_eq!(MatchResult::Matched(1), p.matches("A"));
    assert_eq!(MatchResult::Matched(1), p.matches("Z"));
    assert_eq!(MatchResult::Matched(1), p.matches("0"));
    assert_eq!(MatchResult::Matched(1), p.matches("9"));
    assert_eq!(MatchResult::Matched(1), p.matches("!"));

    let p = new_pattern("%a");
    assert_eq!(MatchResult::Matched(1), p.matches("a"));
    assert_eq!(MatchResult::Matched(1), p.matches("z"));
    assert_eq!(MatchResult::Matched(1), p.matches("A"));
    assert_eq!(MatchResult::Matched(1), p.matches("Z"));
    assert_eq!(MatchResult::Failed, p.matches("0"));
    assert_eq!(MatchResult::Failed, p.matches("9"));
    assert_eq!(MatchResult::Failed, p.matches("!"));

    let p = new_pattern("%l");
    assert_eq!(MatchResult::Matched(1), p.matches("a"));
    assert_eq!(MatchResult::Matched(1), p.matches("z"));
    assert_eq!(MatchResult::Failed, p.matches("A"));
    assert_eq!(MatchResult::Failed, p.matches("Z"));
    assert_eq!(MatchResult::Failed, p.matches("0"));
    assert_eq!(MatchResult::Failed, p.matches("9"));
    assert_eq!(MatchResult::Failed, p.matches("!"));

    let p = new_pattern("%u");
    assert_eq!(MatchResult::Failed, p.matches("a"));
    assert_eq!(MatchResult::Failed, p.matches("z"));
    assert_eq!(MatchResult::Matched(1), p.matches("A"));
    assert_eq!(MatchResult::Matched(1), p.matches("Z"));
    assert_eq!(MatchResult::Failed, p.matches("0"));
    assert_eq!(MatchResult::Failed, p.matches("9"));
    assert_eq!(MatchResult::Failed, p.matches("!"));

    let p = new_pattern("%d");
    assert_eq!(MatchResult::Failed, p.matches("a"));
    assert_eq!(MatchResult::Failed, p.matches("z"));
    assert_eq!(MatchResult::Failed, p.matches("A"));
    assert_eq!(MatchResult::Failed, p.matches("Z"));
    assert_eq!(MatchResult::Matched(1), p.matches("0"));
    assert_eq!(MatchResult::Matched(1), p.matches("9"));
    assert_eq!(MatchResult::Failed, p.matches("!"));

    let p = new_pattern("%w");
    assert_eq!(MatchResult::Matched(1), p.matches("a"));
    assert_eq!(MatchResult::Matched(1), p.matches("z"));
    assert_eq!(MatchResult::Matched(1), p.matches("A"));
    assert_eq!(MatchResult::Matched(1), p.matches("Z"));
    assert_eq!(MatchResult::Matched(1), p.matches("0"));
    assert_eq!(MatchResult::Matched(1), p.matches("9"));
    assert_eq!(MatchResult::Failed, p.matches("!"));

    let p = new_pattern("abcdefghij");
    assert_eq!(MatchResult::Matched(10), p.matches("abcdefghij"));

    let p = new_pattern("abcdefghijk");
    assert_eq!(MatchResult::Matched(11), p.matches("abcdefghijk"));

    let p = new_pattern("abcdefghijklmnopqrstuvwxyz");
    assert_eq!(MatchResult::Matched(26), p.matches("abcdefghijklmnopqrstuvwxyz"));
}

#[test]
fn group() {
    let p = new_pattern("[abc]");
    assert_eq!(MatchResult::Matched(1), p.matches("a"));
    assert_eq!(MatchResult::Matched(1), p.matches("b"));
    assert_eq!(MatchResult::Matched(1), p.matches("c"));
    assert_eq!(MatchResult::Failed, p.matches("d"));

    let p = new_pattern("z[abc]y");
    assert_eq!(MatchResult::Matched(3), p.matches("zay"));
    assert_eq!(MatchResult::Matched(3), p.matches("zby"));
    assert_eq!(MatchResult::Matched(3), p.matches("zcy"));
    assert_eq!(MatchResult::Failed, p.matches("z"));
    assert_eq!(MatchResult::Failed, p.matches("zy"));
    assert_eq!(MatchResult::Failed, p.matches("zdy"));

    let p = new_pattern("z[a]");
    assert_eq!(MatchResult::Matched(2), p.matches("za"));
    assert_eq!(MatchResult::Failed, p.matches("z"));
    assert_eq!(MatchResult::Failed, p.matches("zb"));

    let p = new_pattern("z[%l%d]");
    assert_eq!(MatchResult::Matched(2), p.matches("za"));
    assert_eq!(MatchResult::Matched(2), p.matches("zz"));
    assert_eq!(MatchResult::Matched(2), p.matches("z0"));
    assert_eq!(MatchResult::Matched(2), p.matches("z9"));
    assert_eq!(MatchResult::Failed, p.matches("z"));
    assert_eq!(MatchResult::Failed, p.matches("zA"));
    assert_eq!(MatchResult::Failed, p.matches("zZ"));

    let p = new_pattern("[!abc]");
    assert_eq!(MatchResult::Matched(1), p.matches("d"));
    assert_eq!(MatchResult::Matched(1), p.matches("3"));
    assert_eq!(MatchResult::Matched(1), p.matches("@"));
    assert_eq!(MatchResult::Matched(1), p.matches("@a"));
    assert_eq!(MatchResult::Matched(1), p.matches("@b"));
    assert_eq!(MatchResult::Matched(1), p.matches("@c"));
    assert_eq!(MatchResult::Failed, p.matches("a"));
    assert_eq!(MatchResult::Failed, p.matches("b"));
    assert_eq!(MatchResult::Failed, p.matches("c"));

    let p = new_pattern("x[!%w]y");
    assert_eq!(MatchResult::Failed, p.matches("xay"));
    assert_eq!(MatchResult::Failed, p.matches("xzy"));
    assert_eq!(MatchResult::Failed, p.matches("xAy"));
    assert_eq!(MatchResult::Failed, p.matches("xZy"));
    assert_eq!(MatchResult::Failed, p.matches("x0y"));
    assert_eq!(MatchResult::Failed, p.matches("x9y"));
    assert_eq!(MatchResult::Matched(3), p.matches("x#y"));
}

#[test]
fn sequence() {
    let p = new_pattern("(abc)");
    assert_eq!(MatchResult::Matched(3), p.matches("abc"));
    assert_eq!(MatchResult::Matched(3), p.matches("abcd"));
    assert_eq!(MatchResult::Failed, p.matches("a"));
    assert_eq!(MatchResult::Failed, p.matches("ab"));

    let p = new_pattern("z(abc)y");
    assert_eq!(MatchResult::Matched(5), p.matches("zabcy"));
    assert_eq!(MatchResult::Matched(5), p.matches("zabcyd"));
    assert_eq!(MatchResult::Failed, p.matches("zay"));
    assert_eq!(MatchResult::Failed, p.matches("zaby"));

    let p = new_pattern("z(%u%w)y");
    assert_eq!(MatchResult::Matched(4), p.matches("zA0y"));
    assert_eq!(MatchResult::Matched(4), p.matches("zZay"));
    assert_eq!(MatchResult::Matched(4), p.matches("zA0yA"));
    assert_eq!(MatchResult::Failed, p.matches("zaay"));
    assert_eq!(MatchResult::Failed, p.matches("z8ay"));

    let p = new_pattern("(!abc)");
    assert_eq!(MatchResult::Failed, p.matches("abc"));
    assert_eq!(MatchResult::Failed, p.matches("abcd"));
    assert_eq!(MatchResult::Failed, p.matches("a"));
    assert_eq!(MatchResult::Failed, p.matches("ac"));
    assert_eq!(MatchResult::Failed, p.matches("ab"));
    assert_eq!(MatchResult::Matched(3), p.matches("abz"));
    assert_eq!(MatchResult::Matched(3), p.matches("ab!"));
    assert_eq!(MatchResult::Failed, p.matches("z"));
    assert_eq!(MatchResult::Failed, p.matches("7a"));
    assert_eq!(MatchResult::Matched(3), p.matches("7ab"));

    let p = new_pattern("(abcdefghij)");
    assert_eq!(MatchResult::Matched(10), p.matches("abcdefghij"));

    let p = new_pattern("(abcdefghijk)");
    assert_eq!(MatchResult::Matched(11), p.matches("abcdefghijk"));

    let p = new_pattern("(abcdefghijklmnopqrstuvwxyz)");
    assert_eq!(MatchResult::Matched(26), p.matches("abcdefghijklmnopqrstuvwxyz"));
}

#[test]
fn repeat() {
    let p = new_pattern("{a}");
    assert_eq!(MatchResult::Matched(0), p.matches(""));
    assert_eq!(MatchResult::Matched(1), p.matches("a"));
    assert_eq!(MatchResult::Matched(4), p.matches("aaaa"));
    assert_eq!(MatchResult::Matched(0), p.matches("b"));

    let p = new_pattern("{a}b");
    assert_eq!(MatchResult::Matched(2), p.matches("ab"));
    assert_eq!(MatchResult::Matched(3), p.matches("aab"));
    assert_eq!(MatchResult::Matched(5), p.matches("aaaab"));

    let p = new_pattern("a{b}c");
    assert_eq!(MatchResult::Failed, p.matches("a"));
    assert_eq!(MatchResult::Failed, p.matches("ab"));
    assert_eq!(MatchResult::Matched(2), p.matches("ac"));
    assert_eq!(MatchResult::Matched(3), p.matches("abc"));
    assert_eq!(MatchResult::Matched(5), p.matches("abbbc"));

    let p = new_pattern("a{bc}d");
    assert_eq!(MatchResult::Failed, p.matches("a"));
    assert_eq!(MatchResult::Matched(2), p.matches("ad"));
    assert_eq!(MatchResult::Matched(3), p.matches("abd"));
    assert_eq!(MatchResult::Matched(3), p.matches("acd"));
    assert_eq!(MatchResult::Matched(4), p.matches("abcd"));
    assert_eq!(MatchResult::Matched(5), p.matches("abcbd"));
    assert_eq!(MatchResult::Matched(6), p.matches("abcbcd"));

    let p = new_pattern("a{b!c}d");
    assert_eq!(MatchResult::Failed, p.matches("ad"));
    assert_eq!(MatchResult::Failed, p.matches("abd"));
    assert_eq!(MatchResult::Matched(3), p.matches("acd"));
    assert_eq!(MatchResult::Matched(5), p.matches("abbcd"));
}

#[test]
fn end_anchor() {
    let p = new_pattern("a$");
    assert_eq!(MatchResult::Matched(1), p.matches("a"));
    assert_eq!(MatchResult::Failed, p.matches("aa"));

    let p = new_pattern("a$b");
    assert_eq!(
        MatchResult::Pending(PatternState { op_index: 4 }),
        p.matches("a")
    );
    assert_eq!(
        MatchResult::Matched(1),
        p.matches_with_state("b", PatternState { op_index: 4 })
    );

    let p = new_pattern("a{.!$}b");
    match p.matches("axyz") {
        MatchResult::Pending(state) => {
            assert_eq!(MatchResult::Matched(1), p.matches_with_state("b", state))
        }
        _ => assert!(false),
    }

    let p = new_pattern("a{b$!c}{c!d}");
    match p.matches("abb") {
        MatchResult::Pending(state) => match p.matches_with_state("bb", state) {
            MatchResult::Pending(state) => {
                assert_eq!(MatchResult::Matched(4), p.matches_with_state("bccd", state));
            }
            _ => assert!(false),
        },
        _ => assert!(false),
    }
}

#[test]
fn complex_pattern() {
    let p = new_pattern("{.!$}");
    assert_eq!(MatchResult::Matched(10), p.matches("things 890"));
    assert_eq!(MatchResult::Matched(1), p.matches("0"));
    assert_eq!(MatchResult::Matched(1), p.matches(" "));

    let p = new_pattern("{[ab%d]!c}");
    assert_eq!(MatchResult::Matched(1), p.matches("c"));
    assert_eq!(MatchResult::Matched(2), p.matches("ac"));
    assert_eq!(MatchResult::Matched(2), p.matches("bc"));
    assert_eq!(MatchResult::Matched(3), p.matches("bac"));
    assert_eq!(MatchResult::Matched(5), p.matches("0b4ac"));
    assert_eq!(MatchResult::Matched(14), p.matches("a1b234ba9bbbbc"));

    let p = new_pattern("%d{[%w_%.]!@}");
    assert_eq!(MatchResult::Matched(6), p.matches("1x4_5@"));
    assert_eq!(MatchResult::Matched(15), p.matches("9xxasd_234.45f@"));

    let p = new_pattern("ab{(!ba)!b}a");
    assert_eq!(MatchResult::Matched(4), p.matches("abba"));
}

#[test]
fn edge_cases() {
    let p = new_pattern("(!(!abc))");
    assert_eq!(MatchResult::Matched(3), p.matches("abc"));
    assert_eq!(MatchResult::Failed, p.matches("xyz"));
    assert_eq!(MatchResult::Failed, p.matches("a"));
    assert_eq!(MatchResult::Failed, p.matches("ab"));
    assert_eq!(MatchResult::Failed, p.matches("abz"));

    let p = new_pattern("[![!abc]]");
    assert_eq!(MatchResult::Matched(1), p.matches("a"));
    assert_eq!(MatchResult::Matched(1), p.matches("b"));
    assert_eq!(MatchResult::Matched(1), p.matches("c"));
    assert_eq!(MatchResult::Failed, p.matches("x"));

    let p = new_pattern("()");
    assert_eq!(MatchResult::Matched(0), p.matches(""));
    assert_eq!(MatchResult::Matched(0), p.matches("x"));
}

#[test]
fn pattern_composition() {
    assert!(matches!(
        try_new_pattern("[(ab)c]"),
        Err(PatternError {
            kind: PatternErrorKind::GroupWithElementsOfDifferentSize,
            ..
        })
    ));

    let p = new_pattern("[(ab)(cd)]");
    assert_eq!(MatchResult::Matched(2), p.matches("ab"));
    assert_eq!(MatchResult::Matched(2), p.matches("cd"));
    assert_eq!(MatchResult::Failed, p.matches("a"));
    assert_eq!(MatchResult::Failed, p.matches("c"));
    assert_eq!(MatchResult::Failed, p.matches("ad"));
    assert_eq!(MatchResult::Failed, p.matches("cb"));

    let p = new_pattern("[![(ab)(cd)]]");
    assert_eq!(MatchResult::Matched(2), p.matches("ad"));
    assert_eq!(MatchResult::Matched(2), p.matches("bc"));
    assert_eq!(MatchResult::Failed, p.matches("ab"));
    assert_eq!(MatchResult::Failed, p.matches("cd"));

    let p = new_pattern("[(ab)(!cd)]");
    assert_eq!(MatchResult::Matched(2), p.matches("ab"));
    assert_eq!(MatchResult::Failed, p.matches("b"));
    assert_eq!(MatchResult::Matched(2), p.matches("ax"));
    assert_eq!(MatchResult::Matched(2), p.matches("ac"));
    assert_eq!(MatchResult::Matched(2), p.matches("acd"));
    assert_eq!(MatchResult::Matched(2), p.matches("cb"));

    let p = new_pattern("{(a[!ab])!x!$}");
    assert_eq!(MatchResult::Matched(0), p.matches(""));
    assert_eq!(MatchResult::Failed, p.matches("a"));
    assert_eq!(MatchResult::Matched(2), p.matches("ac"));
    assert_eq!(MatchResult::Failed, p.matches("aca"));
    assert_eq!(MatchResult::Failed, p.matches("acab"));
    assert_eq!(MatchResult::Matched(4), p.matches("acax"));

    let p = new_pattern("{[(!ab)(cd)]!$}");
    assert_eq!(MatchResult::Matched(0), p.matches(""));
    assert_eq!(MatchResult::Matched(2), p.matches("cd"));
    assert_eq!(MatchResult::Failed, p.matches("ab"));
    assert_eq!(MatchResult::Matched(2), p.matches("ac"));
    assert_eq!(MatchResult::Matched(4), p.matches("accd"));
}

#[test]
fn multi_subpatterns() {
    let p = new_pattern("a|b");
    assert_eq!(MatchResult::Matched(1), p.matches("a"));
    assert_eq!(MatchResult::Matched(1), p.matches("b"));
    assert_eq!(MatchResult::Failed, p.matches("c"));
    assert_eq!(MatchResult::Failed, p.matches(""));

    let p = new_pattern("ab{(ab)}|c");
    assert_eq!(MatchResult::Failed, p.matches("a"));
    assert_eq!(MatchResult::Matched(2), p.matches("ab"));
    assert_eq!(MatchResult::Matched(2), p.matches("aba"));
    assert_eq!(MatchResult::Matched(4), p.matches("abab"));
    assert_eq!(MatchResult::Matched(1), p.matches("c"));
    assert_eq!(MatchResult::Matched(1), p.matches("ca"));
    assert_eq!(MatchResult::Matched(1), p.matches("cab"));
}

#[test]
fn utf8() {
    let p = new_pattern("[açé]");
    assert_eq!(MatchResult::Matched(1), p.matches("a"));
    assert_eq!(MatchResult::Matched('ç'.len_utf8()), p.matches("ç"));
    assert_eq!(MatchResult::Matched('é'.len_utf8()), p.matches("é"));

    let p = new_pattern(".");
    assert_eq!(MatchResult::Matched(1), p.matches("a"));
    assert_eq!(MatchResult::Matched('ç'.len_utf8()), p.matches("ç"));
    assert_eq!(MatchResult::Matched('é'.len_utf8()), p.matches("é"));
}

#[test]
fn bad_pattern() {
    assert!(matches!(
        try_new_pattern("("),
        Err(PatternError {
            kind: PatternErrorKind::UnexpectedEndOfPattern,
            ..
        })
    ));
    assert!(matches!(
        try_new_pattern(")"),
        Err(PatternError {
            kind: PatternErrorKind::Unescaped(')'),
            ..
        })
    ));
    assert!(matches!(
        try_new_pattern("["),
        Err(PatternError {
            kind: PatternErrorKind::UnexpectedEndOfPattern,
            ..
        })
    ));
    assert!(matches!(
        try_new_pattern("]"),
        Err(PatternError {
            kind: PatternErrorKind::Unescaped(']'),
            ..
        })
    ));
    assert!(matches!(
        try_new_pattern("[]"),
        Err(PatternError {
            kind: PatternErrorKind::EmptyGroup,
            ..
        })
    ));
    assert!(matches!(
        try_new_pattern("{"),
        Err(PatternError {
            kind: PatternErrorKind::UnexpectedEndOfPattern,
            ..
        })
    ));
    assert!(matches!(
        try_new_pattern("}"),
        Err(PatternError {
            kind: PatternErrorKind::Unescaped('}'),
            ..
        })
    ));
    assert!(matches!(
        try_new_pattern("%"),
        Err(PatternError {
            kind: PatternErrorKind::UnexpectedEndOfPattern,
            ..
        })
    ));
    assert!(matches!(
        try_new_pattern("!"),
        Err(PatternError {
            kind: PatternErrorKind::Unescaped('!'),
            ..
        })
    ));
    assert!(matches!(
        try_new_pattern("%@"),
        Err(PatternError {
            kind: PatternErrorKind::InvalidEscaping('@'),
            ..
        })
    ));
    assert!(matches!(
        try_new_pattern("|"),
        Err(PatternError {
            kind: PatternErrorKind::Unescaped('|'),
            ..
        })
    ));
    assert!(matches!(
        try_new_pattern("a|"),
        Err(PatternError {
            kind: PatternErrorKind::UnexpectedEndOfPattern,
            ..
        })
    ));
}

