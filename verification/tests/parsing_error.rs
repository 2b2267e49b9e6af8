use pepper::script_bindings::parsing_error;

#[test]
fn parsing_error_points_at_the_place() {
    assert_eq!("bad at ''", parsing_error("bad", "", 0));
    assert_eq!("bad at here -> 'abc'", parsing_error("bad", "abc", 0));
    assert_eq!("bad at 'a' <- here 'bc'", parsing_error("bad", "abc", 1));
    assert_eq!("bad at 'abc' <- here", parsing_error("bad", "abc", 3));
}

#[test]
fn parsing_error_splits_between_chars() {
    assert_eq!("oops at 'é' <- here 'x'", parsing_error("oops", "éx", 2));
}
