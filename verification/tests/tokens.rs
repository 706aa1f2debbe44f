use assert_env::tokenize::split_args;

#[test]
fn unterminated_quote_still_flushes() {
    assert_eq!(split_args("echo 'abc"), vec!["echo", "abc"]);
    assert_eq!(split_args("\"half"), vec!["half"]);
}

#[test]
fn empty_quotes_make_no_token() {
    assert_eq!(split_args("''"), Vec::<String>::new());
    assert_eq!(split_args("a '' b"), vec!["a", "b"]);
    assert_eq!(split_args("a ''b"), vec!["a", "b"]);
}

#[test]
fn adjacent_segments_concatenate() {
    assert_eq!(split_args("'a'\"b\"c"), vec!["abc"]);
    assert_eq!(split_args("x'y z'"), vec!["xy z"]);
}

#[test]
fn whitespace_runs_collapse() {
    assert_eq!(split_args("\t a \n b \t"), vec!["a", "b"]);
    assert_eq!(split_args("   "), Vec::<String>::new());
}

#[test]
fn quoted_whitespace_is_kept() {
    assert_eq!(split_args("' leading and trailing '"), vec![" leading and trailing "]);
}
