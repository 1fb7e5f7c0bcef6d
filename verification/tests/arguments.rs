use codex_prompts::arguments::expand_arguments;

#[test]
fn expand_arguments_only_rest() {
    let content = "Hello $ARGUMENTS!";
    let expanded = expand_arguments(content, &[], "world and friends");
    assert_eq!(expanded, "Hello world and friends!");
}

#[test]
fn expand_arguments_only_positionals() {
    let content = "first=$1 second=$2 missing=$3";
    let args = vec!["A".to_string(), "B".to_string()];
    let expanded = expand_arguments(content, &args, "");
    assert_eq!(expanded, "first=A second=B missing=");
}

#[test]
fn expand_arguments_mixed_and_repeated() {
    let content = "ID $2; All: $ARGUMENTS; Again $2 and $1";
    let args = vec!["X".to_string(), "Y".to_string()];
    let expanded = expand_arguments(content, &args, "foo bar baz");
    assert_eq!(expanded, "ID Y; All: foo bar baz; Again Y and X");
}

#[test]
fn expand_arguments_preserves_newlines_in_rest() {
    let content = "Header:\n$ARGUMENTS\nTail (pos=$1)";
    let args = vec!["A".to_string()];
    let rest = "line 1\nline 2";
    let expanded = expand_arguments(content, &args, rest);
    assert_eq!(expanded, "Header:\nline 1\nline 2\nTail (pos=A)");
}

#[test]
fn text_without_placeholders_is_unchanged() {
    let content = "No placeholders here.\nJust text.";
    assert_eq!(expand_arguments(content, &["A".to_string()], "rest"), content);
}

#[test]
fn lone_dollar_is_literal() {
    assert_eq!(expand_arguments("cost: $ and $x", &[], "r"), "cost: $ and $x");
    assert_eq!(expand_arguments("$", &[], "r"), "$");
    assert_eq!(expand_arguments("$ARGUMENT", &[], "r"), "$ARGUMENT");
}

#[test]
fn zero_and_large_indices_expand_to_nothing() {
    let args = vec!["A".to_string()];
    assert_eq!(expand_arguments("[$0]", &args, ""), "[]");
    assert_eq!(expand_arguments("[$99]", &args, ""), "[]");
    assert_eq!(expand_arguments("[$99999999999999999999999999]", &args, ""), "[]");
}

#[test]
fn multi_digit_index_and_trailing_digits() {
    let args: Vec<String> = (1..=12).map(|i| format!("a{i}")).collect();
    assert_eq!(expand_arguments("$12!", &args, ""), "a12!");
    assert_eq!(expand_arguments("$01", &args, ""), "a1");
    assert_eq!(expand_arguments("$1x$2", &args, ""), "a1xa2");
}

#[test]
fn arguments_token_directly_followed_by_text() {
    assert_eq!(expand_arguments("$ARGUMENTSX", &[], "R"), "RX");
    assert_eq!(expand_arguments("$ARGUMENTS$ARGUMENTS", &[], "R"), "RR");
}

#[test]
fn non_ascii_text_is_kept() {
    let args = vec!["x".to_string()];
    assert_eq!(expand_arguments("é $1", &args, ""), "é x");
    assert_eq!(expand_arguments("日本 $ARGUMENTS ü", &[], "ř"), "日本 ř ü");
}

#[test]
fn partial_token_before_non_ascii_is_literal() {
    assert_eq!(expand_arguments("$ARGUMENTé", &[], "R"), "$ARGUMENTé");
}
