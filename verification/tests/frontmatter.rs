use codex_prompts::frontmatter::{parse_frontmatter_and_body, parse_frontmatter_report, split_frontmatter};

#[test]
fn frontmatter_valid_yaml_is_parsed_and_unknown_keys_ignored() {
    let input = "---\ndescription: Hello world\nargument_hint: <arg>\nmodel: gpt-5-medium\nunknown: foo\n---\nBody starts here\n";
    let (meta, body) = parse_frontmatter_and_body(input);
    assert_eq!(body, "Body starts here\n");
    assert_eq!(meta.get("description"), Some(&"Hello world".to_string()));
    assert_eq!(meta.get("argument_hint"), Some(&"<arg>".to_string()));
    assert_eq!(meta.get("model"), Some(&"gpt-5-medium".to_string()));
    assert!(meta.get("unknown").is_none());
}

#[test]
fn frontmatter_malformed_yaml_is_ignored() {
    let input = "---\ndescription: [unterminated\n---\nHello\n";
    let (meta, body) = parse_frontmatter_and_body(input);
    assert!(meta.is_empty());
    assert_eq!(body, input);
}

#[test]
fn frontmatter_missing_terminator_is_ignored() {
    let input = "---\ndescription: hi\nBody\n";
    let (meta, body) = parse_frontmatter_and_body(input);
    assert!(meta.is_empty());
    assert_eq!(body, input);
}

#[test]
fn frontmatter_non_string_values_ignored() {
    let input = "---\ndescription: 123\nargument_hint: {a: 1}\nmodel: [a, b]\n---\nHello\n";
    let (meta, body) = parse_frontmatter_and_body(input);
    assert_eq!(body, "Hello\n");
    assert_eq!(meta.get("description"), None);
    assert_eq!(meta.get("argument_hint"), None);
    assert_eq!(meta.get("model"), None);
}

#[test]
fn description_fallback_and_crlf_handling() {
    let input = "---\nargument_hint: <path>\n---\r\n\r\nFirst line after frontmatter\r\nSecond line\r\n";
    let (meta, body) = parse_frontmatter_and_body(input);
    assert_eq!(meta.get("argument_hint"), Some(&"<path>".to_string()));
    assert_eq!(
        body,
        "\r\n\r\nFirst line after frontmatter\r\nSecond line\r\n"
    );
}

#[test]
fn no_frontmatter_keeps_whole_text() {
    let input = "Just content\n";
    let (meta, body) = parse_frontmatter_and_body(input);
    assert!(meta.is_empty());
    assert_eq!(body, input);
}

#[test]
fn argument_hint_with_dash_is_accepted() {
    let input = "---\nargument-hint: <file>\n---\nBody\n";
    let (meta, body) = parse_frontmatter_and_body(input);
    assert_eq!(meta.argument_hint.as_deref(), Some("<file>"));
    assert_eq!(body, "Body\n");
}

#[test]
fn crlf_frontmatter_keeps_crlf_before_body() {
    let input = "---\r\ndescription: Hi\r\n---\r\nBody\r\n";
    let (meta, body) = parse_frontmatter_and_body(input);
    assert_eq!(meta.description.as_deref(), Some("Hi"));
    assert_eq!(body, "\r\nBody\r\n");
}

#[test]
fn earliest_closing_line_ends_the_block() {
    let input = "---\ndescription: one\n---\nmiddle\n---\nend\n";
    let (meta, body) = parse_frontmatter_and_body(input);
    assert_eq!(meta.description.as_deref(), Some("one"));
    assert_eq!(body, "middle\n---\nend\n");
}

#[test]
fn yaml_that_is_not_a_mapping_gives_empty_meta_but_strips_block() {
    let input = "---\n- a\n- b\n---\nBody\n";
    let (meta, body) = parse_frontmatter_and_body(input);
    assert!(meta.is_empty());
    assert_eq!(body, "Body\n");
}

#[test]
fn split_frontmatter_returns_block_and_body() {
    let (yaml, body) = split_frontmatter("---\na: b\n---\nrest").unwrap();
    assert_eq!(yaml, "a: b");
    assert_eq!(body, "rest");
    assert!(split_frontmatter("no block").is_none());
    assert!(split_frontmatter("---\nnever closed\n").is_none());
}

#[test]
fn later_entry_for_same_key_wins() {
    let input = "---\nargument_hint: first\nargument-hint: second\n---\nx";
    let (meta, _) = parse_frontmatter_and_body(input);
    assert_eq!(meta.argument_hint.as_deref(), Some("second"));
}

#[test]
fn closing_line_right_after_opening_closes_empty_block() {
    let (meta, body) = parse_frontmatter_and_body("---\n---\nBody\n");
    assert!(meta.is_empty());
    assert_eq!(body, "Body\n");
    let (yaml, body) = split_frontmatter("---\r\n---\r\nBody").unwrap();
    assert_eq!(yaml, "");
    assert_eq!(body, "\r\nBody");
}

#[test]
fn report_gives_the_yaml_error_of_an_ignored_block() {
    let input = "---\ndescription: [unterminated\n---\nHello\n";
    let (meta, body, error) = parse_frontmatter_report(input);
    assert!(meta.is_empty());
    assert_eq!(body, input);
    assert!(error.is_some());
}

#[test]
fn report_has_no_error_for_valid_or_missing_blocks() {
    let (meta, body, error) = parse_frontmatter_report("---\ndescription: Hi\n---\nBody\n");
    assert_eq!(meta.get("description"), Some(&"Hi".to_string()));
    assert_eq!(body, "Body\n");
    assert!(error.is_none());
    let (_, body, error) = parse_frontmatter_report("---\ndescription: [unterminated\nno closing line\n");
    assert_eq!(body, "---\ndescription: [unterminated\nno closing line\n");
    assert!(error.is_none());
    let (_, _, error) = parse_frontmatter_report("plain text\n");
    assert!(error.is_none());
}
