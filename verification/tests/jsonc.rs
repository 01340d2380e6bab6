use dprintx::jsonc::{strip_jsonc_comments, strip_trailing_commas};

#[test]
fn test_strip_jsonc_comments() {
    let input = r#"{
  // line comment
  "key": "value", // inline comment
  /* block comment */
  "key2": "val with // not a comment"
}"#;
    let result = strip_jsonc_comments(input);
    assert!(result.contains("\"key\": \"value\""));
    assert!(result.contains("\"key2\": \"val with // not a comment\""));
    assert!(!result.contains("line comment"));
    assert!(!result.contains("inline comment"));
    assert!(!result.contains("block comment"));
}

#[test]
fn test_strip_trailing_commas() {
    let input = r#"{"a": 1, "b": 2,}"#;
    let result = strip_trailing_commas(input);
    assert_eq!(result, r#"{"a": 1, "b": 2}"#);
}

#[test]
fn plain_json_is_unchanged() {
    let input = r#"{"a": [1, 2, {"b": "c"}], "d": null}"#;
    assert_eq!(strip_jsonc_comments(input), input);
}

#[test]
fn strings_keep_comments_and_commas() {
    let input = r#"["// no", "/* no */", ",]", "\"// still,}"]"#;
    assert_eq!(strip_jsonc_comments(input), input);
}

#[test]
fn line_comments_end_with_the_line() {
    assert_eq!(strip_jsonc_comments("1 // one\n, 2"), "1 \n, 2");
    assert_eq!(strip_jsonc_comments("1 // one"), "1 ");
    assert_eq!(strip_jsonc_comments("//"), "");
}

#[test]
fn block_comments_end_with_their_mark() {
    assert_eq!(strip_jsonc_comments("1/* a\n b */2"), "12");
    assert_eq!(strip_jsonc_comments("1/**/2"), "12");
    assert_eq!(strip_jsonc_comments("1/*/2*/3"), "13");
}

#[test]
fn open_block_comment_keeps_its_last_character() {
    assert_eq!(strip_jsonc_comments("1/* abc"), "1c");
    assert_eq!(strip_jsonc_comments("1/*"), "1");
}

#[test]
fn trailing_commas_go_with_white_space_between() {
    assert_eq!(strip_trailing_commas("[1, 2 , \n\t]"), "[1, 2  \n\t]");
    assert_eq!(strip_trailing_commas("[1,\u{3000}]"), "[1\u{3000}]");
    assert_eq!(strip_trailing_commas("{\"a\":1,"), "{\"a\":1,");
    assert_eq!(strip_trailing_commas("[1,,]"), "[1,]");
}

#[test]
fn comment_behind_a_trailing_comma() {
    assert_eq!(strip_jsonc_comments("[1, // last\n]"), "[1 \n]");
}

#[test]
fn open_strings_are_kept() {
    assert_eq!(strip_jsonc_comments("\"a // b"), "\"a // b");
    assert_eq!(strip_jsonc_comments("\"a\\"), "\"a\\");
}

#[test]
fn stripping_keeps_the_value_and_settles() {
    for (jsonc, json) in [
        ("{}", "{}"),
        ("// a\n{ /* b */ }", "{}"),
        ("/*,]*/[1, [2,], {\"a\" /**/ : // c\n \"x,]\", /* d */ } , ] // e", "[1,[2],{\"a\":\"x,]\"}]"),
        ("\"/* no */\" /* yes */", "\"/* no */\""),
    ] {
        let once = strip_jsonc_comments(jsonc);
        let value: serde_json::Value = serde_json::from_str(&once).unwrap();
        assert_eq!(value.to_string(), json);
        assert_eq!(strip_jsonc_comments(&once), once);
    }
}
