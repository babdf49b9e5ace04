use cloak::jsonc::strip_jsonc_comments;
use serde_json::Value;

#[test]
fn strip_jsonc_comments_keeps_comment_like_text_inside_strings() {
    let input = r#"{
  // comment
  "url": "https://example.com/a/*b*/c",
  "v": 1 /* trailing block */
}"#;
    let stripped = strip_jsonc_comments(input);
    let parsed: Value = serde_json::from_str(&stripped).expect("json parse failed");
    assert_eq!(parsed["url"], "https://example.com/a/*b*/c");
    assert_eq!(parsed["v"], 1);
}

#[test]
fn strips_line_comments_to_end_of_line() {
    let stripped = strip_jsonc_comments("{\n// gone\n\"a\": 1 // tail\n}");
    assert_eq!(stripped, "{\n\n\"a\": 1 \n}");
}

#[test]
fn strips_block_comments_in_place() {
    let stripped = strip_jsonc_comments("{\"a\"/* x */: 1}");
    assert_eq!(stripped, "{\"a\": 1}");
}

#[test]
fn keeps_escaped_quotes_inside_strings() {
    let stripped = strip_jsonc_comments(r#"{"a": "b\"//c"}"#);
    assert_eq!(stripped, r#"{"a": "b\"//c"}"#);
}

#[test]
fn plain_json_passes_through_unchanged() {
    let input = "{\"editor.tabSize\": 2}\n";
    assert_eq!(strip_jsonc_comments(input), input);
}
