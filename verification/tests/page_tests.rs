use contribution_showcase::page::{escape_html, escape_json_for_html_script, parse_csv_list};

#[test]
fn test_escape_script_close_tag() {
    let input = r#"{"html":"</script>"}"#;
    let escaped = escape_json_for_html_script(input);
    assert!(!escaped.contains("</script>"));
    assert!(escaped.contains(r"\u003c/script\u003e"));
}

#[test]
fn test_escape_angle_brackets_and_ampersand() {
    let input = r#"{"a":"<b>&c</b>"}"#;
    let escaped = escape_json_for_html_script(input);
    assert!(!escaped.contains('<'));
    assert!(!escaped.contains('>'));
    assert!(!escaped.contains('&'));
}

#[test]
fn test_escape_line_separator_chars() {
    let input = "line\u{2028}sep\u{2029}end";
    let escaped = escape_json_for_html_script(input);
    assert!(!escaped.contains('\u{2028}'));
    assert!(!escaped.contains('\u{2029}'));
    assert!(escaped.contains(r"\u2028"));
    assert!(escaped.contains(r"\u2029"));
}

#[test]
fn test_escaped_json_is_valid_js() {
    let input = r#"{"key":"value<>&"}"#;
    let escaped = escape_json_for_html_script(input);
    assert!(!escaped.contains('<'));
    assert!(!escaped.contains('>'));
    assert!(!escaped.contains('&'));
}

#[test]
fn test_escape_html_plain_text() {
    assert_eq!(escape_html("hello world"), "hello world");
}

#[test]
fn test_escape_html_empty_string() {
    assert_eq!(escape_html(""), "");
}

#[test]
fn test_escape_html_ampersand() {
    assert_eq!(escape_html("Tom & Jerry"), "Tom &amp; Jerry");
}

#[test]
fn test_escape_html_angle_brackets() {
    assert_eq!(escape_html("<script>"), "&lt;script&gt;");
}

#[test]
fn test_escape_html_double_quotes() {
    assert_eq!(escape_html(r#"say "hi""#), "say &quot;hi&quot;");
}

#[test]
fn test_escape_html_combined_characters() {
    assert_eq!(
        escape_html("A & B <C> \"D\""),
        "A &amp; B &lt;C&gt; &quot;D&quot;"
    );
}

#[test]
fn test_escape_html_title_breakout_payload() {
    let payload = r#"</title><script>alert(1)</script>"#;
    let escaped = escape_html(payload);
    assert_eq!(
        escaped,
        "&lt;/title&gt;&lt;script&gt;alert(1)&lt;/script&gt;"
    );
    assert!(!escaped.contains("</title>"));
}

#[test]
fn test_parse_csv_list_lowercases_and_trims() {
    assert_eq!(parse_csv_list(" Feat , FIX ", true), vec!["feat", "fix"]);
    assert_eq!(parse_csv_list(",,", true), Vec::<String>::new());
    assert_eq!(parse_csv_list("AbC123", true), vec!["abc123"]);
    assert_eq!(parse_csv_list(" Feat , FIX ", false), vec!["Feat", "FIX"]);
}

