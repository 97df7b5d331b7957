use epicode::text::{strip_html, truncate_str};

#[test]
fn strip_html_removes_tags() {
    assert_eq!(strip_html("<p>hello</p>").trim(), "hello");
}

#[test]
fn strip_html_drops_script_content() {
    let clean = strip_html("<script>alert('xss')</script>");
    assert!(!clean.contains("alert"));
    assert!(!clean.contains("script"));
}

#[test]
fn strip_html_decodes_entities() {
    assert_eq!(strip_html("&lt;hello&gt;").trim(), "<hello>");
}

#[test]
fn strip_html_preserves_text_symbols() {
    assert_eq!(strip_html("3 < 4 && 5 > 6").trim(), "3 < 4 && 5 > 6");
}

#[test]
fn truncate_str_keeps_short_strings_unchanged() {
    assert_eq!(truncate_str("hello", 10), "hello");
}

#[test]
fn truncate_str_cuts_at_boundary() {
    assert_eq!(truncate_str("hello world", 5), "hello");
}

#[test]
fn truncate_str_does_not_split_multibyte() {
    let s = "你好";
    let truncated = truncate_str(s, 4);
    assert_eq!(truncated, "你");
}

#[test]
fn truncate_str_handles_empty_string() {
    assert_eq!(truncate_str("", 10), "");
}

#[test]
fn strips_simple_tags() {
    assert_eq!(strip_html("<p>hello</p>").trim(), "hello");
}

#[test]
fn removes_script_content() {
    let clean = strip_html("<script>alert('xss')</script>");
    assert!(!clean.contains("alert"));
    assert!(!clean.contains("script"));
}

#[test]
fn decodes_entities() {
    assert_eq!(strip_html("&lt;hello&gt;").trim(), "<hello>");
}

#[test]
fn preserves_plain_text_symbols() {
    assert_eq!(strip_html("3 < 4 && 5 > 6").trim(), "3 < 4 && 5 > 6");
}

#[test]
fn handles_nested_tags() {
    assert_eq!(
        strip_html("<div><b>bold</b> and <i>italic</i></div>").trim(),
        "**bold** and italic"
    );
}

#[test]
fn drops_img_event_handlers() {
    let clean = strip_html("<img src=x onerror=alert(1)> click");
    assert!(!clean.contains("alert"));
    assert!(!clean.contains("onerror"));
}

// ---- further cases ----

#[test]
fn truncate_str_to_zero_is_empty() {
    assert_eq!(truncate_str("abc", 0), "");
    assert_eq!(truncate_str("é", 1), "");
    assert_eq!(truncate_str("aé", 2), "a");
    assert_eq!(truncate_str("aé", 3), "aé");
}

#[test]
fn strip_html_changes_markup() {
    // The rendered text differs from the markup it came from.
    assert_ne!(strip_html("<p>x</p>"), "<p>x</p>");
}

#[test]
fn control_characters_do_not_stop_rendering() {
    let long = "a".repeat(10001);
    let html = format!("<p>\u{1}{}</p><pre>x\u{7f}\u{85}y\tz</pre>", long);
    let text = strip_html(&html);
    assert!(text.contains(&long[..100]));
    assert!(!text.contains('\u{1}'));
}
