use ink_md::sanitize::{local_candidates, percent_decode, percent_decode_bytes, sanitize_text, sanitize_url};
use std::borrow::Cow;

#[test]
fn passes_clean_text_through_borrowed() {
    assert!(matches!(sanitize_text("hello world"), Cow::Borrowed(_)));
    assert!(matches!(sanitize_text("tabs\tok"), Cow::Borrowed(_)));
}

#[test]
fn strips_escape_sequences() {
    assert_eq!(sanitize_text("a\x1b[2Jb"), "a[2Jb");
    assert_eq!(sanitize_text("t\x1b]0;pwned\x07x"), "t]0;pwnedx");
    assert_eq!(sanitize_text("c1\u{9b}31mred"), "c131mred");
    assert_eq!(sanitize_text("del\x7fx"), "delx");
    assert_eq!(sanitize_text("nl\ncr\r"), "nlcr");
}

#[test]
fn url_allows_web_schemes_and_relative() {
    assert!(sanitize_url("https://example.com/a?b#c").is_some());
    assert!(sanitize_url("http://example.com").is_some());
    assert!(sanitize_url("mailto:a@b.com").is_some());
    assert!(sanitize_url("docs/readme.md").is_some());
    assert!(sanitize_url("../sibling.md").is_some());
    assert!(sanitize_url("#anchor").is_some());
}

#[test]
fn url_rejects_dangerous() {
    assert!(sanitize_url("javascript:alert(1)").is_none());
    assert!(sanitize_url("file:///etc/passwd").is_none());
    assert!(sanitize_url("data:text/html,x").is_none());
    assert!(sanitize_url("https://x.com/\x1b\\\x1b]0;t\x07").is_none());
    assert!(sanitize_url("https://x.com/\x07").is_none());
}

#[test]
fn allowed_url_comes_back_unchanged() {
    assert_eq!(sanitize_url("HTTPS://Example.com/x").as_deref(), Some("HTTPS://Example.com/x"));
    assert_eq!(sanitize_url("notes/a:b.md").as_deref(), Some("notes/a:b.md"));
}

#[test]
fn sanitizing_is_idempotent_on_an_example() {
    let once = sanitize_text("x\x1b[1my\u{85}z").into_owned();
    assert_eq!(once, "x[1myz");
    assert!(matches!(sanitize_text(&once), Cow::Borrowed(_)));
}

#[test]
fn percent_decoding_decodes_escapes_and_passes_malformed_ones() {
    assert_eq!(percent_decode_bytes(b"a%20b"), b"a b".to_vec());
    assert_eq!(percent_decode_bytes(b"%zz%4"), b"%zz%4".to_vec());
    assert_eq!(percent_decode("my%20notes.md").as_deref(), Some("my notes.md"));
    assert_eq!(percent_decode("plain.md"), None);
    assert_eq!(percent_decode("%ff"), None);
}

#[test]
fn local_candidates_try_literal_then_decoded_then_stripped() {
    assert_eq!(local_candidates("pic.png"), vec!["pic.png".to_string()]);
    assert_eq!(
        local_candidates("my%20pic.png?raw=true"),
        vec![
            "my%20pic.png?raw=true".to_string(),
            "my pic.png?raw=true".to_string(),
            "my%20pic.png".to_string(),
            "my pic.png".to_string(),
        ]
    );
}

#[test]
fn leading_blank_does_not_hide_a_scheme() {
    assert!(sanitize_url(" javascript:alert(1)").is_none());
    assert!(sanitize_url("   data:text/html,x").is_none());
    assert_eq!(sanitize_url(" https://x.io").as_deref(), Some(" https://x.io"));
    assert_eq!(sanitize_url(" docs/a.md").as_deref(), Some(" docs/a.md"));
}
