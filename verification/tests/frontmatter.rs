use ink_md::parser::frontmatter::strip_frontmatter;

#[test]
fn test_yaml_frontmatter() {
    let source = "---\ntitle: Hello\nauthor: World\n---\n# Content";
    let (fm, rest) = strip_frontmatter(source);
    assert_eq!(fm, Some("title: Hello\nauthor: World".to_string()));
    assert!(rest.contains("# Content"));
}

#[test]
fn test_no_frontmatter() {
    let source = "# Just a heading\nSome content.";
    let (fm, rest) = strip_frontmatter(source);
    assert!(fm.is_none());
    assert_eq!(rest, source);
}

#[test]
fn test_toml_frontmatter() {
    let source = "+++\ntitle = \"Hello\"\n+++\n# Content";
    let (fm, rest) = strip_frontmatter(source);
    assert!(fm.is_some());
    assert!(rest.contains("# Content"));
}

#[test]
fn yaml_closed_by_dots() {
    let source = "---\ntitle: Hello\n...\n# Content";
    let (fm, rest) = strip_frontmatter(source);
    assert_eq!(fm, Some("title: Hello".to_string()));
    assert!(rest.contains("# Content"));
}

#[test]
fn leading_thematic_break_is_not_frontmatter() {
    let source = "---\n\n# Intro\n\nBody text\n\n-----\n\nMore\n";
    let (fm, rest) = strip_frontmatter(source);
    assert!(fm.is_none());
    assert_eq!(rest, source);
    assert!(rest.contains("Intro"));
    assert!(rest.contains("Body text"));
}

#[test]
fn delimiters_without_keys_are_not_frontmatter() {
    let source = "---\nnot a key line\n---\ntext";
    let (fm, rest) = strip_frontmatter(source);
    assert!(fm.is_none());
    assert_eq!(rest, source);
}

#[test]
fn unclosed_opener_is_not_frontmatter() {
    let source = "---\ntitle: Hello\nno closer here";
    let (fm, rest) = strip_frontmatter(source);
    assert!(fm.is_none());
    assert_eq!(rest, source);
}

#[test]
fn opener_must_be_first_line() {
    let source = "intro\n---\ntitle: Hello\n---\n";
    let (fm, rest) = strip_frontmatter(source);
    assert!(fm.is_none());
    assert_eq!(rest, source);
}

#[test]
fn trailing_whitespace_on_delimiters_ok() {
    let source = "--- \ntitle: Hello\n---\t\n# Content";
    let (fm, rest) = strip_frontmatter(source);
    assert_eq!(fm, Some("title: Hello".to_string()));
    assert!(rest.contains("# Content"));
}

#[test]
fn frontmatter_body_is_exactly_what_follows_the_closer() {
    let (fm, rest) = strip_frontmatter("---\na: 1\n---\nbody\n");
    assert_eq!(fm.as_deref(), Some("a: 1"));
    assert_eq!(rest, "body\n");
}

#[test]
fn empty_source_has_no_frontmatter() {
    let (fm, rest) = strip_frontmatter("");
    assert!(fm.is_none());
    assert_eq!(rest, "");
}

#[test]
fn frontmatter_is_only_taken_from_the_head() {
    let src = "intro\n---\ntitle: x\n---\nbody\n";
    assert_eq!(strip_frontmatter(src), (None, src.to_string()));
    let (fm, rest) = strip_frontmatter("+++\ntitle = \"x\"\n+++\nbody\n");
    assert_eq!(fm.as_deref(), Some("title = \"x\""));
    assert_eq!(rest, "body\n");
}
