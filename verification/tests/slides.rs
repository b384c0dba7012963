use ink_md::slides::split_slides;

#[test]
fn splits_on_top_level_rule() {
    let s = "# A\n\nfirst\n\n---\n\n# B\n\nsecond\n";
    let slides = split_slides(s);
    assert_eq!(slides.len(), 2);
    assert!(slides[0].contains("first"));
    assert!(slides[1].contains("second"));
}

#[test]
fn ignores_rule_inside_code_fence() {
    let s = "# A\n\n```\n---\n```\n\nstill slide one\n";
    let slides = split_slides(s);
    assert_eq!(slides.len(), 1);
    assert!(slides[0].contains("still slide one"));
}

#[test]
fn setext_underline_is_not_a_break() {
    let s = "Heading Two\n---\n\nbody\n";
    let slides = split_slides(s);
    assert_eq!(slides.len(), 1);
    assert!(slides[0].contains("Heading Two"));
    assert!(slides[0].contains("---"));
}

#[test]
fn indented_dashes_are_not_a_break() {
    let s = "# A\n\n    ---\n\nstill slide one\n";
    let slides = split_slides(s);
    assert_eq!(slides.len(), 1);
    assert!(slides[0].contains("still slide one"));
}

#[test]
fn rule_after_blank_line_still_breaks() {
    let s = "para\n\n---\n\nnext\n";
    let slides = split_slides(s);
    assert_eq!(slides.len(), 2);
    assert!(slides[0].contains("para"));
    assert!(slides[1].contains("next"));
}

#[test]
fn rule_on_first_line_breaks() {
    let s = "---\n\nonly slide\n";
    let slides = split_slides(s);
    assert_eq!(slides.len(), 1);
    assert!(slides[0].contains("only slide"));
}

#[test]
fn single_slide_when_no_breaks() {
    assert_eq!(split_slides("# Only\n\ntext\n").len(), 1);
}

#[test]
fn empty_source_yields_one_slide() {
    assert_eq!(split_slides("").len(), 1);
}

#[test]
fn slides_are_trimmed_of_surrounding_newlines() {
    let slides = split_slides("one\n\n---\n\ntwo\n");
    assert_eq!(slides, vec!["one".to_string(), "two".to_string()]);
}

#[test]
fn slides_are_never_blank_and_never_edged_with_newlines() {
    assert_eq!(split_slides(""), vec![String::new()]);
    assert_eq!(split_slides("---\n\n---\n"), vec![String::new()]);
    let slides = split_slides("\n\n# One\n\n---\n\n\n# Two\n\n\n---\n   \n");
    assert_eq!(slides, vec!["# One".to_string(), "# Two".to_string()]);
    for s in &slides {
        assert!(!s.trim().is_empty() && !s.starts_with('\n') && !s.ends_with('\n'));
    }
}
