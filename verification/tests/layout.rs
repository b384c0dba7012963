use ink_md::layout::lines::{sanitize_lines, split_text_with_urls, trim_trailing_blank};
use ink_md::layout::{coalesce_line, split_by_width, wrap_code_spans, wrap_spans, SpanStyle, StyledLine, StyledSpan};

fn span(text: &str, bold: bool) -> StyledSpan {
    StyledSpan { text: text.to_string(), style: SpanStyle { bold, ..Default::default() } }
}

fn line_text(line: &StyledLine) -> String {
    line.spans.iter().map(|s| s.text.as_str()).collect()
}

#[test]
fn keeps_space_before_styled_span() {
    let spans = vec![span("roughly ", false), span("17,800 km", true)];
    let lines = wrap_spans(spans, 80, 0, 0);
    assert_eq!(line_text(&lines[0]), "roughly 17,800 km");
}

#[test]
fn keeps_space_after_styled_span() {
    let spans = vec![span("17,800 km", true), span(" logged", false)];
    let lines = wrap_spans(spans, 80, 0, 0);
    assert_eq!(line_text(&lines[0]), "17,800 km logged");
}

#[test]
fn keeps_space_between_adjacent_styled_spans() {
    let spans = vec![span("touched ", false), span("44 bpm", true)];
    let lines = wrap_spans(spans, 80, 0, 0);
    assert_eq!(line_text(&lines[0]), "touched 44 bpm");
}

#[test]
fn wrap_breaks_between_words_and_keeps_the_prefix() {
    let lines = wrap_spans(vec![span("aaa bbb ccc", false)], 9, 2, 1);
    let texts: Vec<String> = lines.iter().map(line_text).collect();
    assert_eq!(texts, vec!["   aaa bbb".to_string(), "   ccc".to_string()]);
    // Margin, indent and the plain words merge into one span per line.
    assert_eq!(lines[0].spans.len(), 1);
}

#[test]
fn wrap_hard_breaks_an_overlong_token() {
    let lines = wrap_spans(vec![span("abcdefgh", false)], 3, 0, 0);
    let texts: Vec<String> = lines.iter().map(line_text).collect();
    assert_eq!(texts, vec!["abc".to_string(), "def".to_string(), "gh".to_string()]);
}

#[test]
fn wrap_without_room_keeps_spans_behind_the_margin() {
    let lines = wrap_spans(vec![span("x y", false)], 2, 2, 3);
    assert_eq!(lines.len(), 1);
    assert_eq!(line_text(&lines[0]), "   x y");
    let empty = wrap_spans(Vec::new(), 40, 0, 0);
    assert_eq!(empty.len(), 1);
    assert!(empty[0].spans.is_empty());
}

#[test]
fn split_by_width_breaks_between_characters() {
    assert_eq!(split_by_width("abcdefg", 3), vec!["abc", "def", "g"]);
    assert_eq!(split_by_width("世界x", 3), vec!["世", "界x"]);
    assert_eq!(split_by_width("ab", 0), vec!["a", "b"]);
    assert!(split_by_width("", 4).is_empty());
}

#[test]
fn code_wrap_preserves_every_character() {
    let spans = vec![span("  fn x", false), span("() {}", true)];
    let lines = wrap_code_spans(spans, 4);
    let joined: String = lines.iter().flat_map(|l| l.iter().map(|s| s.text.clone())).collect();
    assert_eq!(joined, "  fn x() {}");
    assert_eq!(lines.len(), 3);
    assert_eq!(lines[0][0].text, "  fn");
    assert_eq!(wrap_code_spans(Vec::new(), 10).len(), 1);
}

#[test]
fn coalescing_merges_same_styled_neighbours() {
    let mut line = StyledLine { spans: vec![span("a", false), span("b", false), span("c", true), span("d", false)] };
    coalesce_line(&mut line);
    let texts: Vec<&str> = line.spans.iter().map(|s| s.text.as_str()).collect();
    assert_eq!(texts, vec!["ab", "c", "d"]);
}

#[test]
fn trailing_blank_lines_are_dropped() {
    let mut lines = vec![
        StyledLine { spans: vec![span("x", false)] },
        StyledLine { spans: vec![span("  ", false)] },
        StyledLine::empty(),
    ];
    trim_trailing_blank(&mut lines);
    assert_eq!(lines.len(), 1);
}

#[test]
fn sanitizing_strips_controls_and_bad_links() {
    let mut lines = vec![StyledLine {
        spans: vec![StyledSpan {
            text: "a\x1b[2Jb".to_string(),
            style: SpanStyle { link_url: Some("javascript:x".to_string()), ..Default::default() },
        }],
    }];
    sanitize_lines(&mut lines);
    assert_eq!(lines[0].spans[0].text, "a[2Jb");
    assert_eq!(lines[0].spans[0].style.link_url, None);
}

#[test]
fn bare_urls_become_links() {
    let mut spans = Vec::new();
    split_text_with_urls("see https://example.com/x. and more", &SpanStyle::default(), "#89b4fa", &mut spans);
    let texts: Vec<&str> = spans.iter().map(|s| s.text.as_str()).collect();
    assert_eq!(texts, vec!["see ", "https://example.com/x", ". and more"]);
    assert_eq!(spans[1].style.link_url.as_deref(), Some("https://example.com/x"));
    assert_eq!(spans[1].style.fg.as_deref(), Some("#89b4fa"));
    assert!(spans[1].style.underline);
    assert_eq!(spans[0].style, SpanStyle::default());
}

#[test]
fn styled_line_helpers() {
    let l = StyledLine::plain("héllo");
    assert_eq!(l.spans.len(), 1);
    assert_eq!(l.width(), 5);
    let mut e = StyledLine::new();
    e.push(span("ab", true));
    assert_eq!(e.width(), 2);
    assert!(StyledLine::empty().spans.is_empty());
}

#[test]
fn wrapped_lines_fit_margin_plus_width() {
    let text = "short words then averyveryveryverylongunbreakabletokenthatmusthardbreak and ⚠️⚠️⚠️⚠️⚠️⚠️⚠️⚠️⚠️⚠️⚠️⚠️ emoji run";
    let spans = vec![StyledSpan { text: text.to_string(), style: SpanStyle::default() }];
    for max in [10usize, 13, 20, 31] {
        let lines = wrap_spans(spans.clone(), max, 2, 3);
        for l in &lines {
            let w: usize = l.spans.iter().map(|s| unicode_width::UnicodeWidthStr::width(s.text.as_str())).sum();
            assert!(w <= 3 + max, "width {w} > {} at max {max}", 3 + max);
        }
        let kept: String = lines.iter().flat_map(|l| l.spans.iter()).flat_map(|s| s.text.chars()).filter(|c| *c != ' ').collect();
        assert_eq!(kept, text.chars().filter(|c| *c != ' ').collect::<String>());
    }
}
