use ink_md::paint::{highlight_query_in_line, restyle_columns, Piece};

fn line(texts: &[&str]) -> Vec<String> {
    texts.iter().map(|t| t.to_string()).collect()
}

fn texts_of(ps: &[Piece]) -> Vec<String> {
    ps.iter().map(|p| p.text.clone()).collect()
}

fn highlight(text: &str, query: &str) -> Vec<Piece> {
    highlight_query_in_line(&line(&[text]), query)
}

#[test]
fn highlights_plain_ascii_match() {
    let out = highlight("Hello World", "world");
    assert_eq!(texts_of(&out), vec!["Hello ", "World"]);
    assert!(!out[0].painted);
    assert!(out[1].painted);
}

#[test]
fn highlights_every_occurrence() {
    let out = highlight("aXaXa", "x");
    assert_eq!(texts_of(&out), vec!["a", "X", "a", "X", "a"]);
    let painted: Vec<bool> = out.iter().map(|p| p.painted).collect();
    assert_eq!(painted, vec![false, true, false, true, false]);
}

#[test]
fn length_changing_case_folding_does_not_panic() {
    assert!(!texts_of(&highlight("İstanbul", "i")).is_empty());
    assert!(!texts_of(&highlight("MASSE ẞ", "masse")).is_empty());
    assert_eq!(texts_of(&highlight("İstanbul", "i")).concat(), "İstanbul");
    assert_eq!(texts_of(&highlight("aİb", "i")).concat(), "aİb");
}

#[test]
fn empty_query_returns_line_unchanged() {
    let out = highlight("anything", "");
    assert_eq!(texts_of(&out), vec!["anything"]);
    assert!(!out[0].painted);
}

#[test]
fn a_match_inside_one_characters_expansion_paints_nothing_of_it() {
    // "İ" lowercases to "i" and a combining dot: "i\u{307}" matches only
    // across the whole expansion, so the whole character is painted.
    let out = highlight("aİb", "i\u{307}");
    assert_eq!(texts_of(&out), vec!["a", "İ", "b"]);
    assert!(out[1].painted);
}

#[test]
fn highlight_keeps_each_piece_with_its_span() {
    let out = highlight_query_in_line(&line(&["find ", "me here"]), "ME");
    assert_eq!(texts_of(&out), vec!["find ", "me", " here"]);
    let spans: Vec<Option<usize>> = out.iter().map(|p| p.span).collect();
    assert_eq!(spans, vec![Some(0), Some(1), Some(1)]);
}

fn painted_text(ps: &[Piece]) -> String {
    ps.iter().filter(|p| p.painted).map(|p| p.text.as_str()).collect()
}

#[test]
fn restyle_splits_a_span_at_the_selection_edges() {
    let out = restyle_columns(&line(&["hello world"]), 6, 11);
    let got: Vec<(String, bool)> = out.iter().map(|p| (p.text.clone(), p.painted)).collect();
    assert_eq!(got, vec![("hello ".to_string(), false), ("world".to_string(), true)]);
}

#[test]
fn restyle_spans_a_selection_across_several_spans() {
    let out = restyle_columns(&line(&["ab", "cd", "ef"]), 1, 5);
    assert_eq!(painted_text(&out), "bcde");
}

#[test]
fn restyle_never_splits_a_wide_glyph() {
    let out = restyle_columns(&line(&["世界"]), 1, 4);
    assert_eq!(painted_text(&out), "世界");
}

#[test]
fn restyle_marks_the_swallowed_newline_with_one_trailing_cell() {
    let out = restyle_columns(&line(&["short"]), 0, 6);
    let last = out.last().unwrap();
    assert_eq!(last.text, " ");
    assert!(last.painted);
    assert_eq!(last.span, None);
}

#[test]
fn restyle_leaves_a_line_outside_the_range_untouched() {
    let out = restyle_columns(&line(&["hello"]), 8, 12);
    assert_eq!((out[0].text.as_str(), out[0].painted), ("hello", false));
    // Past the end of the text: the line break cell is painted.
    assert_eq!(out.len(), 2);
}

#[test]
fn restyle_inside_the_text_adds_no_trailing_cell() {
    let out = restyle_columns(&line(&["abcdef"]), 1, 3);
    assert_eq!(texts_of(&out), vec!["a", "bc", "def"]);
    let painted: Vec<bool> = out.iter().map(|p| p.painted).collect();
    assert_eq!(painted, vec![false, true, false]);
}
