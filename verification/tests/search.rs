use ink_md::layout::{SpanStyle, StyledLine, StyledSpan};
use ink_md::search::{find_matches, SearchState};

fn line(spans: &[&str]) -> StyledLine {
    StyledLine {
        spans: spans.iter().map(|t| StyledSpan { text: t.to_string(), style: SpanStyle::default() }).collect(),
    }
}

fn doc() -> Vec<StyledLine> {
    vec![line(&["Hello ", "World"]), line(&["nothing here"]), line(&["world peace"]), line(&["wor", "ld"])]
}

#[test]
fn matches_follow_the_highlight() {
    let lines = doc();
    assert_eq!(find_matches(&lines, "world"), vec![0, 2]);
    // A match split across spans is not highlighted, so it is not counted.
    assert_eq!(find_matches(&lines, "WORLD"), vec![0, 2]);
    assert_eq!(find_matches(&lines, ""), Vec::<usize>::new());
    assert_eq!(find_matches(&lines, "zzz"), Vec::<usize>::new());
}

#[test]
fn typing_stepping_and_erasing() {
    let lines = doc();
    let mut s = SearchState::new();
    s.activate();
    assert!(s.active);
    for c in "wor".chars() {
        s.type_char(c, &lines);
    }
    assert_eq!(s.matches, vec![0, 2, 3]);
    assert_eq!(s.current_line(), Some(0));
    s.step(true);
    assert_eq!(s.current_line(), Some(2));
    s.step(false);
    s.step(false);
    assert_eq!(s.current_line(), Some(3));
    s.type_char('x', &lines);
    assert!(s.matches.is_empty());
    assert_eq!(s.current_line(), None);
    s.backspace(&lines);
    assert_eq!(s.query, "wor");
    assert_eq!(s.matches, vec![0, 2, 3]);
    s.confirm();
    assert!(!s.active);
    assert_eq!(s.matches.len(), 3);
    s.deactivate();
    assert!(s.matches.is_empty() && s.query.is_empty());
}
