use ink_md::input::Action;
use ink_md::layout::{SpanStyle, StyledLine, StyledSpan};
use ink_md::navigate::{
    follow_link_target, next_heading_scroll, picker_step, prev_heading_scroll, scroll_for, switch_tab,
    NavHistory, PickerStep,
};

fn style(link: Option<&str>) -> SpanStyle {
    SpanStyle {
        fg: None,
        bg: None,
        bold: false,
        italic: false,
        underline: false,
        strikethrough: false,
        dim: false,
        link_url: link.map(|s| s.to_string()),
    }
}

fn line_with(text: &str, link: Option<&str>) -> StyledLine {
    StyledLine { spans: vec![StyledSpan { text: text.to_string(), style: style(link) }] }
}

#[test]
fn scrolling_stops_at_both_ends() {
    assert_eq!(scroll_for(Action::ScrollDown(1), 5, 10, 20), 6);
    assert_eq!(scroll_for(Action::ScrollDown(10), 5, 10, 20), 10);
    assert_eq!(scroll_for(Action::ScrollUp(3), 2, 10, 20), 0);
    // A stale offset past the end recovers on the first upward scroll.
    assert_eq!(scroll_for(Action::ScrollUp(1), 50, 10, 20), 9);
    assert_eq!(scroll_for(Action::PageDown, 0, 100, 20), 18);
    assert_eq!(scroll_for(Action::PageUp, 30, 100, 20), 12);
    assert_eq!(scroll_for(Action::PageDown, 0, 100, 1), 0);
    assert_eq!(scroll_for(Action::Home, 30, 100, 20), 0);
    assert_eq!(scroll_for(Action::End, 3, 100, 20), 100);
    assert_eq!(scroll_for(Action::Search, 3, 100, 20), 3);
}

#[test]
fn heading_jumps_skip_the_current_heading() {
    let hs = vec![0, 10, 25, 40];
    assert_eq!(next_heading_scroll(&hs, 0, 100), Some(9));
    assert_eq!(next_heading_scroll(&hs, 9, 100), Some(24));
    assert_eq!(next_heading_scroll(&hs, 24, 30), Some(30));
    assert_eq!(next_heading_scroll(&hs, 40, 100), None);
    assert_eq!(prev_heading_scroll(&hs, 24, 100), Some(9));
    assert_eq!(prev_heading_scroll(&hs, 9, 100), Some(0));
    assert_eq!(prev_heading_scroll(&hs, 1, 100), None);
}

#[test]
fn tabs_wrap_around() {
    assert_eq!(switch_tab(2, 3, true), 0);
    assert_eq!(switch_tab(0, 3, false), 2);
    assert_eq!(switch_tab(switch_tab(1, 3, true), 3, false), 1);
}

#[test]
fn theme_picker_moves_and_closes() {
    assert_eq!(picker_step(Action::ScrollDown(1), 7, 8), PickerStep::Preview(0));
    assert_eq!(picker_step(Action::ScrollUp(1), 0, 8), PickerStep::Preview(7));
    assert_eq!(picker_step(Action::SearchConfirm, 3, 8), PickerStep::Close(3));
    assert_eq!(picker_step(Action::ExitApp, 3, 8), PickerStep::Close(3));
    assert_eq!(picker_step(Action::Home, 3, 8), PickerStep::Stay);
}

#[test]
fn follow_link_takes_the_first_markdown_link_near_the_top() {
    let mut lines: Vec<StyledLine> = (0..10).map(|i| line_with(&format!("line {i}"), None)).collect();
    lines[2] = line_with("web", Some("https://example.com"));
    lines[3] = line_with("notes", Some("notes.markdown"));
    lines[4] = line_with("other", Some("other.md"));
    lines[8] = line_with("far", Some("far.md"));
    assert_eq!(follow_link_target(&lines, 0).as_deref(), Some("notes.markdown"));
    assert_eq!(follow_link_target(&lines, 4).as_deref(), Some("other.md"));
    assert_eq!(follow_link_target(&lines, 5).as_deref(), Some("far.md"));
    assert_eq!(follow_link_target(&lines, 9), None);
    assert_eq!(follow_link_target(&lines, 50), None);
}

#[test]
fn back_then_forward_returns_to_the_same_place() {
    let mut h = NavHistory::new();
    assert_eq!(h.go_back(("a.md".to_string(), 0)), None);
    h.visit(("a.md".to_string(), 12));
    let back = h.go_back(("b.md".to_string(), 3));
    assert_eq!(back, Some(("a.md".to_string(), 12)));
    let fwd = h.go_forward(("a.md".to_string(), 12));
    assert_eq!(fwd, Some(("b.md".to_string(), 3)));
    assert_eq!(h.back, vec![("a.md".to_string(), 12)]);
    assert!(h.forward.is_empty());
}

#[test]
fn scrolling_down_then_up_returns() {
    let down = scroll_for(Action::ScrollDown(4), 10, 100, 20);
    assert_eq!(scroll_for(Action::ScrollUp(4), down, 100, 20), 10);
    for a in [Action::ScrollDown(500), Action::PageDown, Action::End, Action::ScrollUp(3)] {
        assert!(scroll_for(a, 250, 100, 20) <= 100);
    }
    let i = match picker_step(Action::ScrollDown(1), 5, 8) {
        PickerStep::Preview(i) => i,
        other => panic!("{other:?}"),
    };
    assert_eq!(picker_step(Action::ScrollUp(1), i, 8), PickerStep::Preview(5));
}
