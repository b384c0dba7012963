use ink_md::input::bindings::build_keymap;
use ink_md::input::keymap::{KeyCode, KeyMods};
use ink_md::input::preset::emacs_preset;
use ink_md::input::{Action, InputEvent};
use ink_md::layout::{SpanStyle, StyledLine, StyledSpan};
use ink_md::reader::{reader_event, reader_step, Effect, Reader};
use ink_md::search::SearchState;

fn line(t: &str) -> StyledLine {
    StyledLine { spans: vec![StyledSpan { text: t.to_string(), style: SpanStyle::default() }] }
}

fn link_line(t: &str, url: &str) -> StyledLine {
    let mut style = SpanStyle::default();
    style.link_url = Some(url.to_string());
    StyledLine { spans: vec![StyledSpan { text: t.to_string(), style }] }
}

fn reader(tabs: usize) -> Reader {
    Reader { scroll: 0, active: 0, tabs, toc_visible: false, picker: None, search: SearchState::new() }
}

fn doc() -> Vec<StyledLine> {
    (0..40).map(|i| if i % 10 == 5 { line("alpha") } else { line("text") }).collect()
}

#[test]
fn scrolling_stays_within_the_document() {
    let lines = doc();
    let mut r = reader(1);
    assert!(reader_step(&mut r, Action::ScrollDown(3), &lines, &vec![], 20, 10, 0, 0).is_empty());
    assert_eq!(r.scroll, 3);
    reader_step(&mut r, Action::End, &lines, &vec![], 20, 10, 0, 0);
    assert_eq!(r.scroll, 20);
    reader_step(&mut r, Action::PageUp, &lines, &vec![], 20, 10, 0, 0);
    assert_eq!(r.scroll, 12);
}

#[test]
fn typing_a_query_jumps_to_the_first_match_and_quit_clears_it() {
    let lines = doc();
    let mut r = reader(1);
    reader_step(&mut r, Action::Search, &lines, &vec![], 30, 10, 0, 0);
    assert!(r.search.active);
    for c in "alp".chars() {
        reader_step(&mut r, Action::SearchInput(c), &lines, &vec![], 30, 10, 0, 0);
    }
    assert_eq!(r.search.matches, vec![5, 15, 25, 35]);
    assert_eq!(r.scroll, 5);
    reader_step(&mut r, Action::SearchConfirm, &lines, &vec![], 30, 10, 0, 0);
    reader_step(&mut r, Action::NextHeading, &lines, &vec![], 30, 10, 0, 0);
    assert_eq!(r.scroll, 15);
    reader_step(&mut r, Action::SearchPrev, &lines, &vec![], 30, 10, 0, 0);
    reader_step(&mut r, Action::SearchPrev, &lines, &vec![], 30, 10, 0, 0);
    assert_eq!(r.search.current, 3);
    assert_eq!(r.scroll, 30);
    // With matches showing, quitting clears them instead of leaving.
    assert!(reader_step(&mut r, Action::ExitApp, &lines, &vec![], 30, 10, 0, 0).is_empty());
    assert!(r.search.matches.is_empty() && r.search.query.is_empty());
    assert_eq!(reader_step(&mut r, Action::ExitApp, &lines, &vec![], 30, 10, 0, 0), vec![Effect::Quit]);
}

#[test]
fn headings_tabs_toc_and_resize() {
    let lines = doc();
    let mut r = reader(3);
    let heads = vec![0, 12, 25];
    reader_step(&mut r, Action::NextHeading, &lines, &heads, 30, 10, 0, 0);
    assert_eq!(r.scroll, 11);
    reader_step(&mut r, Action::PrevHeading, &lines, &heads, 30, 10, 0, 0);
    assert_eq!(r.scroll, 0);
    assert_eq!(reader_step(&mut r, Action::PrevTab, &lines, &heads, 30, 10, 0, 0), vec![Effect::SearchNewTab]);
    assert_eq!(r.active, 2);
    assert_eq!(reader_step(&mut r, Action::ToggleToc, &lines, &heads, 30, 10, 0, 0), vec![Effect::Relayout]);
    assert!(r.toc_visible);
    assert_eq!(reader_step(&mut r, Action::Resize(100, 40), &lines, &heads, 30, 10, 0, 0), vec![Effect::Resized(100)]);
    let mut one = reader(1);
    assert!(reader_step(&mut one, Action::NextTab, &lines, &heads, 30, 10, 0, 0).is_empty());
    assert_eq!(one.active, 0);
}

#[test]
fn the_theme_picker_takes_the_keys_while_open() {
    let lines = doc();
    let mut r = reader(1);
    reader_step(&mut r, Action::ThemePicker, &lines, &vec![], 30, 10, 3, 1);
    assert_eq!(r.picker, Some(1));
    assert_eq!(reader_step(&mut r, Action::ScrollDown(1), &lines, &vec![], 30, 10, 3, 1), vec![Effect::PreviewTheme(2)]);
    assert_eq!(r.scroll, 0);
    assert_eq!(reader_step(&mut r, Action::ScrollDown(1), &lines, &vec![], 30, 10, 3, 1), vec![Effect::PreviewTheme(0)]);
    assert_eq!(reader_step(&mut r, Action::ExitApp, &lines, &vec![], 30, 10, 3, 1), vec![Effect::SaveTheme(0)]);
    assert_eq!(r.picker, None);
    let mut none = reader(1);
    reader_step(&mut none, Action::ThemePicker, &lines, &vec![], 30, 10, 0, 0);
    assert_eq!(none.picker, None);
}

#[test]
fn following_a_link_opens_the_markdown_file_in_view() {
    let lines = vec![line("intro"), link_line("site", "https://x.io"), link_line("guide", "docs/guide.md"), line("end")];
    let mut r = reader(1);
    assert_eq!(
        reader_step(&mut r, Action::FollowLink, &lines, &vec![], 3, 10, 0, 0),
        vec![Effect::OpenLink("docs/guide.md".to_string())]
    );
    assert_eq!(reader_step(&mut r, Action::NavBack, &lines, &vec![], 3, 10, 0, 0), vec![Effect::Back]);
    assert_eq!(reader_step(&mut r, Action::NavForward, &lines, &vec![], 3, 10, 0, 0), vec![Effect::Forward]);
}

#[test]
fn a_tab_lays_out_its_source_without_front_matter_and_with_wiki_links() {
    let src = "---\ntitle: x\n---\nSee [[Other Page]].\n";
    let shown = ink_md::reader::tab_content(src, false);
    assert!(!shown.contains("title: x"));
    assert!(!shown.contains("[["));
    assert!(shown.contains("Other Page"));
    let kept = ink_md::reader::tab_content(src, true);
    assert!(kept.contains("title: x"));
}

#[test]
fn events_go_through_the_keymap_and_its_chords() {
    let (km, chords, _) = build_keymap(&emacs_preset(), &Vec::new());
    let lines = doc();
    let ctrl = KeyMods { control: true, alt: false, shift: false };
    let mut r = reader(1);
    let ev = InputEvent::Key(KeyCode::Char('n'), ctrl);
    let (p, e) = reader_event(&mut r, &km, &chords, None, ev, &lines, &vec![], 30, 10, 0, 0);
    assert_eq!((p, e), (None, vec![]));
    assert_eq!(r.scroll, 1);
    let cx = InputEvent::Key(KeyCode::Char('x'), ctrl);
    let (p, e) = reader_event(&mut r, &km, &chords, None, cx, &lines, &vec![], 30, 10, 0, 0);
    assert!(p.is_some() && e.is_empty());
    let cc = InputEvent::Key(KeyCode::Char('c'), ctrl);
    let (p, e) = reader_event(&mut r, &km, &chords, p, cc, &lines, &vec![], 30, 10, 0, 0);
    assert_eq!((p, e), (None, vec![Effect::Quit]));
}
