use ink_md::clipboard::CopyOutcome;
use ink_md::layout::{SpanStyle, StyledLine, StyledSpan};
use ink_md::selection::Pos;
use ink_md::layout::blocks::LayoutHeading;
use ink_md::viewer::{
    clamp_scroll, collect_link_hints, content_geometry, copy_message, effective_width, is_local_file, link_target,
    screen_to_doc, search_lines, section_source, selected_heading, toc_entries, Area, LinkTarget, TocEntry,
};

const DOC: &str = "# Top\n\nintro\n\n## Alpha\n\na body\n\n### Alpha sub\n\nnested\n\n## Beta\n\nb body\n";
// (level, text, display line, source line)
const HEADINGS: &[(u8, &str, usize, usize)] = &[(1, "Top", 2, 1), (2, "Alpha", 8, 5), (3, "Alpha sub", 14, 9), (2, "Beta", 20, 13)];

fn entries(headings: &[(u8, &str, usize, usize)]) -> Vec<TocEntry> {
    headings
        .iter()
        .map(|(level, text, line_index, source_line)| TocEntry {
            level: *level,
            text: (*text).to_string(),
            line_index: *line_index,
            source_line: *source_line,
        })
        .collect()
}

/// The section a viewport at `scroll`, 20 rows high, copies.
fn section_at(content: &str, headings: &[(u8, &str, usize, usize)], scroll: usize) -> (String, String) {
    let toc = entries(headings);
    let selected = selected_heading(&toc, scroll);
    section_source(content, &toc, selected, scroll, 20)
}

#[test]
fn a_section_runs_to_the_next_heading_of_the_same_level() {
    let (body, label) = section_at(DOC, HEADINGS, 8);
    assert_eq!(label, "section \"Alpha\"");
    assert!(body.starts_with("## Alpha"));
    assert!(body.contains("### Alpha sub"), "subsection must be included");
    assert!(!body.contains("## Beta"), "must stop at the next same-level heading");
}

#[test]
fn a_subsection_stops_at_its_own_level() {
    let (body, label) = section_at(DOC, HEADINGS, 14);
    assert_eq!(label, "section \"Alpha sub\"");
    assert_eq!(body, "### Alpha sub\n\nnested");
}

#[test]
fn the_last_section_runs_to_the_end_of_the_document() {
    let (body, _) = section_at(DOC, HEADINGS, 20);
    assert_eq!(body, "## Beta\n\nb body");
}

#[test]
fn a_document_without_headings_copies_whole() {
    let (body, label) = section_at("just prose\n\nmore prose\n", &[], 0);
    assert_eq!(label, "document");
    assert_eq!(body, "just prose\n\nmore prose\n");
}

#[test]
fn scrolled_past_every_heading_still_resolves_the_last_one() {
    let (_, label) = section_at(DOC, HEADINGS, 99);
    assert_eq!(label, "section \"Beta\"");
}

#[test]
fn a_viewport_that_has_not_reached_the_first_heading_copies_the_document() {
    let (_, label) = section_at(DOC, &[(1, "Top", 40, 1)], 0);
    assert_eq!(label, "document");
}

#[test]
fn screen_to_doc_maps_only_inside_the_document_area() {
    let doc: String = (0..10).map(|i| format!("line {i}\n")).collect();
    let plain: Vec<String> = doc.lines().map(|l| l.to_string()).collect();
    let area = Area { x: 4, y: 2, width: 40, height: 10 };
    let scroll = 5;
    assert_eq!(screen_to_doc(area, &plain, scroll, 4, 2), Some(Pos::new(5, 0)));
    assert_eq!(screen_to_doc(area, &plain, scroll, 3, 2), None);
    assert_eq!(screen_to_doc(area, &plain, scroll, 4, 1), None);
    assert_eq!(screen_to_doc(area, &plain, scroll, 44, 2), None);
    assert_eq!(screen_to_doc(area, &plain, scroll, 4, 12), None);
    assert_eq!(screen_to_doc(area, &plain, scroll, 4, 7), None);
    let never_drawn = Area { x: 0, y: 0, width: 0, height: 0 };
    assert_eq!(screen_to_doc(never_drawn, &plain, scroll, 0, 0), None);
}

#[test]
fn screen_to_doc_snaps_into_a_wide_grapheme() {
    let plain = vec!["ab日本".to_string()];
    let area = Area { x: 0, y: 0, width: 20, height: 5 };
    assert_eq!(screen_to_doc(area, &plain, 0, 1, 0), Some(Pos::new(0, 1)));
    // Column 3 is the right half of 日, which starts at column 2.
    assert_eq!(screen_to_doc(area, &plain, 0, 3, 0), Some(Pos::new(0, 2)));
}

#[test]
fn the_selected_heading_is_the_last_one_at_or_above_the_top() {
    let toc = entries(HEADINGS);
    assert_eq!(selected_heading(&toc, 0), 0);
    assert_eq!(selected_heading(&toc, 8), 1);
    assert_eq!(selected_heading(&toc, 13), 1);
    assert_eq!(selected_heading(&toc, 14), 2);
    assert_eq!(selected_heading(&toc, 500), 3);
    assert_eq!(selected_heading(&[], 5), 0);
}

#[test]
fn a_heading_past_the_source_copies_nothing() {
    let toc = entries(&[(1, "Ghost", 0, 50)]);
    let (body, label) = section_source("one\ntwo\n", &toc, 0, 0, 20);
    assert_eq!(body, "");
    assert_eq!(label, "nothing");
}

fn linked(text: &str, url: Option<&str>) -> StyledSpan {
    let mut style = SpanStyle::default();
    style.link_url = url.map(|u| u.to_string());
    StyledSpan { text: text.to_string(), style }
}

#[test]
fn link_hints_are_distinct_and_labeled_in_order() {
    let lines = vec![
        StyledLine { spans: vec![linked("a", Some("https://a")), linked(" ", None), linked("b", Some("https://b"))] },
        StyledLine { spans: vec![linked("again", Some("https://a")), linked("c", Some("https://c"))] },
    ];
    let hints = collect_link_hints(&lines);
    let got: Vec<(char, &str)> = hints.iter().map(|h| (h.label, h.url.as_str())).collect();
    assert_eq!(got, vec![('a', "https://a"), ('b', "https://b"), ('c', "https://c")]);
}

#[test]
fn link_hints_stop_at_twenty_six() {
    let spans: Vec<StyledSpan> = (0..30).map(|i| linked("x", Some(&format!("https://{i}")))).collect();
    let hints = collect_link_hints(&[StyledLine { spans }]);
    assert_eq!(hints.len(), 26);
    assert_eq!(hints[0].label, 'a');
    assert_eq!(hints[25].label, 'z');
    assert_eq!(hints[25].url, "https://25");
}

#[test]
fn lines_without_links_give_no_hints() {
    let lines = vec![StyledLine { spans: vec![linked("plain", None)] }];
    assert!(collect_link_hints(&lines).is_empty());
}

#[test]
fn the_toc_pane_narrows_wide_terminals_only() {
    assert_eq!(effective_width(100, true), 70);
    assert_eq!(effective_width(100, false), 100);
    assert_eq!(effective_width(40, true), 40);
    assert_eq!(effective_width(41, true), 11);
}

#[test]
fn copy_messages_name_each_outcome() {
    assert_eq!(copy_message(CopyOutcome::Copied, "section \"Alpha\""), "copied section \"Alpha\"");
    assert_eq!(copy_message(CopyOutcome::Disabled, "x"), "clipboard disabled in config");
    assert_eq!(copy_message(CopyOutcome::Empty, "x"), "nothing to copy");
    assert_eq!(copy_message(CopyOutcome::TooLarge, "x"), "selection too large for clipboard");
    assert_eq!(copy_message(CopyOutcome::Failed, "x"), "clipboard unavailable");
}

#[test]
fn content_is_capped_and_centered() {
    // 100-column terminal: at most 96 wide, capped at 120; centered.
    assert_eq!(content_geometry(100, None), (96, 2));
    assert_eq!(content_geometry(200, None), (120, 40));
    assert_eq!(content_geometry(200, Some(80)), (80, 60));
    // A requested width wider than the terminal is held to it.
    assert_eq!(content_geometry(50, Some(100)), (46, 2));
    // Never narrower than 8.
    assert_eq!(content_geometry(5, Some(3)), (8, 2));
}

#[test]
fn scroll_is_kept_within_the_document() {
    assert_eq!(clamp_scroll(5, 10), 5);
    assert_eq!(clamp_scroll(50, 10), 9);
    assert_eq!(clamp_scroll(3, 0), 0);
}

#[test]
fn search_text_lowercases_and_separates_spans() {
    let lines = vec![StyledLine { spans: vec![linked("Hello ", None), linked("WORLD", Some("https://w"))] }];
    let s = search_lines(&lines);
    assert_eq!(s, vec!["hello \u{1}world".to_string()]);
}

#[test]
fn headings_without_text_stay_out_of_the_toc() {
    let hs = vec![
        LayoutHeading { level: 1, text: "Top".to_string(), line_index: 2, source_line: 1 },
        LayoutHeading { level: 2, text: String::new(), line_index: 6, source_line: 3 },
        LayoutHeading { level: 2, text: "Sub".to_string(), line_index: 9, source_line: 5 },
    ];
    let toc = toc_entries(&hs);
    let got: Vec<(u8, &str, usize, usize)> = toc.iter().map(|e| (e.level, e.text.as_str(), e.line_index, e.source_line)).collect();
    assert_eq!(got, vec![(1, "Top", 2, 1), (2, "Sub", 9, 5)]);
}

#[test]
fn local_files_are_neither_urls_nor_stdin() {
    assert!(is_local_file("notes.md"));
    assert!(is_local_file("/tmp/x.md"));
    assert!(!is_local_file("https://example.com/a.md"));
    assert!(!is_local_file("http://example.com"));
    assert!(!is_local_file("stdin"));
}

#[test]
fn links_go_to_the_system_or_open_in_place() {
    assert_eq!(link_target("https://example.com"), LinkTarget::External("https://example.com".to_string()));
    assert_eq!(link_target("MAILTO:me@example.com"), LinkTarget::External("MAILTO:me@example.com".to_string()));
    assert_eq!(link_target("docs/guide.md"), LinkTarget::Local("docs/guide.md".to_string()));
    assert_eq!(link_target("notes.markdown"), LinkTarget::Local("notes.markdown".to_string()));
    assert_eq!(link_target("javascript:alert(1)"), LinkTarget::Ignore);
    assert_eq!(link_target("picture.png"), LinkTarget::Ignore);
}
