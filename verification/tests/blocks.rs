use ink_md::image::{ImageLoad, ImageMode, Picture};
use ink_md::layout::blocks::{layout_document, ListKind, Node};
use ink_md::layout::StyledLine;
use ink_md::theme::{Theme, ThemeColors};
use ink_md::Spacing;
use unicode_width::UnicodeWidthStr;

fn color(n: u8) -> String {
    format!("#0000{n:02x}")
}

fn theme() -> Theme {
    Theme {
        name: "test".to_string(),
        code_theme: "base16-ocean.dark".to_string(),
        colors: ThemeColors {
            bg: None,
            fg: color(1),
            heading1: color(2),
            heading2: color(3),
            heading3: color(4),
            heading4: color(5),
            heading5: color(6),
            heading6: color(7),
            bold: color(8),
            italic: color(9),
            strikethrough: color(10),
            code_fg: color(11),
            code_bg: color(12),
            code_block_bg: color(13),
            link: color(14),
            link_url: color(15),
            blockquote_bar: color(16),
            blockquote_text: color(17),
            list_bullet: color(18),
            list_number: color(19),
            table_border: color(20),
            table_header: color(21),
            hr: color(22),
            task_done: color(23),
            task_pending: color(24),
            search_match: color(25),
            search_current: color(26),
            status_bar_bg: color(27),
            status_bar_fg: color(28),
            toc_active: color(29),
            toc_inactive: color(30),
            admonition_note: color(31),
            admonition_warning: color(32),
            admonition_tip: color(33),
            admonition_important: color(34),
            admonition_caution: color(35),
        },
    }
}

fn text(s: &str) -> Node {
    Node::Text(s.to_string())
}

fn para(children: Vec<Node>) -> Node {
    Node::Paragraph(children)
}

fn doc(children: Vec<Node>) -> Node {
    Node::Document(children)
}

fn layout(root: &Node, width: u16) -> Vec<StyledLine> {
    layout_document(root, &theme(), width, Spacing::Normal, 0, ImageMode::Off, None, (0, 0, 0)).lines
}

fn line_text(line: &StyledLine) -> String {
    line.spans.iter().map(|s| s.text.as_str()).collect()
}

fn all_text(lines: &[StyledLine]) -> String {
    lines.iter().map(line_text).collect()
}

fn line_width(line: &StyledLine) -> usize {
    line.spans.iter().map(|s| s.text.as_str().width()).sum()
}

#[test]
fn heading_text_present() {
    let root = doc(vec![Node::Heading(1, vec![text("Alpha Heading")], 1), para(vec![text("body")])]);
    let all = all_text(&layout(&root, 80));
    assert!(all.contains("Alpha Heading"));
    assert!(all.contains("body"));
}

#[test]
fn empty_document_is_ok() {
    let lines = layout(&doc(vec![]), 80);
    assert!(lines.len() < 4);
}

#[test]
fn headings_report_their_own_line() {
    let root = doc(vec![
        Node::Heading(1, vec![text("First")], 1),
        para(vec![text("para")]),
        Node::Heading(2, vec![text("Dup")], 5),
        para(vec![text("body")]),
        Node::Heading(2, vec![text("Dup")], 9),
        para(vec![text("more")]),
    ]);
    let result = layout_document(&root, &theme(), 80, Spacing::Normal, 0, ImageMode::Off, None, (0, 0, 0));
    assert_eq!(result.headings.len(), 3);
    let texts: Vec<&str> = result.headings.iter().map(|h| h.text.as_str()).collect();
    assert_eq!(texts, vec!["First", "Dup", "Dup"]);
    let mut last = 0;
    for h in &result.headings {
        assert!(h.line_index >= last);
        last = h.line_index;
        assert!(line_text(&result.lines[h.line_index]).contains(&h.text));
    }
    // Two blank lines before a top-level heading.
    assert_eq!(result.headings[0].line_index, 2);
    let sources: Vec<usize> = result.headings.iter().map(|h| h.source_line).collect();
    assert_eq!(sources, vec![1, 5, 9]);
}

#[test]
fn url_trailing_punctuation_stays_in_text() {
    let lines = layout(&doc(vec![para(vec![text("Visit https://example.com/foo. Done")])]), 80);
    assert!(all_text(&lines).contains("https://example.com/foo. Done"));
    let link = lines.iter().flat_map(|l| l.spans.iter()).find(|s| s.style.link_url.is_some()).unwrap();
    assert_eq!(link.style.link_url.as_deref(), Some("https://example.com/foo"));
    assert_eq!(link.text, "https://example.com/foo");
}

#[test]
fn code_block_is_highlighted() {
    let lines = layout(&doc(vec![Node::CodeBlock("rust".to_string(), "fn main() {}\n".to_string())]), 80);
    let all = all_text(&lines);
    assert!(all.contains("fn main"));
    // Highlighting splits the line into several colored pieces.
    let code_line = lines.iter().find(|l| line_text(l).contains("fn main")).unwrap();
    assert!(code_line.spans.len() > 3);
    assert!(all.contains("\u{256D}\u{2500} rust "));
}

#[test]
fn tabs_in_code_blocks_expand_to_spaces() {
    let root = doc(vec![Node::CodeBlock("go".to_string(), "func main() {\n\tfmt.Println(\"hi\")\n}\n".to_string())]);
    let lines = layout(&root, 60);
    let all = all_text(&lines);
    assert!(!all.contains('\t'), "tabs must be expanded");
    assert!(all.contains("    fmt.Println"));
    for line in lines.iter().filter(|l| l.spans.iter().any(|s| s.text.contains(['│', '╭', '╰']))) {
        assert_eq!(line_width(line), 60, "misaligned box line: {:?}", line_text(line));
    }
}

#[test]
fn an_empty_info_string_draws_a_plain_top_border() {
    let lines = layout(&doc(vec![Node::CodeBlock(String::new(), "x\n".to_string())]), 10);
    assert_eq!(line_text(&lines[0]), "╭────────╮");
    assert_eq!(line_text(&lines[1]), "│ x      │");
    assert_eq!(line_text(&lines[2]), "╰────────╯");
    assert_eq!(line_text(&lines[3]), "");
    assert_eq!(lines.len(), 4);
}

#[test]
fn missing_image_placeholder_states_the_reason() {
    let root = doc(vec![para(vec![Node::Image("nope.png".to_string(), vec![], ImageLoad::NotFound)])]);
    let lines = layout_document(&root, &theme(), 80, Spacing::Normal, 0, ImageMode::LocalOnly, None, (0, 0, 0)).lines;
    let all = all_text(&lines);
    assert!(all.contains("image not found"), "{all:?}");
    assert!(all.contains("🖼 nope.png"));
}

#[test]
fn a_blocked_remote_image_says_how_to_load_it() {
    let img = Node::Image("https://x/y.png".to_string(), vec![text("chart")], ImageLoad::RemoteBlocked);
    let lines = layout_document(&doc(vec![para(vec![img])]), &theme(), 80, Spacing::Normal, 0, ImageMode::LocalOnly, None, (0, 0, 0)).lines;
    assert_eq!(line_text(&lines[0]), "🖼 chart (remote image — pass --remote-images to load)");
}

fn lime_picture(id: usize, w: u32, h: u32) -> Picture {
    let rgba: Vec<u8> = (0..w * h).flat_map(|_| [0u8, 255, 0, 255]).collect();
    let scaled_heights = (1..=w.min(60)).map(|tw| (h as f64 * (tw as f64 / w as f64)) as u32).collect();
    Picture { id, width: w, height: h, rgba, scaled_heights }
}

#[test]
fn graphics_image_spans_full_content_width() {
    let img = Node::Image("wide.svg".to_string(), vec![text("wide")], ImageLoad::Loaded(lime_picture(7, 800, 40)));
    let result = layout_document(&doc(vec![para(vec![img])]), &theme(), 40, Spacing::Normal, 10, ImageMode::LocalOnly, Some((8, 16)), (0, 0, 0));
    assert_eq!(result.images.len(), 1);
    let spec = &result.images[0];
    assert_eq!(spec.col_offset, 10);
    assert_eq!(spec.cols, 40);
    assert_eq!(spec.image, 7);
    // The rows follow a blank gap line.
    assert_eq!(spec.line_index, 1);
    // 40 columns of 8 px show the image 320 px wide, 16 px tall: one row.
    assert_eq!(spec.rows, 1);
}

#[test]
fn a_loaded_image_renders_as_halfblocks_with_a_caption() {
    let img = Node::Image("pic.png".to_string(), vec![text("a pic")], ImageLoad::Loaded(lime_picture(0, 4, 4)));
    let lines = layout_document(&doc(vec![para(vec![img])]), &theme(), 80, Spacing::Normal, 0, ImageMode::LocalOnly, None, (0, 0, 0)).lines;
    let all = all_text(&lines);
    assert!(all.contains('▄'));
    assert!(!all.contains('🖼'));
    assert!(all.contains("  a pic"));
    let row = lines.iter().find(|l| line_text(l).contains('▄')).unwrap();
    assert_eq!(row.spans.len(), 4, "one cell per pixel column");
    assert_eq!(row.spans[0].style.fg.as_deref(), Some("#00ff00"));
    assert_eq!(row.spans[0].style.bg.as_deref(), Some("#00ff00"));
}

#[test]
fn images_off_show_the_inline_mark() {
    let img = Node::Image("pic.png".to_string(), vec![text("a pic")], ImageLoad::Loaded(lime_picture(0, 4, 4)));
    let all = all_text(&layout(&doc(vec![para(vec![img])]), 80));
    assert!(all.contains("🖼 a pic"));
    assert!(!all.contains('▄'));
}

#[test]
fn an_ordered_list_numbers_from_its_start() {
    let items = vec![Node::Item(vec![para(vec![text("one")])]), Node::Item(vec![para(vec![text("two")])])];
    let lines = layout(&doc(vec![Node::List(ListKind::Ordered, 3, items)]), 80);
    assert_eq!(line_text(&lines[0]), "  3. one");
    assert_eq!(line_text(&lines[1]), "  4. two");
}

#[test]
fn task_items_show_their_check_box() {
    let items = vec![
        Node::TaskItem(Some('x'), vec![para(vec![text("done")])]),
        Node::TaskItem(None, vec![para(vec![text("todo")])]),
    ];
    let lines = layout(&doc(vec![Node::List(ListKind::Bullet, 1, items)]), 80);
    assert_eq!(line_text(&lines[0]), "  ✓ done");
    assert_eq!(line_text(&lines[1]), "  ○ todo");
}

#[test]
fn a_bullet_item_wraps_under_its_text() {
    let items = vec![Node::Item(vec![para(vec![text("alpha beta gamma")])])];
    let lines = layout(&doc(vec![Node::List(ListKind::Bullet, 1, items)]), 14);
    assert_eq!(line_text(&lines[0]), "  ◦ alpha beta");
    assert_eq!(line_text(&lines[1]), "    gamma");
}

#[test]
fn an_admonition_shows_its_kind_and_drops_the_marker() {
    let quote = Node::BlockQuote(vec![para(vec![text("[!note]"), Node::SoftBreak, text("Heads up")])]);
    let lines = layout(&doc(vec![quote]), 40);
    assert_eq!(line_text(&lines[0]), "  │ ℹ NOTE");
    assert_eq!(line_text(&lines[1]), "  │ Heads up");
    assert_eq!(lines[1].spans[1].style.fg.as_deref(), Some(color(17).as_str()));
    assert!(lines[1].spans[1].style.italic);
}

#[test]
fn nested_quotes_change_bar_color() {
    let inner = Node::BlockQuote(vec![para(vec![text("deep")])]);
    let outer = Node::BlockQuote(vec![para(vec![text("top")]), inner]);
    let lines = layout(&doc(vec![outer]), 40);
    let bars: Vec<Option<&str>> = lines
        .iter()
        .filter(|l| !l.spans.is_empty())
        .map(|l| l.spans[0].style.fg.as_deref())
        .collect();
    assert_eq!(line_text(&lines[0]), "  │ top");
    let deep = lines.iter().find(|l| line_text(l) == "  │   │ deep").unwrap();
    assert_eq!(deep.spans[1].style.fg.as_deref(), Some(color(3).as_str()));
    assert!(bars.iter().all(|b| *b == Some(color(16).as_str())));
}

#[test]
fn a_rule_is_centered_and_dashed() {
    let lines = layout(&doc(vec![Node::ThematicBreak]), 20);
    assert_eq!(lines.len(), 3);
    assert_eq!(line_text(&lines[1]), "╌╌╌╌╌╌╌  ◆  ╌╌╌╌╌╌╌");
}

#[test]
fn a_footnote_definition_keeps_its_label_inline() {
    let def = Node::FootnoteDefinition("1".to_string(), vec![para(vec![text("see here")])]);
    let lines = layout(&doc(vec![def]), 40);
    assert_eq!(line_text(&lines[0]), "[^1]: see here");
}

#[test]
fn inline_styles_compose() {
    let p = para(vec![
        text("a "),
        Node::Strong(vec![Node::Emph(vec![text("b")])]),
        text(" "),
        Node::Code("c".to_string()),
        text(" "),
        Node::Link("https://l".to_string(), vec![text("d")]),
    ]);
    let lines = layout(&doc(vec![p]), 40);
    assert_eq!(line_text(&lines[0]), "a b c d");
    let b = lines[0].spans.iter().find(|s| s.text == "b").unwrap();
    assert!(b.style.bold && b.style.italic);
    let d = lines[0].spans.iter().find(|s| s.text == "d").unwrap();
    assert_eq!(d.style.link_url.as_deref(), Some("https://l"));
    assert!(d.style.underline);
}

#[test]
fn html_blocks_show_dimmed_and_skip_blank_lines() {
    let lines = layout(&doc(vec![Node::HtmlBlock("<div>\n\n</div>\n".to_string())]), 40);
    assert_eq!(lines.len(), 2);
    assert_eq!(line_text(&lines[0]), "<div>");
    assert_eq!(lines[0].spans[0].style.fg.as_deref(), Some(color(15).as_str()));
}

#[test]
fn control_characters_never_reach_the_output() {
    let p = para(vec![text("evil\u{1b}[31m text"), Node::Link("javascript:alert(1)".to_string(), vec![text("x")])]);
    let lines = layout(&doc(vec![p]), 80);
    for line in &lines {
        for s in &line.spans {
            assert!(!s.text.contains('\u{1b}'));
            assert!(s.style.link_url.is_none());
        }
    }
}

#[test]
fn the_margin_prefixes_every_paragraph_line() {
    let lines = layout_document(&doc(vec![para(vec![text("one two")])]), &theme(), 5, Spacing::Compact, 3, ImageMode::Off, None, (0, 0, 0)).lines;
    assert_eq!(line_text(&lines[0]), "   one");
    assert_eq!(line_text(&lines[1]), "   two");
    assert_eq!(lines.len(), 2);
}

fn plain_out(root: &Node) -> String {
    let lines = layout(root, 78);
    ink_md::render::styled_lines_to_ansi(&lines, ink_md::theme::TermCaps { no_color: false, truecolor: true })
}

#[test]
fn javascript_and_file_urls_not_emitted_as_links() {
    let root = Node::Document(vec![Node::Paragraph(vec![
        Node::Link("javascript:alert(1)".to_string(), vec![text("js")]),
        text(" "),
        Node::Link("file:///etc/passwd".to_string(), vec![text("file")]),
        text(" "),
        Node::Link("https://example.com/a".to_string(), vec![text("ok")]),
    ])]);
    let out = plain_out(&root);
    assert!(out.contains("\x1b]8;;https://example.com/a"));
    assert!(!out.contains("javascript:"));
    assert!(!out.contains("file:///etc/passwd"));
}

#[test]
fn c1_control_bytes_stripped() {
    let root = Node::Document(vec![Node::Paragraph(vec![text("text \u{9b}31m more")])]);
    let out = plain_out(&root);
    assert!(!out.contains('\u{9b}'));
    assert!(out.contains("31m more"));
}

#[test]
fn inline_html_img_is_visible() {
    let root = doc(vec![para(vec![
        text("Look at "),
        Node::HtmlInline("<img src=\"pic.png\" alt=\"the chart\">".to_string()),
        text(" here."),
    ])]);
    let out = all_text(&layout(&root, 80));
    assert!(out.contains("🖼 the chart"), "inline img placeholder: {out:?}");
    assert!(!out.contains("<img"));
}

#[test]
fn inline_img_attributes_are_read_quote_aware() {
    let root = doc(vec![para(vec![Node::HtmlInline(
        "<IMG alt='a > b src=x' src=\"real.png\">".to_string(),
    )])]);
    assert!(all_text(&layout(&root, 80)).contains("🖼 a > b src=x"));
    let bare = doc(vec![para(vec![Node::HtmlInline("<img src=logo.svg>".to_string())])]);
    assert!(all_text(&layout(&bare, 80)).contains("🖼 logo.svg"));
    let other = doc(vec![para(vec![text("a"), Node::HtmlInline("<imgx src=q>".to_string())])]);
    assert!(!all_text(&layout(&other, 80)).contains('🖼'));
}

#[test]
fn emoji_paragraph_fits_width() {
    let root = doc(vec![para(vec![text(&"⚠️".repeat(40))])]);
    let lines = layout(&root, 40);
    for line in &lines {
        assert!(line_width(line) <= 40, "line {} > 40: {:?}", line_width(line), line_text(line));
    }
    assert_eq!(all_text(&lines).matches('⚠').count(), 40);
}

#[test]
fn emoji_code_block_borders_align() {
    let root = doc(vec![Node::CodeBlock(String::new(), format!("{}\n", "⚠️".repeat(30)))]);
    let lines = layout(&root, 40);
    let box_lines: Vec<&StyledLine> =
        lines.iter().filter(|l| l.spans.iter().any(|s| s.text.contains(['│', '╭', '╰']))).collect();
    assert!(box_lines.len() >= 3, "expected a full code box");
    for line in box_lines {
        assert_eq!(line_width(line), 40, "misaligned box line: {:?}", line_text(line));
    }
}
