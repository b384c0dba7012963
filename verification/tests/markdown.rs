use ink_md::image::ImageMode;
use ink_md::layout::blocks::{layout_document, ListKind, Node};
use ink_md::layout::StyledLine;
use ink_md::parser::markdown::{parse_markdown, read_commonmark_xml};
use ink_md::theme::{Theme, ThemeColors};
use ink_md::Spacing;
use unicode_width::UnicodeWidthStr;

fn kids(n: &Node) -> &Vec<Node> {
    match n {
        Node::Document(k) | Node::Paragraph(k) | Node::BlockQuote(k) | Node::Item(k) | Node::Emph(k)
        | Node::Strong(k) | Node::Table(k) | Node::Other(k) => k,
        Node::Heading(_, k, _) | Node::List(_, _, k) | Node::TaskItem(_, k) | Node::Link(_, k) => k,
        Node::Image(_, k, _) => k,
        _ => panic!("not a container: {n:?}"),
    }
}

fn text_of(n: &Node) -> String {
    match n {
        Node::Text(t) | Node::Code(t) => t.clone(),
        Node::SoftBreak => " ".to_string(),
        Node::CodeBlock(..) | Node::HtmlBlock(..) | Node::ThematicBreak | Node::LineBreak => String::new(),
        Node::FootnoteReference(_) | Node::Math(_) | Node::ShortCode(_) | Node::HtmlInline(_) => String::new(),
        other => kids(other).iter().map(text_of).collect(),
    }
}

#[test]
fn headings_keep_level_text_and_source_line() {
    let root = parse_markdown("intro\n\n## Second *part*\n");
    let d = kids(&root);
    assert_eq!(d.len(), 2);
    match &d[1] {
        Node::Heading(level, k, line) => {
            assert_eq!((*level, *line), (2, 3));
            assert_eq!(k.iter().map(text_of).collect::<String>(), "Second part");
        }
        other => panic!("{other:?}"),
    }
}

#[test]
fn escapes_come_back_as_written() {
    let root = parse_markdown("a < b & \"c\" > d\n\n[x](http://e.io/?a=1&b=2)\n");
    let d = kids(&root);
    assert_eq!(text_of(&d[0]), "a < b & \"c\" > d");
    match &kids(&d[1])[0] {
        Node::Link(url, _) => assert_eq!(url, "http://e.io/?a=1&b=2"),
        other => panic!("{other:?}"),
    }
}

#[test]
fn lists_code_tasks_and_images() {
    let root = parse_markdown("3. three\n4. four\n\n- [x] done\n- [ ] open\n\n```rust\nfn f() {}\n```\n\n![alt text](pic.png)\n");
    let d = kids(&root);
    match &d[0] {
        Node::List(ListKind::Ordered, 3, items) => assert_eq!(items.len(), 2),
        other => panic!("{other:?}"),
    }
    match &d[1] {
        Node::List(ListKind::Bullet, 1, items) => {
            assert!(matches!(items[0], Node::TaskItem(Some(_), _)));
            assert!(matches!(items[1], Node::TaskItem(None, _)));
        }
        other => panic!("{other:?}"),
    }
    match &d[2] {
        Node::CodeBlock(info, lit) => assert_eq!((info.as_str(), lit.as_str()), ("rust", "fn f() {}\n")),
        other => panic!("{other:?}"),
    }
    match &kids(&d[3])[0] {
        Node::Image(src, alt, _) => {
            assert_eq!(src, "pic.png");
            assert_eq!(alt.iter().map(text_of).collect::<String>(), "alt text");
        }
        other => panic!("{other:?}"),
    }
}

#[test]
fn tables_and_html_survive() {
    let root = parse_markdown("| a | b |\n|---|---|\n| 1 | 2 |\n\n<div>\nhi\n</div>\n");
    let d = kids(&root);
    assert!(matches!(d[0], Node::Table(_)));
    assert_eq!(kids(&d[0]).len(), 2);
    match &d[1] {
        Node::HtmlBlock(h) => assert_eq!(h, "<div>\nhi\n</div>\n"),
        other => panic!("{other:?}"),
    }
}

#[test]
fn xml_reading_is_robust_to_empty_input() {
    assert!(matches!(read_commonmark_xml(""), Node::Document(k) if k.is_empty()));
}

fn color(n: u8) -> String {
    format!("#0000{n:02x}")
}

fn theme() -> Theme {
    let c = color(1);
    Theme {
        name: "test".to_string(),
        code_theme: "base16-ocean.dark".to_string(),
        colors: ThemeColors {
            bg: None,
            fg: c.clone(),
            heading1: color(2),
            heading2: color(3),
            heading3: color(4),
            heading4: color(5),
            heading5: color(6),
            heading6: color(7),
            bold: color(8),
            italic: color(9),
            strikethrough: color(10),
            code_fg: color(11),
            code_bg: color(12),
            code_block_bg: color(13),
            link: color(14),
            link_url: color(15),
            blockquote_bar: color(16),
            blockquote_text: color(17),
            list_bullet: color(18),
            list_number: color(19),
            table_border: color(20),
            table_header: color(21),
            hr: color(22),
            task_done: color(23),
            task_pending: color(24),
            search_match: color(25),
            search_current: color(26),
            status_bar_bg: color(27),
            status_bar_fg: color(28),
            toc_active: color(29),
            toc_inactive: color(30),
            admonition_note: color(31),
            admonition_warning: color(32),
            admonition_tip: color(33),
            admonition_important: color(34),
            admonition_caution: color(35),
        },
    }
}

fn layout(source: &str, width: u16) -> Vec<StyledLine> {
    let root = parse_markdown(source);
    layout_document(&root, &theme(), width, Spacing::Normal, 0, ImageMode::Off, None, (0, 0, 0)).lines
}

fn line_width(line: &StyledLine) -> usize {
    line.spans.iter().map(|s| s.text.as_str().width()).sum()
}

#[test]
fn no_construct_overflows_width() {
    let source = "\
# A heading long enough that it clearly must wrap at narrow widths to fit\n\n\
A paragraph with a very-long-unbreakable-token-that-cannot-wrap-on-spaces-and-must-hard-break here.\n\n\
https://example.com/a/really/long/url/that/keeps/going/way/past/any/reasonable/width/limit\n\n\
```rust\nfn f(argument_one: SomeType, argument_two: OtherType, argument_three: Third) -> Ret { 0 }\n```\n\n\
> A blockquote that is also long enough to require wrapping inside the quote bar without spilling.\n\n\
| Col A | Col B | Col C | Col D |\n|---|---|---|---|\n\
| a fairly long cell value | another long one | third long value | fourth |\n\n\
- a list item long enough to need wrapping across multiple continuation lines within budget\n";
    for width in [40u16, 50, 60, 80, 100] {
        for line in layout(source, width) {
            assert!(
                line_width(&line) <= width as usize,
                "width {width}: line {} > {width}: {:?}",
                line_width(&line),
                line.spans.iter().map(|s| s.text.as_str()).collect::<String>()
            );
        }
    }
}

#[test]
fn plain_output_holds_only_safe_escapes() {
    let src = "# Title\n\n[bad](javascript:alert(1)) [file](file:///etc/passwd) [ok](https://ok.io) bell\u{7} esc\u{1b}]52;c;x\u{7}\n";
    let root = parse_markdown(src);
    let laid = layout_document(&root, &theme(), 60, Spacing::Normal, 0, ImageMode::Off, None, (0, 0, 0));
    let out = ink_md::render::styled_lines_to_ansi(&laid.lines, ink_md::theme::TermCaps { no_color: false, truecolor: true });
    assert!(!out.contains("]8;;javascript"));
    assert!(!out.contains("]8;;file:"));
    assert!(out.contains("\u{1b}]8;;https://ok.io\u{1b}\\"));
    for (i, c) in out.char_indices() {
        if c == '\u{1b}' {
            let rest = &out[i + 1..];
            assert!(rest.starts_with('[') || rest.starts_with("]8;;") || rest.starts_with('\\'), "bad escape at {i}");
        } else {
            assert!(!c.is_control() || c == '\n' || c == '\t', "control {c:?}");
        }
    }
}

#[test]
fn a_code_info_with_angle_brackets_stays_one_block() {
    let root = parse_markdown("```a>b\ncode <x>\n```\n\nafter\n");
    let d = kids(&root);
    match &d[0] {
        Node::CodeBlock(info, lit) => assert_eq!((info.as_str(), lit.as_str()), ("a>b", "code <x>\n")),
        other => panic!("{other:?}"),
    }
    assert_eq!(text_of(&d[1]), "after");
}
