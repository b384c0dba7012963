use ink_md::status::status_bar;
use ink_md::theme::{Theme, ThemeColors};

fn color(n: u8) -> String {
    format!("#0000{n:02x}")
}

fn theme() -> Theme {
    Theme {
        name: "test".to_string(),
        code_theme: "base16-ocean.dark".to_string(),
        colors: ThemeColors {
            bg: None,
            fg: color(1),
            heading1: color(2),
            heading2: color(3),
            heading3: color(4),
            heading4: color(5),
            heading5: color(6),
            heading6: color(7),
            bold: color(8),
            italic: color(9),
            strikethrough: color(10),
            code_fg: color(11),
            code_bg: color(12),
            code_block_bg: color(13),
            link: color(14),
            link_url: color(15),
            blockquote_bar: color(16),
            blockquote_text: color(17),
            list_bullet: color(18),
            list_number: color(19),
            table_border: color(20),
            table_header: color(21),
            hr: color(22),
            task_done: color(23),
            task_pending: color(24),
            search_match: color(25),
            search_current: color(26),
            status_bar_bg: color(27),
            status_bar_fg: color(28),
            toc_active: color(29),
            toc_inactive: color(30),
            admonition_note: color(31),
            admonition_warning: color(32),
            admonition_tip: color(33),
            admonition_important: color(34),
            admonition_caution: color(35),
        },
    }
}

#[test]
fn status_bar_fills_the_width() {
    let t = theme();
    let line = status_bar(&t, "doc.md", 120, 1, true, Some((0, 2)), false, 120);
    let texts: Vec<&str> = line.spans.iter().map(|s| s.text.as_str()).collect();
    assert_eq!(&texts[..4], &[" ↑↓/jk ", "scroll", " · ", " / "]);
    assert!(texts.contains(&" Tab "));
    assert_eq!(texts[texts.len() - 2], "doc.md [1/2]");
    assert_eq!(texts[texts.len() - 1], "  120 words · ~1 min  ");
    assert_eq!(line.width(), 120);
    assert!(line.spans[0].style.bold);
    assert_eq!(line.spans[0].style.bg.as_deref(), Some(t.colors.status_bar_bg.as_str()));
    assert_eq!(line.spans[1].style.fg.as_deref(), Some(t.colors.link_url.as_str()));
}

#[test]
fn status_bar_notes_a_missing_file_and_never_pads_negative() {
    let t = theme();
    let line = status_bar(&t, "gone.md", 0, 0, false, None, true, 10);
    let texts: Vec<&str> = line.spans.iter().map(|s| s.text.as_str()).collect();
    assert!(!texts.contains(&" Tab "));
    assert_eq!(texts[texts.len() - 4], "");
    assert_eq!(texts[texts.len() - 3], " [file missing] ");
    assert_eq!(line.spans[line.spans.len() - 3].style.fg.as_deref(), Some(t.colors.heading2.as_str()));
    assert_eq!(texts[texts.len() - 2], "gone.md");
}
