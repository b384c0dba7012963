use ink_md::layout::{SpanStyle, StyledLine, StyledSpan};
use ink_md::render::{sgr_color, styled_lines_to_ansi};
use ink_md::theme::TermCaps;

fn caps(no_color: bool, truecolor: bool) -> TermCaps {
    TermCaps { no_color, truecolor }
}

#[test]
fn sgr_colors_in_both_modes() {
    assert_eq!(sgr_color((1, 2, 3), true, true), "\x1b[38;2;1;2;3m");
    assert_eq!(sgr_color((255, 0, 0), false, false), "\x1b[48;5;196m");
}

#[test]
fn spans_render_with_attributes_colors_links_and_resets() {
    let line = StyledLine {
        spans: vec![
            StyledSpan { text: "plain".into(), style: SpanStyle::default() },
            StyledSpan {
                text: "x".into(),
                style: SpanStyle { bold: true, italic: true, fg: Some("#010203".into()), ..Default::default() },
            },
            StyledSpan {
                text: "go".into(),
                style: SpanStyle { link_url: Some("https://a.b".into()), ..Default::default() },
            },
        ],
    };
    let out = styled_lines_to_ansi(&[line], caps(false, true));
    assert_eq!(
        out,
        "plain\x1b[38;2;1;2;3m\x1b[1;3mx\x1b[0m\x1b]8;;https://a.b\x1b\\go\x1b]8;;\x1b\\\n"
    );
}

#[test]
fn no_color_keeps_attributes_and_drops_bad_links() {
    let line = StyledLine {
        spans: vec![StyledSpan {
            text: "t".into(),
            style: SpanStyle {
                underline: true,
                fg: Some("#ffffff".into()),
                link_url: Some("javascript:x".into()),
                ..Default::default()
            },
        }],
    };
    assert_eq!(styled_lines_to_ansi(&[line], caps(true, true)), "\x1b[4mt\x1b[0m\n");
    assert_eq!(styled_lines_to_ansi(&[StyledLine::empty(), StyledLine::empty()], caps(false, false)), "\n\n");
}
