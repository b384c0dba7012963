use ink_md::layout::{SpanStyle, StyledLine, StyledSpan};
use ink_md::selection::{
    clamp, content_start_col, line_width, next_word_col, plain_lines, prev_word_col, slice_columns,
    snap_col, word_bounds, Pos, SelMode, Selection,
};

fn doc() -> Vec<String> {
    vec!["the quick brown fox".to_string(), "jumps over".to_string(), "the lazy dog".to_string()]
}

#[test]
fn char_selection_spans_partial_first_and_last_lines() {
    let sel = Selection { anchor: Pos::new(0, 4), cursor: Pos::new(2, 7), mode: SelMode::Char };
    assert_eq!(sel.extract(&doc()), "quick brown fox\njumps over\nthe lazy");
}

#[test]
fn selection_is_direction_agnostic() {
    let forward = Selection { anchor: Pos::new(0, 4), cursor: Pos::new(2, 7), mode: SelMode::Char };
    let backward = Selection { anchor: Pos::new(2, 7), cursor: Pos::new(0, 4), mode: SelMode::Char };
    assert_eq!(forward.extract(&doc()), backward.extract(&doc()));
}

#[test]
fn line_selection_takes_whole_lines_and_strips_the_margin() {
    let margined: Vec<String> = doc().iter().map(|l| format!("    {l}   ")).collect();
    let sel = Selection { anchor: Pos::new(0, 4), cursor: Pos::new(2, 7), mode: SelMode::Line };
    assert_eq!(sel.extract(&margined), "the quick brown fox\njumps over\nthe lazy dog");
}

#[test]
fn line_selection_survives_mixed_width_leading_whitespace() {
    let lines = vec!["  \u{3000}alpha".to_string(), "  \u{a0}\u{a0}beta".to_string()];
    let sel = Selection { anchor: Pos::new(0, 0), cursor: Pos::new(1, 4), mode: SelMode::Line };
    assert_eq!(sel.extract(&lines), "\u{3000}alpha\n\u{a0}\u{a0}beta");
}

#[test]
fn line_selection_keeps_relative_indentation() {
    let lines = vec![
        "    fn main() {".to_string(),
        "        println!();".to_string(),
        "    }".to_string(),
    ];
    let sel = Selection { anchor: Pos::new(0, 0), cursor: Pos::new(2, 4), mode: SelMode::Line };
    assert_eq!(sel.extract(&lines), "fn main() {\n    println!();\n}");
}

#[test]
fn a_selection_edge_inside_a_wide_character_takes_the_whole_character() {
    let lines = vec!["世界a".to_string()];
    let sel = Selection { anchor: Pos::new(0, 1), cursor: Pos::new(0, 3), mode: SelMode::Char };
    assert_eq!(sel.extract(&lines), "世界");
    assert!(sel.extract(&lines).contains('世'));
}

#[test]
fn single_cell_selection_takes_one_grapheme() {
    let lines = vec!["abc".to_string()];
    let sel = Selection::new(Pos::new(0, 1), SelMode::Char);
    assert_eq!(sel.extract(&lines), "b");
}

#[test]
fn selection_past_the_end_of_the_document_is_empty_not_a_panic() {
    let sel = Selection { anchor: Pos::new(9, 0), cursor: Pos::new(12, 4), mode: SelMode::Char };
    assert_eq!(sel.extract(&doc()), "");
}

#[test]
fn highlight_span_covers_the_cursor_cell() {
    let sel = Selection { anchor: Pos::new(0, 2), cursor: Pos::new(0, 5), mode: SelMode::Char };
    assert_eq!(sel.highlight_span(0, 19), Some((2, 6)));
    assert_eq!(sel.highlight_span(1, 10), None);
}

#[test]
fn line_mode_highlights_the_whole_line() {
    let sel = Selection { anchor: Pos::new(0, 7), cursor: Pos::new(1, 2), mode: SelMode::Line };
    assert_eq!(sel.highlight_span(0, 19), Some((0, 19)));
    assert_eq!(sel.highlight_span(1, 10), Some((0, 10)));
}

#[test]
fn content_start_col_skips_inks_own_decoration() {
    assert_eq!(content_start_col("  █ Install ink"), 4);
    assert_eq!(content_start_col("  • an item"), 4);
    assert_eq!(content_start_col("  │ quoted"), 4);
    assert_eq!(content_start_col("    hello"), 4);
    assert_eq!(content_start_col("  │ │ nested"), 4);
    assert_eq!(content_start_col(""), 0);
}

#[test]
fn snap_col_lands_on_grapheme_starts() {
    assert_eq!(snap_col("世界a", 0), 0);
    assert_eq!(snap_col("世界a", 1), 0);
    assert_eq!(snap_col("世界a", 2), 2);
    assert_eq!(snap_col("世界a", 3), 2);
    assert_eq!(snap_col("世界a", 4), 4);
}

#[test]
fn word_bounds_grabs_the_word_under_the_column() {
    let text = "the quick brown";
    assert_eq!(word_bounds(text, 5), (4, 8));
    assert_eq!(word_bounds(text, 4), (4, 8));
    assert_eq!(word_bounds(text, 8), (4, 8));
}

#[test]
fn word_motions_step_between_words() {
    let text = "the quick brown fox";
    assert_eq!(next_word_col(text, 0), 4);
    assert_eq!(next_word_col(text, 4), 10);
    assert_eq!(next_word_col(text, 16), line_width(text));
    assert_eq!(prev_word_col(text, 10), 4);
    assert_eq!(prev_word_col(text, 2), 0);
}

#[test]
fn clamp_keeps_positions_inside_the_document() {
    let d = doc();
    assert_eq!(clamp(Pos::new(99, 99), &d), Pos::new(2, 12));
    assert_eq!(clamp(Pos::new(1, 3), &d), Pos::new(1, 3));
    assert_eq!(clamp(Pos::new(0, 0), &[]), Pos::default());
}

#[test]
fn plain_lines_concatenates_spans() {
    let line = StyledLine {
        spans: vec![
            StyledSpan { text: "  ".into(), style: SpanStyle::default() },
            StyledSpan { text: "hello".into(), style: SpanStyle::default() },
        ],
    };
    assert_eq!(plain_lines(&[line]), vec!["  hello".to_string()]);
}

#[test]
fn slice_columns_takes_overlapping_graphemes() {
    assert_eq!(slice_columns("abcdef", 1, Some(3)), "bcd");
    assert_eq!(slice_columns("abcdef", 4, None), "ef");
    assert_eq!(slice_columns("abc", 2, Some(1)), "");
    assert_eq!(slice_columns("世界", 1, Some(1)), "世");
}

#[test]
fn range_orders_anchor_and_cursor() {
    let sel = Selection { anchor: Pos::new(3, 1), cursor: Pos::new(1, 9), mode: SelMode::Char };
    assert_eq!(sel.range(), (Pos::new(1, 9), Pos::new(3, 1)));
}

#[test]
fn highlight_covers_the_newline_of_inner_lines() {
    let sel = Selection { anchor: Pos::new(0, 3), cursor: Pos::new(2, 1), mode: SelMode::Char };
    assert_eq!(sel.highlight_span(0, 10), Some((3, 11)));
    assert_eq!(sel.highlight_span(1, 4), Some((0, 5)));
    assert_eq!(sel.highlight_span(2, 8), Some((0, 2)));
}

#[test]
fn word_bounds_of_whitespace_is_the_run() {
    assert_eq!(word_bounds("a   b", 2), (1, 3));
    assert_eq!(word_bounds("ab", 7), (7, 7));
}

#[test]
fn a_copy_is_one_clean_piece_per_selected_line() {
    let plain = vec!["  one   ".to_string(), "  two ".to_string(), "three  ".to_string()];
    let sel = Selection { anchor: Pos::new(2, 3), cursor: Pos::new(0, 0), mode: SelMode::Line };
    let out = sel.extract(&plain);
    assert_eq!(out, "  one\n  two\nthree");
    // A selection running past the end copies up to the last line.
    let past = Selection { anchor: Pos::new(1, 0), cursor: Pos::new(9, 0), mode: SelMode::Char };
    let text = past.extract(&plain);
    assert_eq!(text.split('\n').count(), 2);
    assert!(text.split('\n').all(|p| p == p.trim_end()));
}
