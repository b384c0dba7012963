use ink_md::stats::diff_report;
use ink_md::stats::outline_lines;
use ink_md::stats::stats_report;
use ink_md::stats::{document_stats, text_stats, word_count};

#[test]
fn words_count_by_whitespace_tokens() {
    assert_eq!(word_count("hello world  foo"), 3);
    assert_eq!(word_count(""), 0);
    assert_eq!(word_count(" \n\t "), 0);
}

#[test]
fn cjk_characters_count_one_by_one() {
    assert_eq!(word_count("世界你好"), 4);
    assert_eq!(word_count("Rust世界 ok"), 4);
    assert_eq!(word_count("ひらがな"), 4);
}

#[test]
fn reading_time_rounds_up() {
    assert_eq!(document_stats(""), (0, 0));
    assert_eq!(document_stats("word"), (1, 1));
    let two_hundred = "w ".repeat(200);
    assert_eq!(document_stats(&two_hundred), (200, 1));
    let more = "w ".repeat(201);
    assert_eq!(document_stats(&more), (201, 2));
}

#[test]
fn text_stats_counts_elements() {
    let doc = "# T\n\nSee [a](b) and ![i](p.png).\n\n```\ncode\n```\n\n| a | b |\n|---|---|\n";
    let st = text_stats(doc);
    assert_eq!(st.links, 2);
    assert_eq!(st.images, 1);
    assert_eq!(st.code_blocks, 1);
    assert_eq!(st.tables, 1);
    assert_eq!(st.lines, 10);
    assert_eq!(st.chars, doc.chars().count());
    assert_eq!(st.words, word_count(doc));
}

#[test]
fn stats_box_lists_the_numbers() {
    let st = text_stats("# Title\n\nSome words here.\n");
    let lines = stats_report("doc.md", &st, 1, true);
    assert_eq!(lines[0], "╭─ doc.md ─╮");
    assert_eq!(lines[2], format!("│  Words:         {}", st.words));
    assert_eq!(lines[5], "│  Reading time:  ~1 min");
    assert_eq!(lines[7], "│  Headings:      1");
    assert_eq!(lines[12], "│  Frontmatter:   yes");
    assert_eq!(lines.last().unwrap(), "╰───╯");
    assert_eq!(stats_report("x", &st, 0, false).len(), 14);
}

#[test]
fn outline_indents_by_level() {
    let hs = vec![(1u8, "Top".to_string()), (2, "Sub".to_string()), (5, "Deep".to_string())];
    assert_eq!(outline_lines(&hs), vec!["█ Top", "  ▌ Sub", "        · Deep"]);
    assert_eq!(outline_lines(&Vec::new()), vec!["  (no headings found)"]);
}

#[test]
fn diff_marks_removed_and_added_lines() {
    let lines = diff_report("a\nb\nc\n", "a\nx\nc\n", "old.md", "new.md");
    assert_eq!(lines[0], "\x1b[1m--- old.md\x1b[0m");
    assert_eq!(lines[1], "\x1b[1m+++ new.md\x1b[0m");
    assert_eq!(lines[2], "");
    assert_eq!(&lines[3..], &["  a", "\x1b[31m- b\x1b[0m", "\x1b[32m+ x\x1b[0m", "  c"]);
}
