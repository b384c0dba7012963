use ink_md::wikilink::process_wikilinks;

#[test]
fn basic_wikilink() {
    assert_eq!(
        process_wikilinks("See [[my page]] for details"),
        "See [my page](my page.md) for details"
    );
}

#[test]
fn wikilink_with_display() {
    assert_eq!(process_wikilinks("See [[target|click here]]"), "See [click here](target.md)");
}

#[test]
fn wikilink_with_extension() {
    assert_eq!(process_wikilinks("See [[doc.pdf]]"), "See [doc.pdf](doc.pdf)");
}

#[test]
fn skip_code_block() {
    let input = "```\n[[not a link]]\n```";
    assert_eq!(process_wikilinks(input), input);
}

#[test]
fn skip_inline_code() {
    let input = "Use `[[not a link]]` syntax";
    assert_eq!(process_wikilinks(input), input);
}

#[test]
fn no_wikilinks() {
    let input = "Just normal [markdown](link.md) text";
    assert_eq!(process_wikilinks(input), input);
}

#[test]
fn backtick_fence_inside_tilde_fence_does_not_toggle() {
    let input = "~~~\nfence demo:\n```\n[[real link]]\n~~~\n\nLater: [[notes]]\n";
    let expected = "~~~\nfence demo:\n```\n[[real link]]\n~~~\n\nLater: [notes](notes.md)\n";
    assert_eq!(process_wikilinks(input), expected);
}

#[test]
fn tilde_fence_inside_backtick_fence_does_not_toggle() {
    let input = "```\n~~~\n[[not a link]]\n```\n[[link]]";
    assert_eq!(process_wikilinks(input), "```\n~~~\n[[not a link]]\n```\n[link](link.md)");
}

#[test]
fn longer_fence_needed_to_close() {
    let input = "````\n```\n[[not a link]]\n````\n[[link]]";
    assert_eq!(process_wikilinks(input), "````\n```\n[[not a link]]\n````\n[link](link.md)");
}

#[test]
fn double_backtick_span_protects_wikilink() {
    let input = "Use ``[[a|b]]`` here";
    assert_eq!(process_wikilinks(input), input);
}

#[test]
fn unmatched_backtick_is_literal() {
    assert_eq!(process_wikilinks("a ` stray and [[link]]"), "a ` stray and [link](link.md)");
}

#[test]
fn preserves_exact_trailing_newline() {
    let with_nl = "# Title\n\nSome text\n";
    assert_eq!(process_wikilinks(with_nl), with_nl);
    let without_nl = "# Title\n\nSome text";
    assert_eq!(process_wikilinks(without_nl), without_nl);
}

#[test]
fn text_without_double_brackets_is_unchanged() {
    let input = "a [single](x) ]] and [ [ spaced";
    assert_eq!(process_wikilinks(input), input);
}
