use ink_md::layout::tag::block_image;

#[test]
fn a_centered_logo_block_stands_for_its_picture() {
    let html = "<p align=\"center\">\n  <img src=\"logo.png\" alt=\"Logo\" width=\"200\">\n</p>\n";
    assert_eq!(block_image(html), Some(("logo.png".to_string(), "Logo".to_string())));
}

#[test]
fn attribute_scanning_is_quote_aware() {
    let html = "<img alt=\"pass src=here > there\" src=\"diagram.png\">";
    assert_eq!(block_image(html), Some(("diagram.png".to_string(), "pass src=here > there".to_string())));
}

#[test]
fn blocks_with_text_or_without_img_are_not_pictures() {
    assert_eq!(block_image("<div>Some text <img src=\"a.png\"></div>"), None);
    assert_eq!(block_image("<details><summary></summary></details>"), None);
    assert_eq!(block_image("<IMG SRC=a.png>"), Some(("a.png".to_string(), String::new())));
}
