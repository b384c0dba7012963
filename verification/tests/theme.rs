use ink_md::theme::{adapt_rgb, builtin_themes, hex_term_color, hex_to_rgb, rgb_to_256, theme_names, TermCaps, TermColor};

#[test]
fn parses_valid_hex() {
    assert_eq!(hex_to_rgb("#ff0000"), (255, 0, 0));
    assert_eq!(hex_to_rgb("00ff80"), (0, 255, 128));
}

#[test]
fn non_ascii_hex_falls_back_instead_of_panicking() {
    assert_eq!(hex_to_rgb("€€"), (200, 200, 200));
    assert_eq!(hex_to_rgb("#ααα"), (200, 200, 200));
    assert_eq!(hex_to_rgb("fff"), (200, 200, 200));
}

#[test]
fn quantize_stays_in_palette() {
    for (r, g, b) in [(0, 0, 0), (255, 255, 255), (128, 64, 200), (10, 10, 10)] {
        let idx = rgb_to_256(r, g, b);
        assert!(idx >= 16, "index {idx} below color range");
    }
}

#[test]
fn hex_channels_that_do_not_parse_read_as_gray() {
    assert_eq!(hex_to_rgb("##zz00ff"), (200, 0, 255));
    assert_eq!(hex_to_rgb("+f+f+fxx"), (15, 15, 15));
    assert_eq!(hex_to_rgb("ABCDEF"), (171, 205, 239));
}

#[test]
fn quantize_exact_values() {
    assert_eq!(rgb_to_256(0, 0, 0), 16);
    assert_eq!(rgb_to_256(255, 255, 255), 231);
    assert_eq!(rgb_to_256(128, 128, 128), 232 + (120 * 23 / 240) as u8);
    assert_eq!(rgb_to_256(255, 0, 0), 196);
    assert_eq!(rgb_to_256(0, 100, 255), 16 + 6 + 5);
}

#[test]
fn truecolor_is_read_from_the_environment_values() {
    assert!(TermCaps::from_env_values(false, "TrueColor", "").truecolor);
    assert!(TermCaps::from_env_values(false, "24bit", "").truecolor);
    assert!(TermCaps::from_env_values(false, "", "xterm-kitty").truecolor);
    assert!(TermCaps::from_env_values(false, "", "alacritty").truecolor);
    assert!(!TermCaps::from_env_values(false, "256", "xterm-256color").truecolor);
    assert!(TermCaps::from_env_values(true, "", "").no_color);
}

#[test]
fn there_are_eight_builtin_themes() {
    let names = builtin_themes();
    assert_eq!(names.len(), 8);
    assert_eq!(names[0], "dark");
    assert!(names.contains(&"tokyo-night"));
}

#[test]
fn colors_adapt_to_the_terminal() {
    let none = TermCaps { no_color: true, truecolor: true };
    let tc = TermCaps { no_color: false, truecolor: true };
    let c256 = TermCaps { no_color: false, truecolor: false };
    assert_eq!(adapt_rgb(none, 255, 0, 0), None);
    assert_eq!(adapt_rgb(tc, 255, 0, 0), Some(TermColor::Rgb(255, 0, 0)));
    assert_eq!(adapt_rgb(c256, 255, 0, 0), Some(TermColor::Indexed(rgb_to_256(255, 0, 0))));
    assert_eq!(hex_term_color("#1e1e2e", true), TermColor::Rgb(0x1e, 0x1e, 0x2e));
    assert_eq!(hex_term_color("#ffffff", false), TermColor::Indexed(231));
    assert_eq!(hex_term_color("bogus", true), TermColor::Rgb(200, 200, 200));
}

#[test]
fn user_themes_follow_builtins_in_order() {
    let files: Vec<String> = ["zeta.toml", "nord.toml", "alpha.toml", "notes.txt", ".toml", "a.b.toml", "toml"]
        .iter()
        .map(|s| s.to_string())
        .collect();
    let names = theme_names(&files);
    let builtins: Vec<String> = builtin_themes().iter().map(|s| s.to_string()).collect();
    assert_eq!(&names[..8], &builtins[..]);
    assert_eq!(&names[8..], &["a.b", "alpha", "zeta"]);
    assert_eq!(theme_names(&Vec::new()).len(), 8);
}
