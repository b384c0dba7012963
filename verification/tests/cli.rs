use ink_md::cli::{parse_spacing, parse_u16_str, resolve_args, resolve_width, spacing_lines, Cli};
use ink_md::config::{config_path_display, Config};
use ink_md::Spacing;

fn config_with(width: Option<u16>, theme: Option<&str>) -> Config {
    Config {
        theme: theme.map(|t| t.to_string()),
        width,
        spacing: None,
        toc: None,
        frontmatter: None,
        behavior: None,
        keybindings: None,
    }
}

#[test]
fn width_names_and_numbers() {
    assert_eq!(resolve_width(&Some("narrow".into()), &None), Some(60));
    assert_eq!(resolve_width(&Some("wide".into()), &None), Some(100));
    assert_eq!(resolve_width(&Some("full".into()), &Some(config_with(Some(70), None))), None);
    assert_eq!(resolve_width(&Some("90".into()), &None), Some(90));
    assert_eq!(resolve_width(&Some("huge".into()), &Some(config_with(Some(70), None))), Some(70));
    assert_eq!(resolve_width(&None, &None), None);
}

#[test]
fn u16_parsing_matches_from_str() {
    assert_eq!(parse_u16_str("+42"), Some(42));
    assert_eq!(parse_u16_str("65535"), Some(65535));
    assert_eq!(parse_u16_str("65536"), None);
    assert_eq!(parse_u16_str(""), None);
    assert_eq!(parse_u16_str("+"), None);
    assert_eq!(parse_u16_str("-1"), None);
    assert_eq!(parse_u16_str("007"), Some(7));
}

#[test]
fn spacing_values() {
    assert_eq!(parse_spacing("compact"), Spacing::Compact);
    assert_eq!(parse_spacing("relaxed"), Spacing::Relaxed);
    assert_eq!(parse_spacing("anything"), Spacing::Normal);
    assert_eq!(spacing_lines(Spacing::Relaxed), 2);
}

#[test]
fn args_resolve_against_the_config() {
    let cli = Cli {
        command: None,
        input: vec!["a.md".into()],
        theme: "auto".into(),
        width: None,
        slides: true,
        plain: false,
        watch: false,
        toc: true,
        no_images: false,
        frontmatter: false,
        spacing: "compact".into(),
    };
    let args = resolve_args(&cli, &Some(config_with(Some(72), Some("nord"))));
    assert_eq!(args.theme, "nord");
    assert_eq!(args.width, Some(72));
    assert_eq!(args.spacing, Spacing::Compact);
    assert_eq!(args.inputs, vec!["a.md".to_string()]);
    assert!(args.slides && args.toc && !args.plain);
    let args = resolve_args(&cli, &None);
    assert_eq!(args.theme, "auto");
}

#[test]
fn config_path_is_displayed() {
    assert_eq!(config_path_display(Some("/x/config.toml".into())), "/x/config.toml");
    assert_eq!(config_path_display(None), "<no config dir on this platform>");
}
