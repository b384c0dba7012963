use ink_md::input::keymap::{action_from_id, parse_key, KeyCode, KeyMods};
use ink_md::input::preset::{default_preset, emacs_preset, lookup};
use ink_md::input::{mouse_action, search_key_action, Action, MouseKind};

fn mods(control: bool, alt: bool, shift: bool) -> KeyMods {
    KeyMods { control, alt, shift }
}

#[test]
fn action_from_id_known() {
    assert_eq!(action_from_id("exit_app"), Some(Action::ExitApp));
    assert_eq!(action_from_id("scroll_down"), Some(Action::ScrollDown(1)));
    assert_eq!(action_from_id("scroll_down_fast"), Some(Action::ScrollDown(10)));
    assert_eq!(action_from_id("nope"), None);
}

#[test]
fn lookup_resolves_known_presets() {
    assert!(lookup("default").is_some());
    assert!(lookup("vim").is_some());
    assert!(lookup("emacs").is_some());
    assert!(lookup("EMACS").is_some());
    assert!(lookup("zorblat").is_none());
}

#[test]
fn parses_plain_char() {
    assert_eq!(parse_key("q"), Ok((KeyCode::Char('q'), KeyMods::empty())));
}

#[test]
fn parses_ctrl_combo() {
    assert_eq!(parse_key("ctrl-c"), Ok((KeyCode::Char('c'), mods(true, false, false))));
}

#[test]
fn parses_alt_arrow() {
    assert_eq!(parse_key("alt-down"), Ok((KeyCode::Down, mods(false, true, false))));
}

#[test]
fn shift_letter_normalizes_to_uppercase() {
    assert_eq!(parse_key("shift-g"), Ok((KeyCode::Char('G'), KeyMods::empty())));
}

#[test]
fn parses_named_keys() {
    assert_eq!(parse_key("esc"), Ok((KeyCode::Esc, KeyMods::empty())));
    assert_eq!(parse_key("space"), Ok((KeyCode::Char(' '), KeyMods::empty())));
    assert_eq!(parse_key("pagedown"), Ok((KeyCode::PageDown, KeyMods::empty())));
}

#[test]
fn invalid_returns_err() {
    assert!(parse_key("").is_err());
    assert!(parse_key("flarg-x").is_err());
    assert!(parse_key("ctrl-flarp").is_err());
}

#[test]
fn key_errors_name_the_problem() {
    assert_eq!(parse_key("  "), Err("empty key string".to_string()));
    assert_eq!(parse_key("Hyper-x"), Err("unknown modifier 'hyper' in 'Hyper-x'".to_string()));
    assert_eq!(parse_key("f13"), Err("function key out of range: 'f13'".to_string()));
    assert_eq!(parse_key("fx"), Err("invalid function key 'fx'".to_string()));
    assert_eq!(parse_key("ctrl-"), Err("empty key ''".to_string()));
    assert_eq!(parse_key("abc"), Err("unrecognized key 'abc'".to_string()));
}

#[test]
fn function_keys_and_combinations() {
    assert_eq!(parse_key("F5"), Ok((KeyCode::F(5), KeyMods::empty())));
    assert_eq!(parse_key("f+12"), Ok((KeyCode::F(12), KeyMods::empty())));
    assert_eq!(parse_key(" ctrl-shift-p "), Ok((KeyCode::Char('P'), mods(true, false, false))));
    assert_eq!(parse_key("G"), Ok((KeyCode::Char('G'), KeyMods::empty())));
    assert_eq!(parse_key("shift-1"), Ok((KeyCode::Char('1'), mods(false, false, true))));
}

#[test]
fn presets_hold_the_documented_bindings() {
    let d = default_preset();
    assert_eq!(d[0], ("exit_app", vec!["q", "esc", "ctrl-c"]));
    let e = emacs_preset();
    assert!(e.iter().any(|(id, keys)| *id == "scroll_down" && keys.contains(&"ctrl-n")));
    assert_eq!(lookup("Vim"), Some(default_preset()));
}

#[test]
fn search_prompt_keys() {
    assert_eq!(search_key_action(KeyCode::Char('c'), mods(true, false, false)), Action::CloseSearch);
    assert_eq!(search_key_action(KeyCode::Char('c'), KeyMods::empty()), Action::SearchInput('c'));
    assert_eq!(search_key_action(KeyCode::Enter, KeyMods::empty()), Action::SearchConfirm);
    assert_eq!(search_key_action(KeyCode::Tab, KeyMods::empty()), Action::NoOp);
    assert_eq!(mouse_action(MouseKind::ScrollDown), Action::ScrollDown(3));
    assert_eq!(mouse_action(MouseKind::Other), Action::NoOp);
}
