use ink_md::input::bindings::build_keymap;
use ink_md::input::keymap::{parse_key, parse_keys, KeyBinding, KeyCode, KeyMods};
use ink_md::input::listing::{action_id, key_label, keybinding_rows, listing_lines, sort_strings, str_le};
use ink_md::input::preset::{default_preset, emacs_preset};
use ink_md::input::{chord_key_action, event_action, event_step, key_action, Action, InputEvent, MouseKind};

fn bound(map: &[(KeyBinding, Action)], kb: KeyBinding) -> Option<Action> {
    map.iter().find(|e| e.0 == kb).map(|e| e.1)
}

fn mods(control: bool, alt: bool, shift: bool) -> KeyMods {
    KeyMods { control, alt, shift }
}

#[test]
fn default_preset_has_q_for_exit() {
    let (map, _, warnings) = build_keymap(&default_preset(), &Vec::new());
    assert!(warnings.is_empty(), "warnings: {warnings:?}");
    let q = parse_key("q").unwrap();
    assert_eq!(bound(&map, q), Some(Action::ExitApp));
}

#[test]
fn emacs_preset_has_ctrl_n_for_scroll_down() {
    let (map, _, _) = build_keymap(&emacs_preset(), &Vec::new());
    let cn = parse_key("ctrl-n").unwrap();
    assert_eq!(bound(&map, cn), Some(Action::ScrollDown(1)));
}

#[test]
fn emacs_preset_has_ctrl_v_for_page_down() {
    let (map, _, _) = build_keymap(&emacs_preset(), &Vec::new());
    let cv = parse_key("ctrl-v").unwrap();
    assert_eq!(bound(&map, cv), Some(Action::PageDown));
}

#[test]
fn override_replaces_the_presets_keys_for_that_action() {
    let overrides = vec![("toggle_toc".to_string(), vec!["ctrl-t".to_string()])];
    let (map, _, warnings) = build_keymap(&default_preset(), &overrides);
    assert!(warnings.is_empty(), "warnings: {warnings:?}");
    let ct = parse_key("ctrl-t").unwrap();
    assert_eq!(bound(&map, ct), Some(Action::ToggleToc));
    let t = parse_key("t").unwrap();
    assert_eq!(bound(&map, t), None);
}

#[test]
fn unknown_ids_bad_keys_and_conflicts_warn() {
    let overrides = vec![
        ("no_such_action".to_string(), vec!["x".to_string()]),
        ("search".to_string(), vec!["q".to_string(), "ctrl-".to_string()]),
    ];
    let (map, _, warnings) = build_keymap(&default_preset(), &overrides);
    assert_eq!(warnings.len(), 3, "warnings: {warnings:?}");
    assert_eq!(warnings[0], "unknown action id in config: 'no_such_action'");
    assert!(warnings[1].starts_with("invalid key 'ctrl-' for 'search'") || warnings[2].starts_with("invalid key 'ctrl-' for 'search'"));
    assert!(warnings.iter().any(|w| w == "keybinding conflict: 'q' bound to both 'exit_app' and 'search' — using 'search'"));
    let q = parse_key("q").unwrap();
    assert_eq!(bound(&map, q), Some(Action::Search));
}

#[test]
fn keys_are_listed_by_name() {
    assert_eq!(key_label((KeyCode::Char(' '), KeyMods::empty())), "space");
    assert_eq!(key_label((KeyCode::Char('G'), KeyMods::empty())), "G");
    assert_eq!(key_label((KeyCode::Down, mods(true, true, false))), "ctrl-alt-down");
    assert_eq!(key_label((KeyCode::PageDown, mods(false, false, true))), "shift-pagedown");
    assert_eq!(key_label((KeyCode::F(12), KeyMods::empty())), "f(12)");
    assert_eq!(action_id(Action::ScrollDown(1)), "scroll_down");
    assert_eq!(action_id(Action::ScrollDown(10)), "scroll_down_fast");
    assert_eq!(action_id(Action::Resize(1, 1)), "?");
}

#[test]
fn strings_sort_in_string_order() {
    assert!(str_le("abc", "abd"));
    assert!(str_le("ab", "abc"));
    assert!(!str_le("b", "abc"));
    assert!(str_le("", ""));
    let sorted = sort_strings(vec!["j".to_string(), "down".to_string(), "ctrl-n".to_string(), "down".to_string()]);
    assert_eq!(sorted, vec!["ctrl-n", "down", "down", "j"]);
}

#[test]
fn listing_groups_keys_by_action_in_order() {
    let km = vec![
        ((KeyCode::Char('j'), KeyMods::empty()), Action::ScrollDown(1)),
        ((KeyCode::Char('q'), KeyMods::empty()), Action::ExitApp),
        ((KeyCode::Down, KeyMods::empty()), Action::ScrollDown(1)),
        ((KeyCode::Char('t'), KeyMods::empty()), Action::ToggleToc),
    ];
    let rows = keybinding_rows(&km, &Vec::new());
    assert_eq!(
        rows,
        vec![
            ("exit_app".to_string(), vec!["q".to_string()]),
            ("scroll_down".to_string(), vec!["down".to_string(), "j".to_string()]),
            ("toggle_toc".to_string(), vec!["t".to_string()]),
        ]
    );
    let lines = listing_lines(&rows);
    assert_eq!(lines[0], format!("{:<22} Keys", "Action"));
    assert_eq!(lines[1], format!("{:<22} ----", "------"));
    assert_eq!(lines[3], format!("{:<22} down, j", "scroll_down"));
    assert_eq!(lines.len(), 5);
}

#[test]
fn keybindings_lists_actions() {
    let (map, _, _) = build_keymap(&default_preset(), &Vec::new());
    let lines = listing_lines(&keybinding_rows(&map, &Vec::new()));
    assert!(lines.iter().any(|l| l.starts_with("toggle_toc")));
}

#[test]
fn key_events_go_through_the_keymap() {
    let (map, _, _) = build_keymap(&default_preset(), &Vec::new());
    assert_eq!(key_action(&map, KeyCode::Char('q'), KeyMods::empty()), Action::ExitApp);
    // A capital arrives with shift held; the binding is stored without it.
    assert_eq!(key_action(&map, KeyCode::Char('G'), mods(false, false, true)), Action::End);
    assert_eq!(key_action(&map, KeyCode::F(9), KeyMods::empty()), Action::NoOp);
}

#[test]
fn events_route_by_search_state() {
    let (map, _, _) = build_keymap(&default_preset(), &Vec::new());
    let q = InputEvent::Key(KeyCode::Char('q'), KeyMods::empty());
    assert_eq!(event_action(&map, q, false), Action::ExitApp);
    assert_eq!(event_action(&map, q, true), Action::SearchInput('q'));
    assert_eq!(event_action(&map, InputEvent::Mouse(MouseKind::ScrollDown), false), Action::ScrollDown(3));
    assert_eq!(event_action(&map, InputEvent::Resize(80, 24), true), Action::Resize(80, 24));
    assert_eq!(event_action(&map, InputEvent::Other, false), Action::NoOp);
}

#[test]
fn emacs_preset_binds_the_ctrl_x_ctrl_c_chord() {
    let (map, chords, warnings) = build_keymap(&emacs_preset(), &Vec::new());
    assert!(warnings.is_empty(), "warnings: {warnings:?}");
    let cx = (KeyCode::Char('x'), mods(true, false, false));
    let cc = (KeyCode::Char('c'), mods(true, false, false));
    assert!(chords.contains(&(cx, cc, Action::ExitApp)));
    let (a, pending) = chord_key_action(&map, &chords, None, KeyCode::Char('x'), mods(true, false, false));
    assert_eq!((a, pending), (Action::NoOp, Some(cx)));
    let (a, pending) = chord_key_action(&map, &chords, pending, KeyCode::Char('c'), mods(true, false, false));
    assert_eq!((a, pending), (Action::ExitApp, None));
}

#[test]
fn chord_strings_parse_as_two_keys() {
    let cx = (KeyCode::Char('x'), mods(true, false, false));
    let cc = (KeyCode::Char('c'), mods(true, false, false));
    assert_eq!(parse_keys("ctrl-x ctrl-c"), Ok((cx, Some(cc))));
    assert_eq!(parse_keys("  ctrl-x   ctrl-c "), Ok((cx, Some(cc))));
    assert_eq!(parse_keys("q"), Ok(((KeyCode::Char('q'), KeyMods::empty()), None)));
    assert_eq!(parse_keys("a b c"), Err("a chord takes two keys".to_string()));
    assert!(parse_keys("ctrl-x flarg-c").is_err());
}

#[test]
fn a_missed_chord_redispatches_the_key() {
    let overrides = vec![("toggle_toc".to_string(), vec!["g t".to_string()])];
    let (map, chords, warnings) = build_keymap(&default_preset(), &overrides);
    assert!(warnings.is_empty(), "warnings: {warnings:?}");
    let g = (KeyCode::Char('g'), KeyMods::empty());
    // `g` is bound to nothing on its own, so it waits for the next key.
    assert_eq!(chord_key_action(&map, &chords, None, KeyCode::Char('g'), KeyMods::empty()), (Action::NoOp, Some(g)));
    // A key bound on its own fires even where it also begins a chord.
    let over = vec![("toggle_toc".to_string(), vec!["q t".to_string()])];
    let (m2, c2, _) = build_keymap(&default_preset(), &over);
    assert_eq!(chord_key_action(&m2, &c2, None, KeyCode::Char('q'), KeyMods::empty()), (Action::ExitApp, None));
    // With `g` pending, `t` completes the chord; `q` falls back to its own binding.
    assert_eq!(chord_key_action(&map, &chords, Some(g), KeyCode::Char('t'), KeyMods::empty()), (Action::ToggleToc, None));
    assert_eq!(chord_key_action(&map, &chords, Some(g), KeyCode::Char('q'), KeyMods::empty()), (Action::ExitApp, None));
    // A resize leaves the pending prefix alone.
    assert_eq!(event_step(&map, &chords, Some(g), InputEvent::Resize(10, 10), false), (Action::Resize(10, 10), Some(g)));
}

#[test]
fn chords_are_listed_with_their_action() {
    let (map, chords, _) = build_keymap(&emacs_preset(), &Vec::new());
    let rows = keybinding_rows(&map, &chords);
    let exit = rows.iter().find(|r| r.0 == "exit_app").unwrap();
    assert!(exit.1.contains(&"ctrl-x ctrl-c".to_string()));
}
