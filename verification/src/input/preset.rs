//! Built-in keybinding presets. Each preset lists, per action id, the key
//! strings bound to it.
//!
//! Preset selection happens in config: `[keybindings] preset = "emacs"`.
//! User overrides under `[keybindings.bindings]` replace the preset's keys for
//! that action.
use crate::text::{chars_of, lowercase, seq_eq, unicode_lower};
use vstd::prelude::*;

verus! {

/// A preset: action ids with the key strings bound to each.
pub type Preset = Vec<(&'static str, Vec<&'static str>)>;

/// A preset as text.
pub open spec fn preset_view(p: Seq<(&'static str, Vec<&'static str>)>) -> Seq<(Seq<char>, Seq<Seq<char>>)> {
    p.map_values(|e: (&'static str, Vec<&'static str>)| (e.0@, e.1@.map_values(|k: &'static str| k@)))
}

/// The default bindings (vim-flavored): what ships if no config exists.
pub open spec fn default_table() -> Seq<(Seq<char>, Seq<Seq<char>>)> {
    seq![
        ("exit_app"@, seq!["q"@, "esc"@, "ctrl-c"@]),
        ("open_browser"@, seq!["shift-b"@]),
        ("scroll_down"@, seq!["down"@, "j"@]),
        ("scroll_up"@, seq!["up"@, "k"@]),
        ("scroll_down_fast"@, seq!["alt-down"@]),
        ("scroll_up_fast"@, seq!["alt-up"@]),
        ("page_down"@, seq!["space"@, "pagedown"@, "ctrl-d"@, "ctrl-f"@]),
        ("page_up"@, seq!["pageup"@, "ctrl-u"@, "ctrl-b"@]),
        ("home"@, seq!["home"@]),
        ("end"@, seq!["end"@, "shift-g"@]),
        ("toggle_toc"@, seq!["t"@]),
        ("search"@, seq!["/"@]),
        ("next_heading"@, seq!["n"@]),
        ("prev_heading"@, seq!["shift-n"@]),
        ("theme_picker"@, seq!["shift-t"@]),
        ("next_tab"@, seq!["tab"@]),
        ("prev_tab"@, seq!["backtab"@]),
        ("follow_link"@, seq!["enter"@]),
        ("link_mode"@, seq!["f"@]),
        ("help"@, seq!["?"@]),
        ("nav_back"@, seq!["["@, "alt-left"@]),
        ("select_mode"@, seq!["v"@]),
        ("select_line_mode"@, seq!["shift-v"@]),
        ("copy_code"@, seq!["c"@]),
        ("copy_section"@, seq!["shift-y"@]),
    ]
}

/// The emacs bindings: C-n/p for line moves, C-v/M-v for pages, C-a/C-e for
/// home/end, C-s to search, C-f for the next heading, and the `ctrl-x
/// ctrl-c` chord to exit (alongside q/Esc).
pub open spec fn emacs_table() -> Seq<(Seq<char>, Seq<Seq<char>>)> {
    seq![
        ("exit_app"@, seq!["q"@, "esc"@, "ctrl-c"@, "ctrl-x ctrl-c"@]),
        ("open_browser"@, seq!["shift-b"@]),
        ("scroll_down"@, seq!["ctrl-n"@, "down"@, "j"@]),
        ("scroll_up"@, seq!["ctrl-p"@, "up"@, "k"@]),
        ("scroll_down_fast"@, seq!["alt-down"@]),
        ("scroll_up_fast"@, seq!["alt-up"@]),
        ("page_down"@, seq!["ctrl-v"@, "space"@, "pagedown"@]),
        ("page_up"@, seq!["alt-v"@, "pageup"@, "ctrl-u"@]),
        ("home"@, seq!["ctrl-a"@, "home"@]),
        ("end"@, seq!["ctrl-e"@, "end"@, "shift-g"@]),
        ("toggle_toc"@, seq!["t"@]),
        ("search"@, seq!["ctrl-s"@, "/"@]),
        ("next_heading"@, seq!["ctrl-f"@, "n"@]),
        ("prev_heading"@, seq!["shift-n"@]),
        ("theme_picker"@, seq!["shift-t"@]),
        ("next_tab"@, seq!["tab"@]),
        ("prev_tab"@, seq!["backtab"@]),
        ("follow_link"@, seq!["enter"@]),
        ("link_mode"@, seq!["f"@]),
        ("help"@, seq!["?"@]),
        ("nav_back"@, seq!["["@, "alt-left"@]),
        ("select_mode"@, seq!["v"@]),
        ("select_line_mode"@, seq!["shift-v"@]),
        ("copy_code"@, seq!["c"@]),
        ("copy_section"@, seq!["shift-y"@]),
    ]
}

/// The default bindings (vim-flavored).
pub fn default_preset() -> (p: Preset)
    ensures
        preset_view(p@) == default_table(),
{
    let p = vec![
        ("exit_app", vec!["q", "esc", "ctrl-c"]),
        ("open_browser", vec!["shift-b"]),
        ("scroll_down", vec!["down", "j"]),
        ("scroll_up", vec!["up", "k"]),
        ("scroll_down_fast", vec!["alt-down"]),
        ("scroll_up_fast", vec!["alt-up"]),
        ("page_down", vec!["space", "pagedown", "ctrl-d", "ctrl-f"]),
        ("page_up", vec!["pageup", "ctrl-u", "ctrl-b"]),
        ("home", vec!["home"]),
        ("end", vec!["end", "shift-g"]),
        ("toggle_toc", vec!["t"]),
        ("search", vec!["/"]),
        ("next_heading", vec!["n"]),
        ("prev_heading", vec!["shift-n"]),
        ("theme_picker", vec!["shift-t"]),
        ("next_tab", vec!["tab"]),
        ("prev_tab", vec!["backtab"]),
        ("follow_link", vec!["enter"]),
        ("link_mode", vec!["f"]),
        ("help", vec!["?"]),
        ("nav_back", vec!["[", "alt-left"]),
        ("select_mode", vec!["v"]),
        ("select_line_mode", vec!["shift-v"]),
        ("copy_code", vec!["c"]),
        ("copy_section", vec!["shift-y"]),
    ];
    assert(preset_view(p@) =~~= default_table());
    p
}

/// The vim preset is an alias for the default.
pub fn vim_preset() -> (p: Preset)
    ensures
        preset_view(p@) == default_table(),
{
    default_preset()
}

/// The emacs bindings.
pub fn emacs_preset() -> (p: Preset)
    ensures
        preset_view(p@) == emacs_table(),
{
    let p = vec![
        ("exit_app", vec!["q", "esc", "ctrl-c", "ctrl-x ctrl-c"]),
        ("open_browser", vec!["shift-b"]),
        ("scroll_down", vec!["ctrl-n", "down", "j"]),
        ("scroll_up", vec!["ctrl-p", "up", "k"]),
        ("scroll_down_fast", vec!["alt-down"]),
        ("scroll_up_fast", vec!["alt-up"]),
        ("page_down", vec!["ctrl-v", "space", "pagedown"]),
        ("page_up", vec!["alt-v", "pageup", "ctrl-u"]),
        ("home", vec!["ctrl-a", "home"]),
        ("end", vec!["ctrl-e", "end", "shift-g"]),
        ("toggle_toc", vec!["t"]),
        ("search", vec!["ctrl-s", "/"]),
        ("next_heading", vec!["ctrl-f", "n"]),
        ("prev_heading", vec!["shift-n"]),
        ("theme_picker", vec!["shift-t"]),
        ("next_tab", vec!["tab"]),
        ("prev_tab", vec!["backtab"]),
        ("follow_link", vec!["enter"]),
        ("link_mode", vec!["f"]),
        ("help", vec!["?"]),
        ("nav_back", vec!["[", "alt-left"]),
        ("select_mode", vec!["v"]),
        ("select_line_mode", vec!["shift-v"]),
        ("copy_code", vec!["c"]),
        ("copy_section", vec!["shift-y"]),
    ];
    assert(preset_view(p@) =~~= emacs_table());
    p
}

/// The table a preset name selects (any case): `default` and `vim` the
/// default bindings, `emacs` the emacs ones; no other name is known.
pub open spec fn preset_named(name: Seq<char>) -> Option<Seq<(Seq<char>, Seq<Seq<char>>)>> {
    let l = unicode_lower(name);
    if l == "default"@ || l == "vim"@ {
        Some(default_table())
    } else if l == "emacs"@ {
        Some(emacs_table())
    } else {
        None
    }
}

/// The preset named `name` (any case), if there is one.
pub fn lookup(name: &str) -> (p: Option<Preset>)
    ensures
        match p {
            Some(t) => preset_named(name@) == Some(preset_view(t@)),
            None => preset_named(name@) is None,
        },
{
    let l = lowercase(name);
    let lv = chars_of(l.as_str());
    if seq_eq(&lv, &chars_of("default")) {
        Some(default_preset())
    } else if seq_eq(&lv, &chars_of("vim")) {
        Some(vim_preset())
    } else if seq_eq(&lv, &chars_of("emacs")) {
        Some(emacs_preset())
    } else {
        None
    }
}

} // verus!
