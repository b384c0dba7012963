//! The user's configuration file (`~/.config/ink/config.toml`).
use std::collections::HashMap;
use vstd::prelude::*;

verus! {

/// Settings read from the config file; every one optional.
#[derive(Debug)]
pub struct Config {
    pub theme: Option<String>,
    pub width: Option<u16>,
    pub spacing: Option<String>,
    pub toc: Option<bool>,
    pub frontmatter: Option<bool>,
    pub behavior: Option<BehaviorConfig>,
    pub keybindings: Option<KeybindingsConfig>,
}

/// The `[behavior]` table.
#[derive(Debug)]
pub struct BehaviorConfig {
    /// When true, closing a file via q/Esc returns to the browser instead of
    /// exiting.
    pub browser_loop: Option<bool>,
    /// When false, the reader does not grab the mouse, so the terminal's own
    /// click-to-open and text selection keep working.
    pub mouse_capture: Option<bool>,
}

/// The `[keybindings]` table.
#[derive(Debug)]
pub struct KeybindingsConfig {
    /// Built-in preset name: "default" | "vim" | "emacs".
    pub preset: Option<String>,
    /// Per-action overrides applied on top of the preset: action id to key
    /// strings.
    pub bindings: Option<HashMap<String, Vec<String>>>,
}

/// Human-readable form of the config file's path for `ink config path`:
/// the path, or a note that the platform has no config directory.
pub fn config_path_display(path: Option<String>) -> (s: String)
    ensures
        path matches Some(p) ==> s@ == p@,
        path is None ==> s@ == "<no config dir on this platform>"@,
{
    match path {
        Some(p) => p,
        None => {
            let mut s = String::new();
            s.append("<no config dir on this platform>");
            s
        },
    }
}

} // verus!
