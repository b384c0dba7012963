//! Input: the actions a keypress or mouse event can trigger, key parsing,
//! and the built-in keybinding presets.
pub mod bindings;
pub mod listing;
pub mod keymap;
pub mod preset;

use keymap::{same_key, without_shift, KeyBinding, KeyCode, KeyMods};
use vstd::prelude::*;

verus! {

/// What the reader does in response to an input event.
#[derive(Debug, Clone, Copy, PartialEq, Eq, Structural)]
pub enum Action {
    ExitApp,
    CloseDoc,
    OpenBrowser,
    ScrollUp(u16),
    ScrollDown(u16),
    PageUp,
    PageDown,
    Home,
    End,
    ToggleToc,
    Search,
    SearchNext,
    SearchPrev,
    CloseSearch,
    SearchInput(char),
    SearchBackspace,
    SearchConfirm,
    Resize(u16, u16),
    NextHeading,
    PrevHeading,
    NextTab,
    PrevTab,
    FollowLink,
    NavBack,
    NavForward,
    ThemePicker,
    NoOp,
}

/// What a key does while the search prompt is open: Esc or Ctrl-C close it,
/// Enter confirms, Backspace deletes, a character is typed, Down and Up step
/// through matches; anything else does nothing.
pub open spec fn search_key_action_of(code: KeyCode, mods: KeyMods) -> Action {
    if mods.control && code == KeyCode::Char('c') {
        Action::CloseSearch
    } else {
        match code {
            KeyCode::Esc => Action::CloseSearch,
            KeyCode::Enter => Action::SearchConfirm,
            KeyCode::Backspace => Action::SearchBackspace,
            KeyCode::Char(c) => Action::SearchInput(c),
            KeyCode::Down => Action::SearchNext,
            KeyCode::Up => Action::SearchPrev,
            _ => Action::NoOp,
        }
    }
}

/// The action of a key pressed while the search prompt is open.
pub fn search_key_action(code: KeyCode, mods: KeyMods) -> (a: Action)
    ensures
        a == search_key_action_of(code, mods),
{
    if mods.control && code == KeyCode::Char('c') {
        return Action::CloseSearch;
    }
    match code {
        KeyCode::Esc => Action::CloseSearch,
        KeyCode::Enter => Action::SearchConfirm,
        KeyCode::Backspace => Action::SearchBackspace,
        KeyCode::Char(c) => Action::SearchInput(c),
        KeyCode::Down => Action::SearchNext,
        KeyCode::Up => Action::SearchPrev,
        _ => Action::NoOp,
    }
}

/// The mouse events the reader distinguishes.
#[derive(Debug, Clone, Copy, PartialEq, Eq, Structural)]
pub enum MouseKind {
    ScrollUp,
    ScrollDown,
    Other,
}

/// The action of a mouse event: the wheel scrolls three lines.
pub fn mouse_action(kind: MouseKind) -> (a: Action)
    ensures
        kind == MouseKind::ScrollUp ==> a == Action::ScrollUp(3),
        kind == MouseKind::ScrollDown ==> a == Action::ScrollDown(3),
        kind == MouseKind::Other ==> a == Action::NoOp,
{
    match kind {
        MouseKind::ScrollUp => Action::ScrollUp(3),
        MouseKind::ScrollDown => Action::ScrollDown(3),
        MouseKind::Other => Action::NoOp,
    }
}

/// An input event, as the reader distinguishes events.
#[derive(Debug, Clone, Copy, PartialEq, Eq, Structural)]
pub enum InputEvent {
    Key(KeyCode, KeyMods),
    Mouse(MouseKind),
    Resize(u16, u16),
    Other,
}

/// The keypress a key event is looked up as: a capital letter drops the
/// shift the terminal reports with it, so `shift-g` (parsed as `G`) matches
/// a real Shift-G press.
pub open spec fn pressed(code: KeyCode, mods: KeyMods) -> KeyBinding {
    match code {
        KeyCode::Char(c) => if 'A' <= c && c <= 'Z' {
            (code, without_shift(mods))
        } else {
            (code, mods)
        },
        _ => (code, mods),
    }
}

/// The action the first entry of `km` for `kb` binds, or no action.
pub open spec fn bound_action(km: Seq<(KeyBinding, Action)>, kb: KeyBinding) -> Action
    decreases km.len(),
{
    if km.len() == 0 {
        Action::NoOp
    } else if km[0].0 == kb {
        km[0].1
    } else {
        bound_action(km.drop_first(), kb)
    }
}

/// The action of a key pressed outside the search prompt: the keymap's
/// action for the keypress, or no action.
pub fn key_action(km: &Vec<(KeyBinding, Action)>, code: KeyCode, mods: KeyMods) -> (a: Action)
    ensures
        a == bound_action(km@, pressed(code, mods)),
{
    let kb: KeyBinding = match code {
        KeyCode::Char(c) => if 'A' <= c && c <= 'Z' {
            (code, KeyMods { control: mods.control, alt: mods.alt, shift: false })
        } else {
            (code, mods)
        },
        _ => (code, mods),
    };
    let mut i: usize = 0;
    assert(km@.skip(0) =~= km@);
    while i < km.len()
        invariant
            i <= km@.len(),
            kb == pressed(code, mods),
            bound_action(km@, kb) == bound_action(km@.skip(i as int), kb),
        decreases km@.len() - i,
    {
        let entry = km[i];
        if entry.0.0 == kb.0 && entry.0.1 == kb.1 {
            return entry.1;
        }
        assert(km@.skip(i as int).drop_first() =~= km@.skip(i + 1));
        i = i + 1;
    }
    Action::NoOp
}

/// The action of an input event: keys go to the search prompt while it is
/// open and to the keymap otherwise, the wheel scrolls, a resize reports
/// the new size, anything else does nothing.
pub open spec fn event_action_of(km: Seq<(KeyBinding, Action)>, ev: InputEvent, search_active: bool) -> Action {
    match ev {
        InputEvent::Key(code, mods) => if search_active {
            search_key_action_of(code, mods)
        } else {
            bound_action(km, pressed(code, mods))
        },
        InputEvent::Mouse(kind) => match kind {
            MouseKind::ScrollUp => Action::ScrollUp(3),
            MouseKind::ScrollDown => Action::ScrollDown(3),
            MouseKind::Other => Action::NoOp,
        },
        InputEvent::Resize(w, h) => Action::Resize(w, h),
        InputEvent::Other => Action::NoOp,
    }
}

/// The action of an input event.
pub fn event_action(km: &Vec<(KeyBinding, Action)>, ev: InputEvent, search_active: bool) -> (a: Action)
    ensures
        a == event_action_of(km@, ev, search_active),
{
    match ev {
        InputEvent::Key(code, mods) => if search_active {
            search_key_action(code, mods)
        } else {
            key_action(km, code, mods)
        },
        InputEvent::Mouse(kind) => mouse_action(kind),
        InputEvent::Resize(w, h) => Action::Resize(w, h),
        InputEvent::Other => Action::NoOp,
    }
}

/// The action of the first single key of `km` that is `kb`, if any.
pub open spec fn single_of(km: Seq<(KeyBinding, Action)>, kb: KeyBinding) -> Option<Action>
    decreases km.len(),
{
    if km.len() == 0 {
        None
    } else if km[0].0 == kb {
        Some(km[0].1)
    } else {
        single_of(km.drop_first(), kb)
    }
}

/// The action of the first chord of `chords` that is `p` then `kb`, if any.
pub open spec fn chord_bound(chords: Seq<(KeyBinding, KeyBinding, Action)>, p: KeyBinding, kb: KeyBinding) -> Option<
    Action,
>
    decreases chords.len(),
{
    if chords.len() == 0 {
        None
    } else if chords[0].0 == p && chords[0].1 == kb {
        Some(chords[0].2)
    } else {
        chord_bound(chords.drop_first(), p, kb)
    }
}

/// Whether some chord of `chords` begins with `kb`.
pub open spec fn starts_chord(chords: Seq<(KeyBinding, KeyBinding, Action)>, kb: KeyBinding) -> bool {
    exists|i: int| 0 <= i < chords.len() && #[trigger] chords[i].0 == kb
}

/// A keypress `kb` outside the search prompt, with the chord prefix
/// `pending` pressed before it: the action, and the prefix left pending.
/// A pending prefix completed by `kb` fires the chord; otherwise the prefix
/// is dropped and `kb` counts as a fresh press: a single key binding wins,
/// else a key that begins a chord waits for the next key, else nothing.
pub open spec fn chord_key_of(
    km: Seq<(KeyBinding, Action)>,
    chords: Seq<(KeyBinding, KeyBinding, Action)>,
    pending: Option<KeyBinding>,
    kb: KeyBinding,
) -> (Action, Option<KeyBinding>) {
    let completed = match pending {
        Some(p) => chord_bound(chords, p, kb),
        None => None,
    };
    match completed {
        Some(a) => (a, None),
        None => match single_of(km, kb) {
            Some(a) => (a, None),
            None => if starts_chord(chords, kb) {
                (Action::NoOp, Some(kb))
            } else {
                (Action::NoOp, None)
            },
        },
    }
}

/// An input event with the chord prefix `pending`: the action, and the
/// prefix left pending. Keys outside the search prompt go through the
/// chords and single keys; other events leave the prefix as it was.
pub open spec fn event_step_of(
    km: Seq<(KeyBinding, Action)>,
    chords: Seq<(KeyBinding, KeyBinding, Action)>,
    pending: Option<KeyBinding>,
    ev: InputEvent,
    search_active: bool,
) -> (Action, Option<KeyBinding>) {
    match ev {
        InputEvent::Key(code, mods) => if search_active {
            (search_key_action_of(code, mods), pending)
        } else {
            chord_key_of(km, chords, pending, pressed(code, mods))
        },
        _ => (event_action_of(km, ev, search_active), pending),
    }
}

/// The key after a chord's prefix fires the chord's action and clears the
/// prefix.
pub proof fn law_chord_completes(
    km: Seq<(KeyBinding, Action)>,
    chords: Seq<(KeyBinding, KeyBinding, Action)>,
    p: KeyBinding,
    kb: KeyBinding,
    a: Action,
)
    requires
        chord_bound(chords, p, kb) == Some(a),
    ensures
        chord_key_of(km, chords, Some(p), kb) == (a, None::<KeyBinding>),
{
}

/// With nothing pending, a key that is no single binding but begins a
/// chord does nothing yet and becomes the pending prefix; a key bound on
/// its own fires its action.
pub proof fn law_prefix_waits(
    km: Seq<(KeyBinding, Action)>,
    chords: Seq<(KeyBinding, KeyBinding, Action)>,
    kb: KeyBinding,
)
    ensures
        single_of(km, kb) is None && starts_chord(chords, kb) ==> chord_key_of(km, chords, None, kb) == (
            Action::NoOp,
            Some(kb),
        ),
        single_of(km, kb) matches Some(a) ==> chord_key_of(km, chords, None, kb) == (a, None::<KeyBinding>),
{
}

/// The first single key binding of `km` for `kb`.
fn find_single(km: &Vec<(KeyBinding, Action)>, kb: KeyBinding) -> (r: Option<Action>)
    ensures
        r == single_of(km@, kb),
{
    let mut i: usize = 0;
    assert(km@.skip(0) =~= km@);
    while i < km.len()
        invariant
            i <= km@.len(),
            single_of(km@, kb) == single_of(km@.skip(i as int), kb),
        decreases km@.len() - i,
    {
        let entry = km[i];
        if same_key(entry.0, kb) {
            return Some(entry.1);
        }
        assert(km@.skip(i as int).drop_first() =~= km@.skip(i + 1));
        i = i + 1;
    }
    None
}

/// The first chord of `chords` that is `p` then `kb`.
fn find_chord(chords: &Vec<(KeyBinding, KeyBinding, Action)>, p: KeyBinding, kb: KeyBinding) -> (r: Option<Action>)
    ensures
        r == chord_bound(chords@, p, kb),
{
    let mut i: usize = 0;
    assert(chords@.skip(0) =~= chords@);
    while i < chords.len()
        invariant
            i <= chords@.len(),
            chord_bound(chords@, p, kb) == chord_bound(chords@.skip(i as int), p, kb),
        decreases chords@.len() - i,
    {
        let c = chords[i];
        if same_key(c.0, p) && same_key(c.1, kb) {
            return Some(c.2);
        }
        assert(chords@.skip(i as int).drop_first() =~= chords@.skip(i + 1));
        i = i + 1;
    }
    None
}

/// Whether a chord begins with `kb`.
fn begins_chord(chords: &Vec<(KeyBinding, KeyBinding, Action)>, kb: KeyBinding) -> (b: bool)
    ensures
        b == starts_chord(chords@, kb),
{
    let mut i: usize = 0;
    while i < chords.len()
        invariant
            i <= chords@.len(),
            forall|j: int| 0 <= j < i ==> chords@[j].0 != kb,
        decreases chords@.len() - i,
    {
        if same_key(chords[i].0, kb) {
            return true;
        }
        i = i + 1;
    }
    false
}

/// A key pressed outside the search prompt, with the chord prefix
/// `pending`: the action and the prefix left pending (`chord_key_of`).
pub fn chord_key_action(
    km: &Vec<(KeyBinding, Action)>,
    chords: &Vec<(KeyBinding, KeyBinding, Action)>,
    pending: Option<KeyBinding>,
    code: KeyCode,
    mods: KeyMods,
) -> (r: (Action, Option<KeyBinding>))
    ensures
        r == chord_key_of(km@, chords@, pending, pressed(code, mods)),
{
    let kb: KeyBinding = match code {
        KeyCode::Char(c) => if 'A' <= c && c <= 'Z' {
            (code, KeyMods { control: mods.control, alt: mods.alt, shift: false })
        } else {
            (code, mods)
        },
        _ => (code, mods),
    };
    if let Some(p) = pending {
        if let Some(a) = find_chord(chords, p, kb) {
            return (a, None);
        }
    }
    match find_single(km, kb) {
        Some(a) => (a, None),
        None => if begins_chord(chords, kb) {
            (Action::NoOp, Some(kb))
        } else {
            (Action::NoOp, None)
        },
    }
}

/// An input event with the chord prefix `pending`: the action and the
/// prefix left pending (`event_step_of`).
pub fn event_step(
    km: &Vec<(KeyBinding, Action)>,
    chords: &Vec<(KeyBinding, KeyBinding, Action)>,
    pending: Option<KeyBinding>,
    ev: InputEvent,
    search_active: bool,
) -> (r: (Action, Option<KeyBinding>))
    ensures
        r == event_step_of(km@, chords@, pending, ev, search_active),
{
    match ev {
        InputEvent::Key(code, mods) => if search_active {
            (search_key_action(code, mods), pending)
        } else {
            chord_key_action(km, chords, pending, code, mods)
        },
        _ => (event_action(km, ev, search_active), pending),
    }
}

} // verus!
