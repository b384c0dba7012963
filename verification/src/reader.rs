//! The reader's decisions: what an action does to the reader's state, and
//! what the terminal front end must do about it (quit, lay the documents out
//! again, open a file, preview or save a theme).
use crate::input::keymap::KeyBinding;
use crate::input::{event_step, event_step_of, Action, InputEvent};
use crate::layout::StyledLine;
use crate::navigate::{
    follow_link_target, follow_window_end, md_link_from, next_heading_from, next_heading_scroll, picker_step,
    picker_step_of, prev_heading_from, prev_heading_scroll, scroll_for, scrolled, switch_tab, tab_after, PickerStep,
};
use crate::parser::frontmatter::{frontmatter_split, strip_frontmatter};
use crate::search::{matching_lines, SearchState};
use crate::wikilink::{convert_from, process_wikilinks};
use vstd::prelude::*;

verus! {

/// What the reader holds between events: the scroll offset of the active
/// document, which document is active and how many are open, whether the
/// table of contents shows, the theme picker's highlight when it is open,
/// and the search.
pub struct Reader {
    pub scroll: usize,
    pub active: usize,
    pub tabs: usize,
    pub toc_visible: bool,
    pub picker: Option<usize>,
    pub search: SearchState,
}

/// What the front end must do after a step.
#[derive(Debug, Clone, PartialEq, Eq)]
pub enum Effect {
    /// Leave the reader.
    Quit,
    /// Show the documents in the theme of that index.
    PreviewTheme(usize),
    /// Keep the theme of that index, and save it as the configured theme.
    SaveTheme(usize),
    /// Lay every document out again (the table of contents came or went).
    Relayout,
    /// The terminal is that many columns wide now: lay everything out again.
    Resized(u16),
    /// Another document is active: match the query against it.
    SearchNewTab,
    /// Open the Markdown file this link names, remembering the place left.
    OpenLink(String),
    /// Go back to the place before the last link followed.
    Back,
    /// Go forward again.
    Forward,
}

/// An effect as plain values.
pub enum EffectView {
    Quit,
    PreviewTheme(usize),
    SaveTheme(usize),
    Relayout,
    Resized(u16),
    SearchNewTab,
    OpenLink(Seq<char>),
    Back,
    Forward,
}

pub open spec fn effect_view(e: Effect) -> EffectView {
    match e {
        Effect::Quit => EffectView::Quit,
        Effect::PreviewTheme(i) => EffectView::PreviewTheme(i),
        Effect::SaveTheme(i) => EffectView::SaveTheme(i),
        Effect::Relayout => EffectView::Relayout,
        Effect::Resized(w) => EffectView::Resized(w),
        Effect::SearchNewTab => EffectView::SearchNewTab,
        Effect::OpenLink(u) => EffectView::OpenLink(u@),
        Effect::Back => EffectView::Back,
        Effect::Forward => EffectView::Forward,
    }
}

pub open spec fn effects_view(es: Seq<Effect>) -> Seq<EffectView> {
    es.map_values(|e: Effect| effect_view(e))
}

/// The reader's state as plain values.
pub struct ReaderView {
    pub scroll: usize,
    pub active: usize,
    pub tabs: usize,
    pub toc_visible: bool,
    pub picker: Option<usize>,
    pub searching: bool,
    pub query: Seq<char>,
    pub matches: Seq<usize>,
    pub current: usize,
}

impl Reader {
    pub open spec fn view(&self) -> ReaderView {
        ReaderView {
            scroll: self.scroll,
            active: self.active,
            tabs: self.tabs,
            toc_visible: self.toc_visible,
            picker: self.picker,
            searching: self.search.active,
            query: self.search.query@,
            matches: self.search.matches@,
            current: self.search.current,
        }
    }

    /// The active document is one of those open, and the search's current
    /// match is one of its matches.
    pub open spec fn well_formed(&self) -> bool {
        &&& self.active < self.tabs
        &&& self.search.well_formed()
    }
}

/// `r` with the search closed and cleared.
pub open spec fn search_closed(r: ReaderView) -> ReaderView {
    ReaderView { searching: false, query: seq![], matches: seq![], current: 0, ..r }
}

/// `r` scrolled to its current match (no further than `max`), if there is one.
pub open spec fn at_match(r: ReaderView, max: usize) -> ReaderView {
    if r.current < r.matches.len() {
        ReaderView {
            scroll: if r.matches[r.current as int] < max {
                r.matches[r.current as int]
            } else {
                max
            },
            ..r
        }
    } else {
        r
    }
}

/// `r` with the query `q` matched against `lines`, at its first match.
pub open spec fn queried(r: ReaderView, q: Seq<char>, lines: Seq<StyledLine>, max: usize) -> ReaderView {
    at_match(ReaderView { query: q, matches: matching_lines(lines, q), current: 0, ..r }, max)
}

/// `r` at the next (`forward`) or previous match, wrapping around.
pub open spec fn stepped(r: ReaderView, forward: bool, max: usize) -> ReaderView {
    if r.matches.len() > 0 {
        at_match(ReaderView { current: tab_after(r.current as int, r.matches.len() as int, forward) as usize, ..r }, max)
    } else {
        r
    }
}

/// One step of the reader on `action`, with the active document's
/// `lines`, the lines its headings land on, its last scroll offset `max`,
/// the viewport's `height`, `themes` themes to pick from and the current
/// one at `theme_at`: the state after the step and what the front end must
/// do.
///
/// With the theme picker open the action only moves or closes it. Quitting
/// while search matches are highlighted clears them instead. Otherwise the
/// action scrolls, searches, jumps between headings (or between matches
/// while there are any), switches documents, toggles the table of contents,
/// opens the picker, follows the first Markdown link in view, goes back or
/// forward, or reports a resize.
pub open spec fn reader_step_of(
    r: ReaderView,
    action: Action,
    lines: Seq<StyledLine>,
    heads: Seq<usize>,
    max: usize,
    height: u16,
    themes: usize,
    theme_at: usize,
) -> (ReaderView, Seq<EffectView>) {
    if r.picker is Some {
        match picker_step_of(action, r.picker->0 as int, themes as int) {
            PickerStep::Preview(j) => (ReaderView { picker: Some(j), ..r }, seq![EffectView::PreviewTheme(j)]),
            PickerStep::Close(j) => (ReaderView { picker: None, ..r }, seq![EffectView::SaveTheme(j)]),
            PickerStep::Stay => (r, seq![]),
        }
    } else if action == Action::ExitApp && r.matches.len() > 0 {
        (search_closed(r), seq![])
    } else {
        match action {
            Action::ExitApp | Action::OpenBrowser | Action::CloseDoc => (r, seq![EffectView::Quit]),
            Action::Search => (ReaderView { searching: true, ..search_closed(r) }, seq![]),
            Action::CloseSearch => (search_closed(r), seq![]),
            Action::SearchConfirm => (ReaderView { searching: false, ..r }, seq![]),
            Action::SearchInput(c) => (queried(r, r.query.push(c), lines, max), seq![]),
            Action::SearchBackspace => (
                queried(
                    r,
                    if r.query.len() > 0 {
                        r.query.drop_last()
                    } else {
                        r.query
                    },
                    lines,
                    max,
                ),
                seq![],
            ),
            Action::SearchNext => (stepped(r, true, max), seq![]),
            Action::SearchPrev => (stepped(r, false, max), seq![]),
            Action::ScrollDown(_) | Action::ScrollUp(_) | Action::PageDown | Action::PageUp | Action::Home
            | Action::End => (
                ReaderView { scroll: scrolled(action, r.scroll as int, max as int, height as int) as usize, ..r },
                seq![],
            ),
            Action::ToggleToc => (ReaderView { toc_visible: !r.toc_visible, ..r }, seq![EffectView::Relayout]),
            Action::ThemePicker => if themes > 0 {
                (ReaderView { picker: Some(theme_at), ..r }, seq![])
            } else {
                (r, seq![])
            },
            Action::NextHeading | Action::PrevHeading => {
                let forward = action == Action::NextHeading;
                if r.matches.len() > 0 {
                    (stepped(r, forward, max), seq![])
                } else {
                    let target = if forward {
                        next_heading_from(heads, r.scroll as int, max as int, 0)
                    } else {
                        prev_heading_from(heads, r.scroll as int, max as int, heads.len() as int)
                    };
                    match target {
                        Some(s) => (ReaderView { scroll: s as usize, ..r }, seq![]),
                        None => (r, seq![]),
                    }
                }
            },
            Action::NextTab | Action::PrevTab => if r.tabs > 1 {
                (
                    ReaderView {
                        active: tab_after(r.active as int, r.tabs as int, action == Action::NextTab) as usize,
                        ..r
                    },
                    seq![EffectView::SearchNewTab],
                )
            } else {
                (r, seq![])
            },
            Action::FollowLink => match md_link_from(
                lines,
                r.scroll as int,
                follow_window_end(r.scroll as int, lines.len() as int),
            ) {
                Some(u) => (r, seq![EffectView::OpenLink(u)]),
                None => (r, seq![]),
            },
            Action::NavBack => (r, seq![EffectView::Back]),
            Action::NavForward => (r, seq![EffectView::Forward]),
            Action::Resize(w, _) => (r, seq![EffectView::Resized(w)]),
            _ => (r, seq![]),
        }
    }
}

/// Scroll to the search's current match, no further than `max`.
fn jump_to_match(r: &mut Reader, max: usize)
    ensures
        final(r).view() == at_match(old(r).view(), max),
        final(r).search == old(r).search,
        final(r).active == old(r).active,
        final(r).tabs == old(r).tabs,
{
    if let Some(line) = r.search.current_line() {
        r.scroll = if line < max {
            line
        } else {
            max
        };
    }
}

/// One step of the reader (`reader_step_of`): the state changes in place,
/// and the effects for the front end come back in order.
pub fn reader_step(
    r: &mut Reader,
    action: Action,
    lines: &Vec<StyledLine>,
    heads: &Vec<usize>,
    max: usize,
    height: u16,
    themes: usize,
    theme_at: usize,
) -> (effects: Vec<Effect>)
    requires
        old(r).well_formed(),
        old(r).picker matches Some(i) ==> i < themes,
        themes > 0 ==> theme_at < themes,
    ensures
        final(r).well_formed(),
        final(r).picker matches Some(i) ==> i < themes,
        (final(r).view(), effects_view(effects@)) == reader_step_of(
            old(r).view(),
            action,
            lines@,
            heads@,
            max,
            height,
            themes,
            theme_at,
        ),
{
    let ghost r0 = r.view();
    if let Some(i) = r.picker {
        return match picker_step(action, i, themes) {
            PickerStep::Preview(j) => {
                r.picker = Some(j);
                let e = vec![Effect::PreviewTheme(j)];
                assert(effects_view(e@) =~= seq![EffectView::PreviewTheme(j)]);
                e
            },
            PickerStep::Close(j) => {
                r.picker = None;
                let e = vec![Effect::SaveTheme(j)];
                assert(effects_view(e@) =~= seq![EffectView::SaveTheme(j)]);
                e
            },
            PickerStep::Stay => {
                let e: Vec<Effect> = Vec::new();
                assert(effects_view(e@) =~= Seq::<EffectView>::empty());
                e
            },
        };
    }
    let none: Vec<Effect> = Vec::new();
    assert(effects_view(none@) =~= Seq::<EffectView>::empty());
    let is_exit = match action {
        Action::ExitApp => true,
        _ => false,
    };
    if is_exit && r.search.matches.len() > 0 {
        r.search.deactivate();
        assert(r.search.query@ =~= Seq::<char>::empty() && r.search.matches@ =~= Seq::<usize>::empty());
        assert(r.view() =~= search_closed(r0));
        return none;
    }
    match action {
        Action::ExitApp | Action::OpenBrowser | Action::CloseDoc => {
            let e = vec![Effect::Quit];
            assert(effects_view(e@) =~= seq![EffectView::Quit]);
            e
        },
        Action::Search => {
            r.search.activate();
            assert(r.search.query@ =~= Seq::<char>::empty() && r.search.matches@ =~= Seq::<usize>::empty());
            assert(r.view() =~= ReaderView { searching: true, ..search_closed(r0) });
            none
        },
        Action::CloseSearch => {
            r.search.deactivate();
            assert(r.search.query@ =~= Seq::<char>::empty() && r.search.matches@ =~= Seq::<usize>::empty());
            assert(r.view() =~= search_closed(r0));
            none
        },
        Action::SearchConfirm => {
            r.search.confirm();
            assert(r.view() =~= ReaderView { searching: false, ..r0 });
            none
        },
        Action::SearchInput(c) => {
            r.search.type_char(c, lines);
            jump_to_match(r, max);
            assert(r.view() =~= queried(r0, r0.query.push(c), lines@, max));
            none
        },
        Action::SearchBackspace => {
            r.search.backspace(lines);
            jump_to_match(r, max);
            assert(r.view() =~= queried(
                r0,
                if r0.query.len() > 0 {
                    r0.query.drop_last()
                } else {
                    r0.query
                },
                lines@,
                max,
            ));
            none
        },
        Action::SearchNext | Action::SearchPrev => {
            let forward = match action {
                Action::SearchNext => true,
                _ => false,
            };
            r.search.step(forward);
            jump_to_match(r, max);
            assert(r.view() =~= stepped(r0, forward, max));
            none
        },
        Action::ScrollDown(_) | Action::ScrollUp(_) | Action::PageDown | Action::PageUp | Action::Home | Action::End => {
            r.scroll = scroll_for(action, r.scroll, max, height);
            none
        },
        Action::ToggleToc => {
            r.toc_visible = !r.toc_visible;
            let e = vec![Effect::Relayout];
            assert(effects_view(e@) =~= seq![EffectView::Relayout]);
            e
        },
        Action::ThemePicker => {
            if themes > 0 {
                r.picker = Some(theme_at);
            }
            none
        },
        Action::NextHeading | Action::PrevHeading => {
            let forward = match action {
                Action::NextHeading => true,
                _ => false,
            };
            if r.search.matches.len() > 0 {
                r.search.step(forward);
                jump_to_match(r, max);
                assert(r.view() =~= stepped(r0, forward, max));
            } else {
                let target = if forward {
                    next_heading_scroll(heads, r.scroll, max)
                } else {
                    prev_heading_scroll(heads, r.scroll, max)
                };
                if let Some(s) = target {
                    r.scroll = s;
                }
            }
            none
        },
        Action::NextTab | Action::PrevTab => {
            if r.tabs > 1 {
                let forward = match action {
                    Action::NextTab => true,
                    _ => false,
                };
                r.active = switch_tab(r.active, r.tabs, forward);
                let e = vec![Effect::SearchNewTab];
                assert(effects_view(e@) =~= seq![EffectView::SearchNewTab]);
                e
            } else {
                none
            }
        },
        Action::FollowLink => {
            match follow_link_target(lines, r.scroll) {
                Some(u) => {
                    let ghost uv = u@;
                    let e = vec![Effect::OpenLink(u)];
                    assert(effects_view(e@) =~= seq![EffectView::OpenLink(uv)]);
                    e
                },
                None => none,
            }
        },
        Action::NavBack => {
            let e = vec![Effect::Back];
            assert(effects_view(e@) =~= seq![EffectView::Back]);
            e
        },
        Action::NavForward => {
            let e = vec![Effect::Forward];
            assert(effects_view(e@) =~= seq![EffectView::Forward]);
            e
        },
        Action::Resize(w, _) => {
            let e = vec![Effect::Resized(w)];
            assert(effects_view(e@) =~= seq![EffectView::Resized(w)]);
            e
        },
        _ => none,
    }
}

/// One input event for the reader: the event through the keymap and its
/// chords (with the chord prefix `pending`), then, unless it came to no
/// action, the reader's step on that action. Returns the prefix left
/// pending with the state and the effects.
pub open spec fn reader_event_of(
    r: ReaderView,
    km: Seq<(KeyBinding, Action)>,
    chords: Seq<(KeyBinding, KeyBinding, Action)>,
    pending: Option<KeyBinding>,
    ev: InputEvent,
    lines: Seq<StyledLine>,
    heads: Seq<usize>,
    max: usize,
    height: u16,
    themes: usize,
    theme_at: usize,
) -> (ReaderView, Option<KeyBinding>, Seq<EffectView>) {
    let (a, p) = event_step_of(km, chords, pending, ev, r.searching);
    if a == Action::NoOp {
        (r, p, seq![])
    } else {
        let (r2, es) = reader_step_of(r, a, lines, heads, max, height, themes, theme_at);
        (r2, p, es)
    }
}

/// One input event for the reader (`reader_event_of`).
pub fn reader_event(
    r: &mut Reader,
    km: &Vec<(KeyBinding, Action)>,
    chords: &Vec<(KeyBinding, KeyBinding, Action)>,
    pending: Option<KeyBinding>,
    ev: InputEvent,
    lines: &Vec<StyledLine>,
    heads: &Vec<usize>,
    max: usize,
    height: u16,
    themes: usize,
    theme_at: usize,
) -> (res: (Option<KeyBinding>, Vec<Effect>))
    requires
        old(r).well_formed(),
        old(r).picker matches Some(i) ==> i < themes,
        themes > 0 ==> theme_at < themes,
    ensures
        final(r).well_formed(),
        final(r).picker matches Some(i) ==> i < themes,
        (final(r).view(), res.0, effects_view(res.1@)) == reader_event_of(
            old(r).view(),
            km@,
            chords@,
            pending,
            ev,
            lines@,
            heads@,
            max,
            height,
            themes,
            theme_at,
        ),
{
    let (a, p) = event_step(km, chords, pending, ev, r.search.active);
    let is_none = match a {
        Action::NoOp => true,
        _ => false,
    };
    if is_none {
        let e: Vec<Effect> = Vec::new();
        assert(effects_view(e@) =~= Seq::<EffectView>::empty());
        return (p, e);
    }
    let es = reader_step(r, a, lines, heads, max, height, themes, theme_at);
    (p, es)
}

/// The Markdown a document's tab lays out: its source without the front
/// matter (unless the front matter is to be shown), wiki links turned into
/// links.
pub open spec fn tab_markdown(source: Seq<char>, show_frontmatter: bool) -> Seq<char> {
    convert_from(
        if show_frontmatter {
            source
        } else {
            frontmatter_split(source).1
        },
        0,
        None,
    )
}

/// The Markdown a document's tab lays out (`tab_markdown`).
pub fn tab_content(source: &str, show_frontmatter: bool) -> (r: String)
    ensures
        r@ == tab_markdown(source@, show_frontmatter),
{
    if show_frontmatter {
        process_wikilinks(source)
    } else {
        let (_, body) = strip_frontmatter(source);
        process_wikilinks(body.as_str())
    }
}

} // verus!
