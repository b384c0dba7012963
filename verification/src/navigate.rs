//! The reader's navigation decisions: where a scroll, page or jump leaves
//! the viewport, which heading or tab comes next, how the theme picker
//! moves, which nearby link `FollowLink` takes, and the back/forward
//! history of followed links.
use crate::input::Action;
use crate::layout::StyledLine;
use crate::text::chars_of;
use vstd::arithmetic::div_mod::{lemma_mod_self_0, lemma_small_mod};
use vstd::prelude::*;

verus! {

/// `a - b`, or zero.
pub open spec fn sat_sub(a: int, b: int) -> int {
    if a > b {
        a - b
    } else {
        0
    }
}

/// The smaller of two numbers.
pub open spec fn min_of(a: int, b: int) -> int {
    if a < b {
        a
    } else {
        b
    }
}

/// The scroll offset after a scrolling action, with `max` the last offset
/// and `height` the viewport's rows: lines and pages move by their amount
/// and stop at either end (a page keeps two rows of overlap), an offset
/// left past the end (after a resize) is clamped before moving up, Home and
/// End jump to the ends; other actions leave the offset.
pub open spec fn scrolled(action: Action, scroll: int, max: int, height: int) -> int {
    match action {
        Action::ScrollDown(n) => min_of(scroll + n, max),
        Action::ScrollUp(n) => sat_sub(min_of(scroll, max), n as int),
        Action::PageDown => min_of(scroll + sat_sub(height, 2), max),
        Action::PageUp => sat_sub(min_of(scroll, max), sat_sub(height, 2)),
        Action::Home => 0,
        Action::End => max,
        _ => scroll,
    }
}

/// The scroll offset after `action`.
pub fn scroll_for(action: Action, scroll: usize, max_scroll: usize, viewport_height: u16) -> (r: usize)
    ensures
        r == scrolled(action, scroll as int, max_scroll as int, viewport_height as int),
{
    let page: usize = if viewport_height >= 2 {
        (viewport_height - 2) as usize
    } else {
        0
    };
    let capped = if scroll < max_scroll {
        scroll
    } else {
        max_scroll
    };
    match action {
        Action::ScrollDown(n) => if scroll >= max_scroll || max_scroll - scroll <= n as usize {
            max_scroll
        } else {
            scroll + n as usize
        },
        Action::ScrollUp(n) => if capped > n as usize {
            capped - n as usize
        } else {
            0
        },
        Action::PageDown => if scroll > max_scroll || max_scroll - scroll <= page {
            max_scroll
        } else {
            scroll + page
        },
        Action::PageUp => if capped > page {
            capped - page
        } else {
            0
        },
        Action::Home => 0,
        Action::End => max_scroll,
        _ => scroll,
    }
}

/// The actions that move the viewport.
pub open spec fn is_scroll(action: Action) -> bool {
    action is ScrollDown || action is ScrollUp || action is PageDown || action is PageUp || action is Home
        || action is End
}

/// A scrolling action leaves the offset within `0..=max`.
pub proof fn law_scroll_stays_in_range(action: Action, scroll: int, max: int, height: int)
    requires
        0 <= scroll,
        0 <= max,
        is_scroll(action),
    ensures
        0 <= scrolled(action, scroll, max, height) <= max,
{
}

/// Scrolling down `n` lines and back up `n` returns to the same offset when
/// the way down was not cut short by the end of the document.
pub proof fn law_scroll_down_up(n: u16, scroll: int, max: int, height: int)
    requires
        0 <= scroll,
        scroll + n <= max,
    ensures
        scrolled(Action::ScrollUp(n), scrolled(Action::ScrollDown(n), scroll, max, height), max, height) == scroll,
{
}

/// The first heading line below the next one: the offset a `NextHeading`
/// jump goes to (the line before the heading, within the scroll range), if
/// a heading starts more than one line below `current`.
pub open spec fn next_heading_from(lines: Seq<usize>, current: int, max: int, i: int) -> Option<int>
    decreases lines.len() - i,
{
    if i >= lines.len() || i < 0 {
        None
    } else if lines[i] > current + 1 {
        Some(min_of(sat_sub(lines[i] as int, 1), max))
    } else {
        next_heading_from(lines, current, max, i + 1)
    }
}

/// The offset a `NextHeading` jump goes to.
pub fn next_heading_scroll(lines: &Vec<usize>, current: usize, max_scroll: usize) -> (r: Option<usize>)
    ensures
        match r {
            Some(s) => next_heading_from(lines@, current as int, max_scroll as int, 0) == Some(s as int),
            None => next_heading_from(lines@, current as int, max_scroll as int, 0) is None,
        },
{
    let mut i: usize = 0;
    while i < lines.len()
        invariant
            i <= lines@.len(),
            next_heading_from(lines@, current as int, max_scroll as int, 0) == next_heading_from(
                lines@,
                current as int,
                max_scroll as int,
                i as int,
            ),
        decreases lines@.len() - i,
    {
        let h = lines[i];
        if h > current && h - current > 1 {
            let back = h - 1;
            return Some(if back < max_scroll {
                back
            } else {
                max_scroll
            });
        }
        i = i + 1;
    }
    None
}

/// The last heading line ending more than one line above `current`: the
/// offset a `PrevHeading` jump goes to, searching from index `i` down.
pub open spec fn prev_heading_from(lines: Seq<usize>, current: int, max: int, i: int) -> Option<int>
    decreases i,
{
    if i <= 0 || i > lines.len() {
        None
    } else if lines[i - 1] + 1 < current {
        Some(min_of(sat_sub(lines[i - 1] as int, 1), max))
    } else {
        prev_heading_from(lines, current, max, i - 1)
    }
}

/// The offset a `PrevHeading` jump goes to.
pub fn prev_heading_scroll(lines: &Vec<usize>, current: usize, max_scroll: usize) -> (r: Option<usize>)
    ensures
        match r {
            Some(s) => prev_heading_from(lines@, current as int, max_scroll as int, lines@.len() as int)
                == Some(s as int),
            None => prev_heading_from(lines@, current as int, max_scroll as int, lines@.len() as int) is None,
        },
{
    let mut i: usize = lines.len();
    while i > 0
        invariant
            i <= lines@.len(),
            prev_heading_from(lines@, current as int, max_scroll as int, lines@.len() as int)
                == prev_heading_from(lines@, current as int, max_scroll as int, i as int),
        decreases i,
    {
        let h = lines[i - 1];
        if h < current && current - h > 1 {
            let back: usize = if h > 0 {
                h - 1
            } else {
                0
            };
            return Some(if back < max_scroll {
                back
            } else {
                max_scroll
            });
        }
        i = i - 1;
    }
    None
}

/// The tab after `active` (forward) or before it, wrapping around.
pub open spec fn tab_after(active: int, count: int, forward: bool) -> int {
    if forward {
        (active + 1) % count
    } else if active == 0 {
        count - 1
    } else {
        active - 1
    }
}

/// The tab `NextTab` (forward) or `PrevTab` switches to.
pub fn switch_tab(active: usize, count: usize, forward: bool) -> (r: usize)
    requires
        active < count,
    ensures
        r == tab_after(active as int, count as int, forward),
        r < count,
{
    if forward {
        (active + 1) % count
    } else if active == 0 {
        count - 1
    } else {
        active - 1
    }
}

/// Switching to the next tab and back returns to the same tab.
pub proof fn law_tab_round_trip(active: int, count: int)
    requires
        0 <= active < count,
    ensures
        tab_after(tab_after(active, count, true), count, false) == active,
        tab_after(tab_after(active, count, false), count, true) == active,
{
    if active + 1 < count {
        lemma_small_mod((active + 1) as nat, count as nat);
    } else {
        lemma_mod_self_0(count);
    }
    if active == 0 {
        lemma_small_mod((count - 1) as nat, count as nat);
        lemma_mod_self_0(count);
    } else {
        lemma_small_mod(active as nat, count as nat);
    }
}

/// What the theme picker does with an action: move the highlight (and
/// preview that theme), close keeping the highlighted theme, or nothing.
#[derive(Debug, Clone, Copy, PartialEq, Eq, Structural)]
pub enum PickerStep {
    Preview(usize),
    Close(usize),
    Stay,
}

/// The picker's response to `action` with theme `index` of `count`
/// highlighted: down and up move with wrap-around, Esc/q or Enter close
/// keeping (and saving) the highlighted theme.
pub open spec fn picker_step_of(action: Action, index: int, count: int) -> PickerStep {
    match action {
        Action::ExitApp | Action::CloseSearch | Action::SearchConfirm => PickerStep::Close(index as usize),
        Action::ScrollDown(_) => PickerStep::Preview(((index + 1) % count) as usize),
        Action::ScrollUp(_) => PickerStep::Preview(
            (if index == 0 {
                count - 1
            } else {
                index - 1
            }) as usize,
        ),
        _ => PickerStep::Stay,
    }
}

/// The theme picker's response to an action.
pub fn picker_step(action: Action, index: usize, count: usize) -> (r: PickerStep)
    requires
        index < count,
    ensures
        r == picker_step_of(action, index as int, count as int),
{
    match action {
        Action::ExitApp | Action::CloseSearch | Action::SearchConfirm => PickerStep::Close(index),
        Action::ScrollDown(_) => PickerStep::Preview((index + 1) % count),
        Action::ScrollUp(_) => PickerStep::Preview(
            if index == 0 {
                count - 1
            } else {
                index - 1
            },
        ),
        _ => PickerStep::Stay,
    }
}

/// Moving the picker down then up (or up then down) comes back to the same
/// theme.
pub proof fn law_picker_round_trip(index: int, count: int, n: u16, m: u16)
    requires
        0 <= index < count <= usize::MAX,
    ensures
        picker_step_of(Action::ScrollDown(n), index, count) matches PickerStep::Preview(j)
            && picker_step_of(Action::ScrollUp(m), j as int, count) == PickerStep::Preview(index as usize),
        picker_step_of(Action::ScrollUp(m), index, count) matches PickerStep::Preview(j)
            && picker_step_of(Action::ScrollDown(n), j as int, count) == PickerStep::Preview(index as usize),
{
    law_tab_round_trip(index, count);
}

/// A link `FollowLink` can open: one to a Markdown file (`.md` or
/// `.markdown`).
pub open spec fn is_markdown_link(url: Seq<char>) -> bool {
    (url.len() >= 3 && url.subrange(url.len() - 3, url.len() as int) == seq!['.', 'm', 'd'])
        || (url.len() >= 9 && url.subrange(url.len() - 9, url.len() as int) == seq![
        '.',
        'm',
        'a',
        'r',
        'k',
        'd',
        'o',
        'w',
        'n',
    ])
}

/// The first Markdown link among the spans of `line` from span `j` on.
pub open spec fn md_link_in(line: StyledLine, j: int) -> Option<Seq<char>>
    decreases line.spans@.len() - j,
{
    if j < 0 || j >= line.spans@.len() {
        None
    } else {
        match line.spans@[j].style.link_url {
            Some(u) => if is_markdown_link(u@) {
                Some(u@)
            } else {
                md_link_in(line, j + 1)
            },
            None => md_link_in(line, j + 1),
        }
    }
}

/// The first Markdown link on lines `i..=last` of `lines`.
pub open spec fn md_link_from(lines: Seq<StyledLine>, i: int, last: int) -> Option<Seq<char>>
    decreases last + 1 - i,
{
    if i > last || i < 0 || i >= lines.len() {
        None
    } else {
        match md_link_in(lines[i], 0) {
            Some(u) => Some(u),
            None => md_link_from(lines, i + 1, last),
        }
    }
}

/// The last line `FollowLink` looks at: five below the top of the
/// viewport, or the last line of the document.
pub open spec fn follow_window_end(offset: int, total: int) -> int {
    min_of(offset + 5, sat_sub(total, 1))
}

/// `url` ends in `.md` or `.markdown`.
fn markdown_link(url: &str) -> (b: bool)
    ensures
        b == is_markdown_link(url@),
{
    let v = chars_of(url);
    let n = v.len();
    let md = n >= 3 && v[n - 3] == '.' && v[n - 2] == 'm' && v[n - 1] == 'd';
    let long = n >= 9 && v[n - 9] == '.' && v[n - 8] == 'm' && v[n - 7] == 'a' && v[n - 6] == 'r'
        && v[n - 5] == 'k' && v[n - 4] == 'd' && v[n - 3] == 'o' && v[n - 2] == 'w' && v[n - 1]
        == 'n';
    proof {
        if n >= 3 {
            let t = v@.subrange(n - 3, n as int);
            if md {
                assert(t =~= seq!['.', 'm', 'd']);
            } else {
                assert(t != seq!['.', 'm', 'd'] || !(t[0] == '.' && t[1] == 'm' && t[2] == 'd'));
            }
        }
        if n >= 9 {
            let t = v@.subrange(n - 9, n as int);
            if long {
                assert(t =~= seq!['.', 'm', 'a', 'r', 'k', 'd', 'o', 'w', 'n']);
            } else {
                assert(t != seq!['.', 'm', 'a', 'r', 'k', 'd', 'o', 'w', 'n'] || t[0] != '.' || t[1] != 'm'
                    || t[2] != 'a' || t[3] != 'r' || t[4] != 'k' || t[5] != 'd' || t[6] != 'o' || t[7]
                    != 'w' || t[8] != 'n');
            }
        }
    }
    md || long
}

/// The first Markdown link on a line.
fn line_md_link(line: &StyledLine) -> (r: Option<String>)
    ensures
        match r {
            Some(u) => md_link_in(*line, 0) == Some(u@),
            None => md_link_in(*line, 0) is None,
        },
{
    let mut j: usize = 0;
    while j < line.spans.len()
        invariant
            j <= line.spans@.len(),
            md_link_in(*line, 0) == md_link_in(*line, j as int),
        decreases line.spans@.len() - j,
    {
        match &line.spans[j].style.link_url {
            Some(u) => {
                if markdown_link(u.as_str()) {
                    return Some(u.clone());
                }
            },
            None => {},
        }
        j = j + 1;
    }
    None
}

/// The link `FollowLink` opens: the first link to a Markdown file on the
/// top six lines of the viewport starting at `offset`.
pub fn follow_link_target(lines: &Vec<StyledLine>, offset: usize) -> (r: Option<String>)
    ensures
        match r {
            Some(u) => md_link_from(lines@, offset as int, follow_window_end(offset as int, lines@.len() as int))
                == Some(u@),
            None => md_link_from(lines@, offset as int, follow_window_end(offset as int, lines@.len() as int))
                is None,
        },
{
    let total = lines.len();
    let last: usize = if total == 0 {
        0
    } else if offset <= total - 1 && total - 1 - offset > 5 {
        offset + 5
    } else {
        total - 1
    };
    let ghost end = follow_window_end(offset as int, total as int);
    assert(end == last as int);
    let mut i: usize = offset;
    while i <= last && i < total
        invariant
            end == last as int,
            end == follow_window_end(offset as int, lines@.len() as int),
            total == lines@.len(),
            last < total || total == 0,
            offset <= i,
            md_link_from(lines@, offset as int, end) == md_link_from(lines@, i as int, end),
        decreases total - i,
    {
        match line_md_link(&lines[i]) {
            Some(u) => {
                return Some(u);
            },
            None => {},
        }
        i = i + 1;
    }
    None
}

/// A place in a document: its file name and scroll offset.
pub type Place = (String, usize);

/// Back and forward lists of places, most recent last.
#[derive(Debug, Clone)]
pub struct NavHistory {
    pub back: Vec<Place>,
    pub forward: Vec<Place>,
}

/// Places as plain values.
pub open spec fn places(v: Seq<Place>) -> Seq<(Seq<char>, usize)> {
    v.map_values(|p: Place| (p.0@, p.1))
}

impl NavHistory {
    /// Both lists as plain values.
    pub open spec fn view(&self) -> (Seq<(Seq<char>, usize)>, Seq<(Seq<char>, usize)>) {
        (places(self.back@), places(self.forward@))
    }

    /// An empty history.
    pub fn new() -> (h: Self)
        ensures
            h.view().0.len() == 0,
            h.view().1.len() == 0,
    {
        NavHistory { back: Vec::new(), forward: Vec::new() }
    }

    /// Following a link from `current`: remember it to go back to, and
    /// forget the forward list.
    pub fn visit(&mut self, current: Place)
        ensures
            final(self).view().0 == old(self).view().0.push((current.0@, current.1)),
            final(self).view().1.len() == 0,
    {
        self.back.push(current);
        self.forward = Vec::new();
        assert(places(self.back@) =~= places(old(self).back@).push((current.0@, current.1)));
    }

    /// Going back from `current`: the last place on the back list, with
    /// `current` moved onto the forward list; nothing (and no change) when
    /// the back list is empty.
    pub fn go_back(&mut self, current: Place) -> (r: Option<Place>)
        ensures
            match r {
                Some(p) => {
                    &&& old(self).view().0.len() > 0
                    &&& (p.0@, p.1) == old(self).view().0.last()
                    &&& final(self).view().0 == old(self).view().0.drop_last()
                    &&& final(self).view().1 == old(self).view().1.push((current.0@, current.1))
                },
                None => old(self).view().0.len() == 0 && final(self).view() == old(self).view(),
            },
    {
        match self.back.pop() {
            Some(p) => {
                self.forward.push(current);
                proof {
                    assert(places(self.back@) =~= places(old(self).back@).drop_last());
                    assert(places(self.forward@) =~= places(old(self).forward@).push((current.0@, current.1)));
                }
                Some(p)
            },
            None => None,
        }
    }

    /// Going forward from `current`: the last place on the forward list,
    /// with `current` moved onto the back list; nothing (and no change)
    /// when the forward list is empty.
    pub fn go_forward(&mut self, current: Place) -> (r: Option<Place>)
        ensures
            match r {
                Some(p) => {
                    &&& old(self).view().1.len() > 0
                    &&& (p.0@, p.1) == old(self).view().1.last()
                    &&& final(self).view().1 == old(self).view().1.drop_last()
                    &&& final(self).view().0 == old(self).view().0.push((current.0@, current.1))
                },
                None => old(self).view().1.len() == 0 && final(self).view() == old(self).view(),
            },
    {
        match self.forward.pop() {
            Some(p) => {
                self.back.push(current);
                proof {
                    assert(places(self.forward@) =~= places(old(self).forward@).drop_last());
                    assert(places(self.back@) =~= places(old(self).back@).push((current.0@, current.1)));
                }
                Some(p)
            },
            None => None,
        }
    }
}

/// The history after going back from `current`, as plain values.
pub open spec fn back_of(
    h: (Seq<(Seq<char>, usize)>, Seq<(Seq<char>, usize)>),
    current: (Seq<char>, usize),
) -> (Seq<(Seq<char>, usize)>, Seq<(Seq<char>, usize)>) {
    (h.0.drop_last(), h.1.push(current))
}

/// The history after going forward from `current`, as plain values.
pub open spec fn forward_of(
    h: (Seq<(Seq<char>, usize)>, Seq<(Seq<char>, usize)>),
    current: (Seq<char>, usize),
) -> (Seq<(Seq<char>, usize)>, Seq<(Seq<char>, usize)>) {
    (h.0.push(current), h.1.drop_last())
}

/// Going forward right after going back undoes it: from the place going
/// back reached, going forward leads back to where one was, and both lists
/// are as before.
pub proof fn law_back_then_forward(
    h: (Seq<(Seq<char>, usize)>, Seq<(Seq<char>, usize)>),
    current: (Seq<char>, usize),
)
    requires
        h.0.len() > 0,
    ensures
        back_of(h, current).1.last() == current,
        forward_of(back_of(h, current), h.0.last()) == h,
{
    assert(h.0.drop_last().push(h.0.last()) =~= h.0);
    assert(h.1.push(current).drop_last() =~= h.1);
}

} // verus!
