//! Decisions of the document viewer that do not touch the terminal: which
//! section a copy takes, where a click lands in the document, which links
//! get hint labels, and how wide the document is laid out.
use crate::clipboard::CopyOutcome;
use crate::layout::blocks::LayoutHeading;
use crate::layout::StyledLine;
use crate::sanitize::url_allowed;
use crate::selection::{snap_col, snap_from, cells_fit, Pos};
use crate::text::{join_lines, lines_of, lower_seq, trim_end};
use crate::unicode::grapheme_split;
use vstd::prelude::*;

verus! {

/// A heading as the table of contents lists it.
#[derive(Debug, Clone)]
pub struct TocEntry {
    pub level: u8,
    pub text: String,
    /// Display line where the heading lands.
    pub line_index: usize,
    /// 1-based line of the heading in the markdown source.
    pub source_line: usize,
}

/// The heading the viewport is in: the last one at or above its top line,
/// or the first one when the reader is still above every heading.
pub open spec fn current_heading(headings: Seq<TocEntry>, scroll: int) -> int
    decreases headings.len(),
{
    if headings.len() == 0 {
        0
    } else if headings.last().line_index <= scroll {
        headings.len() - 1
    } else {
        current_heading(headings.drop_last(), scroll)
    }
}

/// The table-of-contents entry the viewport at `scroll` is in.
pub fn selected_heading(headings: &[TocEntry], scroll: usize) -> (i: usize)
    ensures
        i == current_heading(headings@, scroll as int),
{
    let mut k = headings.len();
    assert(headings@.take(headings@.len() as int) =~= headings@);
    while k > 0 && headings[k - 1].line_index > scroll
        invariant
            k <= headings@.len(),
            current_heading(headings@, scroll as int) == current_heading(headings@.take(k as int), scroll as int),
        decreases k,
    {
        assert(headings@.take(k as int).drop_last() =~= headings@.take(k - 1));
        k = k - 1;
    }
    assert(headings@.take(headings@.len() as int) =~= headings@);
    if k == 0 {
        0
    } else {
        assert(headings@.take(k as int).last() == headings@[k - 1]);
        k - 1
    }
}

/// Index just past the section that heading `sel` opens: the first later
/// heading of the same or a higher level, or none (`headings.len()`).
pub open spec fn next_peer(headings: Seq<TocEntry>, sel: int, i: int) -> int
    decreases headings.len() - i,
{
    if i < 0 || i >= headings.len() {
        headings.len() as int
    } else if headings[i].level <= headings[sel].level {
        i
    } else {
        next_peer(headings, sel, i + 1)
    }
}

/// First source line (0-based) of the section that heading `sel` opens.
pub open spec fn section_first(headings: Seq<TocEntry>, sel: int) -> int {
    if headings[sel].source_line >= 1 {
        headings[sel].source_line - 1
    } else {
        0
    }
}

/// The source line (0-based) at which that section ends, exclusive.
pub open spec fn section_last(headings: Seq<TocEntry>, sel: int, n_lines: int) -> int {
    let j = next_peer(headings, sel, sel + 1);
    if j < headings.len() {
        if headings[j].source_line >= 1 {
            headings[j].source_line - 1
        } else {
            0
        }
    } else {
        n_lines
    }
}

/// The whole document is the section when there is no selected heading, or
/// when the first heading has not yet scrolled into view.
pub open spec fn whole_document(headings: Seq<TocEntry>, selected: int, scroll: int, viewport_height: int) -> bool {
    selected >= headings.len() || (selected == 0 && headings[0].line_index > scroll
        && headings[0].line_index >= scroll + viewport_height)
}

/// The markdown of the section the viewport starts in, and a label for the
/// status bar: the whole document (`document`) when there is no current
/// section; nothing (`nothing`) when the heading's line is past the source;
/// else the lines from the heading to the next heading of the same or higher
/// level, joined and trimmed at the end, labeled `section "<heading>"`.
pub open spec fn section_of(
    content: Seq<char>,
    headings: Seq<TocEntry>,
    selected: int,
    scroll: int,
    viewport_height: int,
) -> (Seq<char>, Seq<char>) {
    let lines = lines_of(content);
    if whole_document(headings, selected, scroll, viewport_height) {
        (content, "document"@)
    } else {
        let start = section_first(headings, selected);
        let end = section_last(headings, selected, lines.len() as int);
        let stop = if end < lines.len() {
            end
        } else {
            lines.len() as int
        };
        if start >= lines.len() {
            (seq![], "nothing"@)
        } else {
            (
                trim_end(join_lines(lines.subrange(start, stop))),
                "section \""@ + headings[selected].text@ + "\""@,
            )
        }
    }
}

/// The section would slice its lines backwards (a later peer heading on an
/// earlier source line): a reversed range that slicing cannot take.
pub open spec fn section_backwards(content: Seq<char>, headings: Seq<TocEntry>, selected: int) -> bool {
    let lines = lines_of(content);
    let start = section_first(headings, selected);
    let end = section_last(headings, selected, lines.len() as int);
    selected < headings.len() && start < lines.len() && end < start
}

/// The markdown source of the section the viewport currently starts in, plus
/// a label for the status bar.
///
/// A section runs from its heading to the next heading of the same or
/// higher level — a `##` copies its `###` subsections along with it. A
/// document with no headings copies whole.
pub fn section_source(
    content: &str,
    headings: &[TocEntry],
    selected: usize,
    scroll: usize,
    viewport_height: usize,
) -> (r: (String, String))
    requires
        !section_backwards(content@, headings@, selected as int),
        scroll + viewport_height <= usize::MAX,
    ensures
        (r.0@, r.1@) == section_of(content@, headings@, selected as int, scroll as int, viewport_height as int),
{
    let v = crate::text::chars_of(content);
    let ls = crate::text::split_lines(&v);
    let ghost lv = ls@.map_values(|l: Vec<char>| l@);
    if selected >= headings.len() || (selected == 0 && headings[0].line_index > scroll
        && headings[0].line_index >= scroll + viewport_height) {
        let mut label = String::new();
        label.append("document");
        let whole = crate::text::string_from(&v, 0, v.len());
        assert(v@.subrange(0, v@.len() as int) =~= content@);
        return (whole, label);
    }
    let cur = &headings[selected];
    let start = if cur.source_line >= 1 {
        cur.source_line - 1
    } else {
        0
    };
    let mut j = selected + 1;
    while j < headings.len() && headings[j].level > cur.level
        invariant
            selected < j <= headings@.len(),
            cur == headings@[selected as int],
            next_peer(headings@, selected as int, selected + 1) == next_peer(headings@, selected as int, j as int),
        decreases headings@.len() - j,
    {
        j = j + 1;
    }
    let end = if j < headings.len() {
        if headings[j].source_line >= 1 {
            headings[j].source_line - 1
        } else {
            0
        }
    } else {
        ls.len()
    };
    if start >= ls.len() {
        let mut label = String::new();
        label.append("nothing");
        return (String::new(), label);
    }
    let stop = if end < ls.len() {
        end
    } else {
        ls.len()
    };
    let mut parts: Vec<String> = Vec::new();
    let mut k = start;
    while k < stop
        invariant
            start <= k <= stop <= ls@.len(),
            lv == ls@.map_values(|l: Vec<char>| l@),
            parts@.map_values(|s: String| s@) == lv.subrange(start as int, k as int),
        decreases stop - k,
    {
        parts.push(crate::text::string_from(&ls[k], 0, ls[k].len()));
        proof {
            assert(lv[k as int] == ls@[k as int]@);
            assert(ls@[k as int]@.subrange(0, ls@[k as int]@.len() as int) =~= lv[k as int]);
            assert(lv.subrange(start as int, k + 1) =~= lv.subrange(start as int, k as int).push(lv[k as int]));
            assert(parts@.map_values(|s: String| s@) =~= lv.subrange(start as int, k + 1));
        }
        k = k + 1;
    }
    let joined = crate::text::join_with_newline(&parts);
    let body = crate::text::trimmed_end(joined.as_str());
    let mut label = String::new();
    label.append("section \"");
    label.append(cur.text.as_str());
    label.append("\"");
    (body, label)
}

/// A screen rectangle: top-left cell and size.
#[derive(Debug, Clone, Copy, PartialEq, Eq, Structural)]
pub struct Area {
    pub x: u16,
    pub y: u16,
    pub width: u16,
    pub height: u16,
}

/// The document position under screen cell (`col`, `row`) when the document
/// area is `area` and scrolled to `scroll`: nothing outside the area or past
/// the last line; else that line, at the start of the grapheme under the
/// column.
pub open spec fn doc_pos_of(area: Area, plain: Seq<Seq<char>>, scroll: int, col: int, row: int) -> Option<(int, int)> {
    if area.width == 0 || col < area.x || row < area.y || col >= area.x + area.width || row >= area.y
        + area.height {
        None
    } else if scroll + (row - area.y) >= plain.len() {
        None
    } else {
        let line = scroll + (row - area.y);
        Some((line, snap_from(grapheme_split(plain[line]), 0, 0, col - area.x)))
    }
}

/// Translate a screen cell to a document position, or `None` when the click
/// landed outside the document area (top bar, TOC sidebar, status bar).
pub fn screen_to_doc(area: Area, plain: &[String], scroll: usize, col: u16, row: u16) -> (p: Option<Pos>)
    requires
        scroll + area.height <= usize::MAX,
    ensures
        match p {
            None => doc_pos_of(area, plain@.map_values(|s: String| s@), scroll as int, col as int, row as int) is None,
            Some(q) => cells_fit(plain@[q.line as int]@) ==> doc_pos_of(
                area,
                plain@.map_values(|s: String| s@),
                scroll as int,
                col as int,
                row as int,
            ) == Some((q.line as int, q.col as int)),
        },
{
    if area.width == 0 || col < area.x || row < area.y || col as u32 >= area.x as u32 + area.width as u32
        || row as u32 >= area.y as u32 + area.height as u32 {
        return None;
    }
    let line = scroll + (row - area.y) as usize;
    if line >= plain.len() {
        return None;
    }
    let c = snap_col(plain[line].as_str(), (col - area.x) as usize);
    Some(Pos::new(line, c))
}

/// A labeled link for hint-mode selection.
#[derive(Debug, Clone, PartialEq, Eq)]
pub struct LinkHint {
    pub label: char,
    pub url: String,
}

/// `seen` after meeting a span whose link is `link`: a destination not yet
/// seen is appended.
pub open spec fn url_step(seen: Seq<Seq<char>>, link: Option<String>) -> Seq<Seq<char>> {
    match link {
        Some(u) => if seen.contains(u@) {
            seen
        } else {
            seen.push(u@)
        },
        None => seen,
    }
}

/// The distinct link destinations of the spans `spans`, in order of first
/// appearance, after those already in `seen`.
pub open spec fn new_urls(seen: Seq<Seq<char>>, spans: Seq<crate::layout::StyledSpan>) -> Seq<Seq<char>>
    decreases spans.len(),
{
    if spans.len() == 0 {
        seen
    } else {
        url_step(new_urls(seen, spans.drop_last()), spans.last().style.link_url)
    }
}

/// The distinct link destinations of the lines, in order of first
/// appearance.
pub open spec fn line_urls(lines: Seq<StyledLine>) -> Seq<Seq<char>>
    decreases lines.len(),
{
    if lines.len() == 0 {
        seq![]
    } else {
        new_urls(line_urls(lines.drop_last()), lines.last().spans@)
    }
}

proof fn lemma_prefix_trans(a: Seq<Seq<char>>, b: Seq<Seq<char>>, c: Seq<Seq<char>>)
    requires
        a.is_prefix_of(b),
        b.is_prefix_of(c),
    ensures
        a.is_prefix_of(c),
{
    assert(c.subrange(0, a.len() as int) =~= b.subrange(0, a.len() as int));
}

proof fn lemma_new_urls_grows(seen: Seq<Seq<char>>, spans: Seq<crate::layout::StyledSpan>)
    ensures
        seen.is_prefix_of(new_urls(seen, spans)),
    decreases spans.len(),
{
    if spans.len() == 0 {
        assert(seen.subrange(0, seen.len() as int) =~= seen);
    } else {
        lemma_new_urls_grows(seen, spans.drop_last());
        let prev = new_urls(seen, spans.drop_last());
        match spans.last().style.link_url {
            Some(u) => if !prev.contains(u@) {
                assert(prev.push(u@).subrange(0, seen.len() as int) =~= prev.subrange(0, seen.len() as int));
            },
            None => {},
        }
    }
}

proof fn lemma_new_urls_prefix(seen: Seq<Seq<char>>, spans: Seq<crate::layout::StyledSpan>, k: int)
    requires
        0 <= k <= spans.len(),
    ensures
        new_urls(seen, spans.take(k)).is_prefix_of(new_urls(seen, spans)),
    decreases spans.len() - k,
{
    if k == spans.len() {
        assert(spans.take(k) =~= spans);
        let r = new_urls(seen, spans);
        assert(r.subrange(0, r.len() as int) =~= r);
    } else {
        lemma_new_urls_prefix(seen, spans, k + 1);
        assert(spans.take(k + 1).drop_last() =~= spans.take(k));
        let a = new_urls(seen, spans.take(k));
        let b = new_urls(seen, spans.take(k + 1));
        match spans.take(k + 1).last().style.link_url {
            Some(u) => if !a.contains(u@) {
                assert(a.push(u@).subrange(0, a.len() as int) =~= a);
            } else {
                assert(a.subrange(0, a.len() as int) =~= a);
            },
            None => {
                assert(a.subrange(0, a.len() as int) =~= a);
            },
        }
        lemma_prefix_trans(a, b, new_urls(seen, spans));
    }
}

proof fn lemma_line_urls_prefix(lines: Seq<StyledLine>, i: int)
    requires
        0 <= i <= lines.len(),
    ensures
        line_urls(lines.take(i)).is_prefix_of(line_urls(lines)),
    decreases lines.len() - i,
{
    if i == lines.len() {
        assert(lines.take(i) =~= lines);
        let r = line_urls(lines);
        assert(r.subrange(0, r.len() as int) =~= r);
    } else {
        lemma_line_urls_prefix(lines, i + 1);
        assert(lines.take(i + 1).drop_last() =~= lines.take(i));
        lemma_new_urls_grows(line_urls(lines.take(i)), lines.take(i + 1).last().spans@);
        lemma_prefix_trans(line_urls(lines.take(i)), line_urls(lines.take(i + 1)), line_urls(lines));
    }
}

/// The destinations of the hints, in order.
pub open spec fn hint_urls(hints: Seq<LinkHint>) -> Seq<Seq<char>> {
    Seq::new(hints.len(), |m: int| hints[m].url@)
}

/// Each hint is labeled by its position: `a`, `b`, `c`, …
pub open spec fn labeled_in_order(hints: Seq<LinkHint>) -> bool {
    forall|m: int| 0 <= m < hints.len() ==> #[trigger] hints[m].label == (('a' as u32) + m) as char
}

/// Append a hint for `url`, labeled by its position.
fn push_hint(hints: &mut Vec<LinkHint>, url: &String)
    requires
        old(hints)@.len() < 26,
        labeled_in_order(old(hints)@),
    ensures
        final(hints)@.len() == old(hints)@.len() + 1,
        hint_urls(final(hints)@) == hint_urls(old(hints)@).push(url@),
        labeled_in_order(final(hints)@),
{
    let n = hints.len();
    let code: u8 = 97 + (n as u8);
    let label = code as char;
    assert(label == ((('a' as u32) + n) as char));
    let ghost before = hints@;
    hints.push(LinkHint { label, url: url.clone() });
    assert(hint_urls(hints@) =~= hint_urls(before).push(url@)) by {
        assert forall|m: int| 0 <= m < before.len() implies hints@[m] == before[m] by {}
    }
    assert forall|m: int| 0 <= m < hints@.len() implies #[trigger] hints@[m].label == (('a' as u32) + m) as char by {
        if m < before.len() {
            assert(hints@[m] == before[m]);
        }
    }
}

/// Does some hint already lead to `url`?
fn has_hint(hints: &Vec<LinkHint>, url: &String) -> (found: bool)
    ensures
        found == hint_urls(hints@).contains(url@),
{
    let mut h: usize = 0;
    while h < hints.len()
        invariant
            h <= hints@.len(),
            forall|m: int| 0 <= m < h ==> hint_urls(hints@)[m] != url@,
        decreases hints@.len() - h,
    {
        if hints[h].url == *url {
            assert(hint_urls(hints@)[h as int] == url@);
            return true;
        }
        h = h + 1;
    }
    false
}

/// Take note of a span's link. Returns `false`, leaving the hints as they
/// are, when the link leads somewhere new and all 26 labels are taken.
fn note_link(hints: &mut Vec<LinkHint>, link: &Option<String>) -> (room: bool)
    requires
        old(hints)@.len() <= 26,
        labeled_in_order(old(hints)@),
    ensures
        labeled_in_order(final(hints)@),
        final(hints)@.len() <= 26,
        room ==> hint_urls(final(hints)@) == url_step(hint_urls(old(hints)@), *link),
        !room ==> final(hints)@ == old(hints)@ && old(hints)@.len() == 26 && hint_urls(old(hints)@).push(
            link->0@,
        ) == url_step(hint_urls(old(hints)@), *link),
{
    match link {
        Some(url) => {
            if has_hint(hints, url) {
                true
            } else if hints.len() >= 26 {
                false
            } else {
                push_hint(hints, url);
                true
            }
        },
        None => true,
    }
}

/// Collect one hint per distinct link URL in the given (visible) lines,
/// labeled `a`, `b`, `c`, … in order of first appearance; at most 26.
pub fn collect_link_hints(lines: &[StyledLine]) -> (hints: Vec<LinkHint>)
    ensures
        hints@.len() == if line_urls(lines@).len() < 26 {
            line_urls(lines@).len() as int
        } else {
            26
        },
        forall|i: int| 0 <= i < hints@.len() ==> #[trigger] hints@[i].url@ == line_urls(lines@)[i] && hints@[i].label == ((
            'a' as u32) + i) as char,
{
    let mut hints: Vec<LinkHint> = Vec::new();
    let ghost mut urls: Seq<Seq<char>> = seq![];
    assert(hint_urls(hints@) =~= urls);
    let mut i: usize = 0;
    while i < lines.len()
        invariant
            i <= lines@.len(),
            urls == line_urls(lines@.take(i as int)),
            hint_urls(hints@) == urls,
            labeled_in_order(hints@),
            hints@.len() <= 26,
        decreases lines@.len() - i,
    {
        assert(lines@.take(i + 1).drop_last() =~= lines@.take(i as int));
        assert(lines@.take(i + 1).last() == lines@[i as int]);
        let spans = &lines[i].spans;
        let ghost base = urls;
        let mut k: usize = 0;
        assert(spans@.take(0) =~= Seq::<crate::layout::StyledSpan>::empty());
        while k < spans.len()
            invariant
                k <= spans@.len(),
                i < lines@.len(),
                spans@ == lines@[i as int].spans@,
                base == line_urls(lines@.take(i as int)),
                urls == new_urls(base, spans@.take(k as int)),
                hint_urls(hints@) == urls,
                labeled_in_order(hints@),
                hints@.len() <= 26,
            decreases spans@.len() - k,
        {
            assert(spans@.take(k + 1).drop_last() =~= spans@.take(k as int));
            assert(spans@.take(k + 1).last() == spans@[k as int]);
            let room = note_link(&mut hints, &spans[k].style.link_url);
            if !room {
                proof {
                    let u2 = new_urls(base, spans@.take(k + 1));
                    lemma_new_urls_prefix(base, spans@, k + 1);
                    assert(spans@.take(spans@.len() as int) =~= spans@);
                    lemma_line_urls_prefix(lines@, i + 1);
                    assert(lines@.take(i + 1).drop_last() =~= lines@.take(i as int));
                    assert(lines@.take(i + 1).last() == lines@[i as int]);
                    assert(line_urls(lines@.take(i + 1)) == new_urls(base, spans@));
                    lemma_prefix_trans(u2, new_urls(base, spans@), line_urls(lines@.take(i + 1)));
                    lemma_prefix_trans(u2, line_urls(lines@.take(i + 1)), line_urls(lines@));
                    assert forall|m: int| 0 <= m < hints@.len() implies #[trigger] hints@[m].url@ == line_urls(lines@)[m] by {
                        assert(hint_urls(hints@)[m] == u2[m]);
                        assert(line_urls(lines@).subrange(0, u2.len() as int)[m] == u2[m]);
                    }
                }
                return hints;
            }
            proof {
                urls = new_urls(base, spans@.take(k + 1));
            }
            k = k + 1;
        }
        assert(spans@.take(spans@.len() as int) =~= spans@);
        i = i + 1;
    }
    assert(lines@.take(lines@.len() as int) =~= lines@);
    assert forall|m: int| 0 <= m < hints@.len() implies #[trigger] hints@[m].url@ == line_urls(lines@)[m] by {
        assert(hint_urls(hints@)[m] == urls[m]);
    }
    hints
}

/// The width the document is laid out in: an open TOC pane takes 30 columns
/// on a terminal wider than 40.
pub fn effective_width(full: u16, toc_visible: bool) -> (w: u16)
    ensures
        w == if toc_visible && full > 40 {
            full - 30
        } else {
            full as int
        },
{
    if toc_visible && full > 40 {
        full - 30
    } else {
        full
    }
}

/// The status-bar message for a copy's outcome; `what` names what was
/// copied.
pub fn copy_message(outcome: CopyOutcome, what: &str) -> (m: String)
    ensures
        outcome == CopyOutcome::Copied ==> m@ == "copied "@ + what@,
        outcome == CopyOutcome::Disabled ==> m@ == "clipboard disabled in config"@,
        outcome == CopyOutcome::Empty ==> m@ == "nothing to copy"@,
        outcome == CopyOutcome::TooLarge ==> m@ == "selection too large for clipboard"@,
        outcome == CopyOutcome::Failed ==> m@ == "clipboard unavailable"@,
{
    let mut m = String::new();
    match outcome {
        CopyOutcome::Copied => {
            m.append("copied ");
            m.append(what);
        },
        CopyOutcome::Disabled => m.append("clipboard disabled in config"),
        CopyOutcome::Empty => m.append("nothing to copy"),
        CopyOutcome::TooLarge => m.append("selection too large for clipboard"),
        CopyOutcome::Failed => m.append("clipboard unavailable"),
    }
    m
}


/// The text width and centering margin of a document on a terminal
/// `term_width` wide, when `requested` asks for a width: the text takes the
/// requested width (or as much as fits), between 8 and 120 and at most four
/// less than the terminal, and is centered when the terminal is more than
/// four wider; otherwise the margin is 2.
pub open spec fn geometry(term_width: u16, requested: Option<u16>) -> (u16, usize) {
    let room: int = if term_width > 4 { term_width - 4 } else { 0 };
    let hard_cap: int = if room < 8 { 8 } else if room > 120 { 120 } else { room };
    let want: int = match requested {
        Some(w) => w as int,
        None => hard_cap,
    };
    let w: int = if want < 8 { 8 } else if want > hard_cap { hard_cap } else { want };
    (w as u16, if term_width > w + 4 { ((term_width - w) / 2) as usize } else { 2 })
}

/// The width the document is laid out at and the margin that centers it.
pub fn content_geometry(term_width: u16, requested: Option<u16>) -> (r: (u16, usize))
    ensures
        r == geometry(term_width, requested),
{
    let room: u16 = if term_width > 4 { term_width - 4 } else { 0 };
    let hard_cap: u16 = if room < 8 { 8 } else if room > 120 { 120 } else { room };
    let want: u16 = match requested {
        Some(w) => w,
        None => hard_cap,
    };
    let w: u16 = if want < 8 { 8 } else if want > hard_cap { hard_cap } else { want };
    let margin: usize = if term_width > w + 4 { ((term_width - w) / 2) as usize } else { 2 };
    (w, margin)
}

/// The scroll position kept after a rebuild to `n` lines: at most the last
/// line.
pub fn clamp_scroll(scroll: usize, n: usize) -> (r: usize)
    ensures
        r == if scroll < n { scroll as int } else if n > 0 { n - 1 } else { 0 },
{
    let last = if n > 0 { n - 1 } else { 0 };
    if scroll < last { scroll } else { last }
}

/// The text search runs on for one line: each span lowercased character by
/// character, the spans joined by U+0001 (which no typed query holds, so a
/// match never straddles two spans).
pub open spec fn search_text(spans: Seq<(Seq<char>, crate::layout::StyleView)>) -> Seq<char>
    decreases spans.len(),
{
    if spans.len() == 0 {
        seq![]
    } else {
        search_text(spans.drop_last()) + (if spans.len() > 1 {
            seq!['\u{1}']
        } else {
            seq![]
        }) + crate::paint::lowered(spans.last().0).0
    }
}

/// The search text of every line.
pub fn search_lines(lines: &Vec<StyledLine>) -> (r: Vec<String>)
    ensures
        r@.len() == lines@.len(),
        forall|i: int| 0 <= i < lines@.len() ==> #[trigger] r@[i]@ == search_text(crate::layout::line_view(lines@[i])),
{
    let mut r: Vec<String> = Vec::new();
    let mut i: usize = 0;
    while i < lines.len()
        invariant
            i <= lines@.len(),
            r@.len() == i,
            forall|t: int| 0 <= t < i ==> #[trigger] r@[t]@ == search_text(crate::layout::line_view(lines@[t])),
        decreases lines@.len() - i,
    {
        let ghost lv = crate::layout::line_view(lines@[i as int]);
        let mut joined = String::new();
        let mut k: usize = 0;
        while k < lines[i].spans.len()
            invariant
                i < lines@.len(),
                k <= lines@[i as int].spans@.len(),
                lv == crate::layout::line_view(lines@[i as int]),
                joined@ == search_text(lv.take(k as int)),
            decreases lines@[i as int].spans@.len() - k,
        {
            proof {
                assert(lv.take(k + 1).drop_last() =~= lv.take(k as int));
                assert(lv.take(k + 1).last().0 == lines@[i as int].spans@[k as int].text@);
            }
            if k > 0 {
                crate::text::push_char(&mut joined, '\u{1}');
            }
            let v = crate::text::chars_of(lines[i].spans[k].text.as_str());
            let mut j: usize = 0;
            let ghost base = joined@;
            while j < v.len()
                invariant
                    j <= v@.len(),
                    joined@ == base + crate::paint::lowered(v@.take(j as int)).0,
                decreases v@.len() - j,
            {
                proof {
                    assert(v@.take(j + 1).drop_last() =~= v@.take(j as int));
                    assert(v@.take(j + 1).last() == v@[j as int]);
                }
                let l = crate::text::char_lowercase(v[j]);
                joined.append(l.as_str());
                assert(joined@ =~= base + crate::paint::lowered(v@.take(j + 1)).0);
                j = j + 1;
            }
            assert(v@.take(v@.len() as int) =~= v@);
            assert(joined@ =~= search_text(lv.take(k + 1)));
            k = k + 1;
        }
        assert(lv.take(lines@[i as int].spans@.len() as int) =~= lv);
        let ghost before = r@;
        r.push(joined);
        assert forall|t: int| 0 <= t < i + 1 implies #[trigger] r@[t]@ == search_text(crate::layout::line_view(lines@[t])) by {
            if t < i {
                assert(r@[t] == before[t]);
            }
        }
        i = i + 1;
    }
    r
}

/// The table of contents of a layout: its headings with text, in order.
pub open spec fn toc_of(hs: Seq<LayoutHeading>) -> Seq<(u8, Seq<char>, usize, usize)>
    decreases hs.len(),
{
    if hs.len() == 0 {
        seq![]
    } else {
        let h = hs.last();
        toc_of(hs.drop_last()) + if h.text@.len() > 0 {
            seq![(h.level, h.text@, h.line_index, h.source_line)]
        } else {
            seq![]
        }
    }
}

/// The table-of-contents entries for the headings a layout recorded; a
/// heading without text is left out.
pub fn toc_entries(headings: &Vec<LayoutHeading>) -> (r: Vec<TocEntry>)
    ensures
        r@.map_values(|e: TocEntry| (e.level, e.text@, e.line_index, e.source_line)) == toc_of(headings@),
{
    let mut r: Vec<TocEntry> = Vec::new();
    let mut i: usize = 0;
    while i < headings.len()
        invariant
            i <= headings@.len(),
            r@.map_values(|e: TocEntry| (e.level, e.text@, e.line_index, e.source_line)) == toc_of(headings@.take(i as int)),
        decreases headings@.len() - i,
    {
        proof {
            assert(headings@.take(i + 1).drop_last() =~= headings@.take(i as int));
            assert(headings@.take(i + 1).last() == headings@[i as int]);
        }
        let h = &headings[i];
        let ghost before = r@;
        if !h.text.as_str().is_empty() {
            r.push(TocEntry { level: h.level, text: h.text.clone(), line_index: h.line_index, source_line: h.source_line });
        }
        assert(r@.map_values(|e: TocEntry| (e.level, e.text@, e.line_index, e.source_line)) =~= toc_of(headings@.take(i + 1)));
        i = i + 1;
    }
    assert(headings@.take(headings@.len() as int) =~= headings@);
    r
}

/// A document source that names a local file: not a web address, not
/// standard input.
pub open spec fn local_source(input: Seq<char>) -> bool {
    !crate::image::has_prefix(input, "http://"@) && !crate::image::has_prefix(input, "https://"@) && input != "stdin"@
}

/// Whether the input names a local file (a web address or `stdin` does not).
pub fn is_local_file(input: &str) -> (b: bool)
    ensures
        b == local_source(input@),
{
    let v = crate::text::chars_of(input);
    let http = crate::text::chars_of("http://");
    let https = crate::text::chars_of("https://");
    let stdin = crate::text::chars_of("stdin");
    let a = v.len() >= http.len() && crate::text::range_eq(&v, 0, http.len(), &http);
    let b = v.len() >= https.len() && crate::text::range_eq(&v, 0, https.len(), &https);
    let c = crate::text::seq_eq(&v, &stdin);
    proof {
        assert(a == crate::image::has_prefix(input@, "http://"@));
        assert(b == crate::image::has_prefix(input@, "https://"@));
    }
    !a && !b && !c
}

/// Where following a link leads.
#[derive(Debug, Clone, PartialEq, Eq)]
pub enum LinkTarget {
    /// A web or mail address, handed to the system (cleaned).
    External(String),
    /// A local markdown file, opened in place.
    Local(String),
    /// Anything else: the link is not followed.
    Ignore,
}

/// Whether `s` ends with `suffix`.
pub open spec fn has_suffix(s: Seq<char>, suffix: Seq<char>) -> bool {
    suffix.len() <= s.len() && s.subrange(s.len() - suffix.len(), s.len() as int) == suffix
}

/// Where a link with destination `url` leads: an allowed `http`, `https` or
/// `mailto` address (by its scheme in any case) goes to the system; a
/// `.md` or `.markdown` file opens in place; nothing else is followed.
pub open spec fn link_target_of(url: Seq<char>) -> LinkTargetView {
    if url_allowed(url) && (crate::image::has_prefix(lower_seq(url), "http://"@) || crate::image::has_prefix(
        lower_seq(url),
        "https://"@,
    ) || crate::image::has_prefix(lower_seq(url), "mailto:"@)) {
        LinkTargetView::External(url)
    } else if has_suffix(url, ".md"@) || has_suffix(url, ".markdown"@) {
        LinkTargetView::Local(url)
    } else {
        LinkTargetView::Ignore
    }
}

/// A link target as plain values.
pub enum LinkTargetView {
    External(Seq<char>),
    Local(Seq<char>),
    Ignore,
}

/// A link target as plain values.
pub open spec fn target_view(t: LinkTarget) -> LinkTargetView {
    match t {
        LinkTarget::External(s) => LinkTargetView::External(s@),
        LinkTarget::Local(s) => LinkTargetView::Local(s@),
        LinkTarget::Ignore => LinkTargetView::Ignore,
    }
}

/// Whether `v` ends with `suffix`.
fn ends_with(v: &Vec<char>, suffix: &Vec<char>) -> (b: bool)
    ensures
        b == has_suffix(v@, suffix@),
{
    if suffix.len() > v.len() {
        return false;
    }
    crate::text::range_eq(v, v.len() - suffix.len(), v.len(), suffix)
}

/// Decide where following the link `url` leads.
pub fn link_target(url: &str) -> (t: LinkTarget)
    ensures
        target_view(t) == link_target_of(url@),
{
    if let Some(safe) = crate::sanitize::sanitize_url(url) {
        let v = crate::text::chars_of(safe.as_str());
        let n = v.len();
        let http = crate::text::chars_of("http://");
        let https = crate::text::chars_of("https://");
        let mailto = crate::text::chars_of("mailto:");
        let web = crate::text::starts_with_lower(&v, 0, n, &http) || crate::text::starts_with_lower(&v, 0, n, &https)
            || crate::text::starts_with_lower(&v, 0, n, &mailto);
        proof {
            assert(v@.subrange(0, n as int) =~= url@);
        }
        if web {
            return LinkTarget::External(safe);
        }
    }
    let v = crate::text::chars_of(url);
    let md = crate::text::chars_of(".md");
    let markdown = crate::text::chars_of(".markdown");
    if ends_with(&v, &md) || ends_with(&v, &markdown) {
        LinkTarget::Local(string_from_chars(&v))
    } else {
        LinkTarget::Ignore
    }
}

/// A `String` of the characters `v`.
fn string_from_chars(v: &Vec<char>) -> (s: String)
    ensures
        s@ == v@,
{
    let s = crate::text::string_from(v, 0, v.len());
    assert(v@.subrange(0, v@.len() as int) =~= v@);
    s
}

} // verus!
