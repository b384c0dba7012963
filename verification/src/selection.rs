//! Text selection over the laid-out document.
//!
//! Positions are **document** coordinates — a display-line index plus a display
//! *column* (terminal cells, not bytes and not chars). Columns are counted the
//! way the layout counts them: grapheme clusters, each at least one cell wide,
//! measured with `unicode-width`, which keeps a selection edge from landing
//! inside a ZWJ emoji or on the second cell of a CJK character.
use crate::layout::StyledLine;
use crate::text::{is_ws, join_lines, trim_end};
use crate::unicode::{display_width, grapheme_split, graphemes, text_width, word_pieces, word_split};
use vstd::prelude::*;

verus! {

/// A caret position in the document.
#[derive(Debug, Clone, Copy, PartialEq, Eq, Structural, PartialOrd, Ord, Hash)]
pub struct Pos {
    /// Display-line index into the tab's laid-out lines.
    pub line: usize,
    /// Display column (terminal cells from the left edge of the line).
    pub col: usize,
}

impl Default for Pos {
    fn default() -> (p: Self)
        ensures
            p.line == 0 && p.col == 0,
    {
        Pos { line: 0, col: 0 }
    }
}

impl Pos {
    pub fn new(line: usize, col: usize) -> (p: Self)
        ensures
            p.line == line && p.col == col,
    {
        Self { line, col }
    }
}

/// Character-wise (`v`) or whole-line (`V`) selection.
#[derive(Debug, Clone, Copy, PartialEq, Eq, Structural)]
pub enum SelMode {
    Char,
    Line,
}

/// An active selection: fixed `anchor`, moving `cursor`.
#[derive(Debug, Clone, Copy, PartialEq, Eq, Structural)]
pub struct Selection {
    pub anchor: Pos,
    pub cursor: Pos,
    pub mode: SelMode,
}

/// Document order on positions.
pub open spec fn pos_le(a: Pos, b: Pos) -> bool {
    a.line < b.line || (a.line == b.line && a.col <= b.col)
}

/// Anchor and cursor in document order.
pub open spec fn sel_range(s: Selection) -> (Pos, Pos) {
    if pos_le(s.anchor, s.cursor) {
        (s.anchor, s.cursor)
    } else {
        (s.cursor, s.anchor)
    }
}

/// The cells a grapheme takes: its display width, at least one.
pub open spec fn cell_w(g: Seq<char>) -> int {
    if display_width(g) == 0 {
        1
    } else {
        display_width(g) as int
    }
}

/// Total cells of a run of graphemes (or word pieces).
pub open spec fn cell_sum(gs: Seq<Seq<char>>) -> int
    decreases gs.len(),
{
    if gs.len() == 0 {
        0
    } else {
        cell_sum(gs.drop_last()) + cell_w(gs.last())
    }
}

/// Whether the column arithmetic over the graphemes of `text` stays within
/// `usize` (true of any line that fits in memory).
pub open spec fn cells_fit(text: Seq<char>) -> bool {
    cell_sum(grapheme_split(text)) <= usize::MAX
}

/// Whether the column arithmetic over the word pieces of `text` stays
/// within `usize`.
pub open spec fn words_fit(text: Seq<char>) -> bool {
    cell_sum(word_split(text)) <= usize::MAX
}

pub proof fn lemma_cell_sum_prefix(gs: Seq<Seq<char>>, k: int)
    requires
        0 <= k <= gs.len(),
    ensures
        0 <= cell_sum(gs.take(k)) <= cell_sum(gs),
        k < gs.len() ==> cell_sum(gs.take(k + 1)) == cell_sum(gs.take(k)) + cell_w(gs[k]),
    decreases gs.len() - k,
{
    if k < gs.len() {
        assert(gs.take(k + 1).drop_last() == gs.take(k));
        assert(gs.take(k + 1).last() == gs[k]);
        lemma_cell_sum_prefix(gs, k + 1);
        lemma_cell_sum_nonneg(gs.take(k));
    } else {
        assert(gs.take(k) == gs);
        lemma_cell_sum_nonneg(gs);
    }
}

pub proof fn lemma_cell_sum_nonneg(gs: Seq<Seq<char>>)
    ensures
        cell_sum(gs) >= 0,
    decreases gs.len(),
{
    if gs.len() > 0 {
        lemma_cell_sum_nonneg(gs.drop_last());
    }
}

/// The cells of grapheme `g` (`g.width().max(1)`).
fn cells_of(g: &String) -> (w: usize)
    ensures
        w == cell_w(g@),
{
    let w = text_width(g.as_str());
    if w == 0 {
        1
    } else {
        w
    }
}

impl Selection {
    pub fn new(at: Pos, mode: SelMode) -> (s: Self)
        ensures
            s.anchor == at && s.cursor == at && s.mode == mode,
    {
        Self { anchor: at, cursor: at, mode }
    }

    /// Anchor and cursor in document order. The end is **inclusive** of the
    /// cell it names, matching vim's visual mode.
    pub fn range(&self) -> (r: (Pos, Pos))
        ensures
            r == sel_range(*self),
    {
        if self.anchor.line < self.cursor.line || (self.anchor.line == self.cursor.line
            && self.anchor.col <= self.cursor.col) {
            (self.anchor, self.cursor)
        } else {
            (self.cursor, self.anchor)
        }
    }

    /// The half-open column range `[start, end)` to paint on `line`, or `None`
    /// when the line is outside the selection. `width` is the line's rendered
    /// width, used to bound line-wise selection and end-of-line runs.
    pub fn highlight_span(&self, line: usize, width: usize) -> (res: Option<(usize, usize)>)
        requires
            self.mode == SelMode::Char ==> ({
                let (start, end) = sel_range(*self);
                start.line <= line <= end.line ==> (line < end.line ==> width < usize::MAX) && (
                line == end.line ==> end.col < usize::MAX)
            }),
        ensures
            res == highlight_of(*self, line, width),
    {
        let (start, end) = self.range();
        if line < start.line || line > end.line {
            return None;
        }
        if self.mode == SelMode::Line {
            return Some((0, if width > 1 { width } else { 1 }));
        }
        let full_end = if line < end.line { width + 1 } else { width };
        let from = if line == start.line { start.col } else { 0 };
        let to = if line == end.line {
            end.col + 1
        } else {
            full_end
        };
        if to <= from {
            return None;
        }
        Some((from, to))
    }
}

/// The painted range of `line` for selection `s` when the line is `width`
/// cells wide: whole lines (at least one cell) in line mode; in char mode
/// from the start column on the first line, through the end column (inclusive)
/// on the last, and one cell past the text on the lines in between (the
/// newline a copy includes).
pub open spec fn highlight_of(s: Selection, line: usize, width: usize) -> Option<(usize, usize)> {
    let (start, end) = sel_range(s);
    if line < start.line || line > end.line {
        None
    } else if s.mode == SelMode::Line {
        Some((0usize, if width > 1 { width } else { 1usize }))
    } else {
        let from: int = if line == start.line { start.col as int } else { 0 };
        let to: int = if line == end.line { end.col + 1 } else { width + 1 };
        if to <= from {
            None
        } else {
            Some((from as usize, to as usize))
        }
    }
}

/// The characters of the graphemes `gs[k..]` (the first starting at column
/// `col`) that start before `end` and reach past `from`.
pub open spec fn slice_from(gs: Seq<Seq<char>>, k: int, col: int, from: int, end: int) -> Seq<char>
    decreases gs.len() - k,
{
    if k < 0 || k >= gs.len() || col >= end {
        seq![]
    } else {
        let ge = col + cell_w(gs[k]);
        (if ge > from {
            gs[k]
        } else {
            seq![]
        }) + slice_from(gs, k + 1, ge, from, end)
    }
}

/// The text of `text` covering display columns `[from, to]` (`to` inclusive,
/// `None` = to end of line): every grapheme that overlaps the range.
pub open spec fn columns_slice(text: Seq<char>, from: usize, to: Option<usize>) -> Seq<char> {
    let end: int = match to {
        Some(t) => t + 1,
        None => usize::MAX as int,
    };
    if end <= from {
        seq![]
    } else {
        slice_from(grapheme_split(text), 0, 0, from as int, end)
    }
}

/// The text of `text` covering display columns `[from, to]` (`to` inclusive,
/// `None` = to end of line).
///
/// A grapheme is included when it overlaps the range at all, so a range edge
/// that falls on the second cell of a double-width character still yields that
/// whole character rather than half of it or nothing.
pub fn slice_columns(text: &str, from: usize, to: Option<usize>) -> (res: String)
    ensures
        cells_fit(text@) ==> res@ == columns_slice(text@, from, to),
{
    let empty_range = match to {
        Some(t) => t < from,
        None => from == usize::MAX,
    };
    let mut out = String::new();
    if empty_range {
        return out;
    }
    let gs = graphemes(text);
    let ghost g = gs@.map_values(|x: String| x@);
    let ghost end: int = match to {
        Some(t) => t + 1,
        None => usize::MAX as int,
    };
    let mut col: usize = 0;
    let mut k: usize = 0;
    assert(g.take(0) =~= Seq::<Seq<char>>::empty());
    while k < gs.len()
        invariant
            k <= gs@.len(),
            g == gs@.map_values(|x: String| x@),
            g == grapheme_split(text@),
            end == (match to {
                Some(t) => t + 1,
                None => usize::MAX as int,
            }),
            end > from,
            col == cell_sum(g.take(k as int)),
            cells_fit(text@) ==> slice_from(g, 0, 0, from as int, end) == out@ + slice_from(
                g,
                k as int,
                col as int,
                from as int,
                end,
            ),
        decreases gs@.len() - k,
    {
        let past = match to {
            Some(t) => col > t,
            None => col == usize::MAX,
        };
        if past {
            proof {
                assert(slice_from(g, k as int, col as int, from as int, end) == Seq::<char>::empty());
                assert(out@ + Seq::<char>::empty() =~= out@);
            }
            return out;
        }
        let w = cells_of(&gs[k]);
        proof {
            assert(g[k as int] == gs@[k as int]@);
            lemma_cell_sum_prefix(g, k as int);
            lemma_cell_sum_prefix(g, k + 1);
        }
        if col > usize::MAX - w {
            return out;
        }
        let ge = col + w;
        if ge > from {
            out.append(gs[k].as_str());
        }
        col = ge;
        k = k + 1;
    }
    out
}

/// Flatten styled lines into the plain text the clipboard and the column math
/// both work against.
pub fn plain_lines(lines: &[StyledLine]) -> (res: Vec<String>)
    ensures
        res@.len() == lines@.len(),
        forall|i: int| 0 <= i < lines@.len() ==> #[trigger] res@[i]@ == line_text(lines@[i]),
{
    let mut out: Vec<String> = Vec::new();
    let mut i: usize = 0;
    while i < lines.len()
        invariant
            i <= lines@.len(),
            out@.len() == i,
            forall|j: int| 0 <= j < i ==> #[trigger] out@[j]@ == line_text(lines@[j]),
        decreases lines@.len() - i,
    {
        let mut s = String::new();
        let spans = &lines[i].spans;
        let mut k: usize = 0;
        while k < spans.len()
            invariant
                k <= spans@.len(),
                spans@ == lines@[i as int].spans@,
                s@ == spans_text(spans@.take(k as int)),
            decreases spans@.len() - k,
        {
            assert(spans@.take(k + 1).drop_last() == spans@.take(k as int));
            s.append(spans[k].text.as_str());
            k = k + 1;
        }
        assert(spans@.take(spans@.len() as int) == spans@);
        out.push(s);
        i = i + 1;
    }
    out
}

/// The texts of `spans`, concatenated.
pub open spec fn spans_text(spans: Seq<crate::layout::StyledSpan>) -> Seq<char>
    decreases spans.len(),
{
    if spans.len() == 0 {
        seq![]
    } else {
        spans_text(spans.drop_last()) + spans.last().text@
    }
}

/// The plain text of a styled line.
pub open spec fn line_text(line: StyledLine) -> Seq<char> {
    spans_text(line.spans@)
}

/// Display width of a line, in terminal cells.
pub fn line_width(text: &str) -> (w: usize)
    ensures
        w == display_width(text@),
{
    text_width(text)
}

/// `line` clamped to the last of `n` lines.
pub open spec fn clamp_line(line: usize, n: nat) -> int {
    if line < n {
        line as int
    } else {
        n - 1
    }
}

/// `col` clamped to one past the last cell of a line `width` cells wide.
pub open spec fn clamp_col(col: usize, width: usize) -> int {
    if col <= width {
        col as int
    } else {
        width as int
    }
}

/// Keep a position inside the document: line clamped to the last line, column
/// to one past the last cell (so a caret can sit at end of line).
pub fn clamp(pos: Pos, plain: &[String]) -> (res: Pos)
    ensures
        plain@.len() == 0 ==> res.line == 0 && res.col == 0,
        plain@.len() > 0 ==> res.line == clamp_line(pos.line, plain@.len()),
        plain@.len() > 0 ==> res.col == clamp_col(pos.col, display_width(plain@[res.line as int]@)),
{
    if plain.len() == 0 {
        return Pos::default();
    }
    let line = if pos.line < plain.len() - 1 {
        pos.line
    } else {
        plain.len() - 1
    };
    let w = line_width(plain[line].as_str());
    let col = if pos.col < w {
        pos.col
    } else {
        w
    };
    Pos::new(line, col)
}

/// Glyphs drawn as structure rather than content: heading bars, list
/// bullets, blockquote rules, code-box borders.
pub open spec fn is_decoration(c: char) -> bool {
    c == '█' || c == '▌' || c == '▎' || c == '▏' || c == '│' || c == '┃' || c == '╭' || c == '╰'
        || c == '├' || c == '•' || c == '▪' || c == '◦' || c == '‣' || c == '▸' || c == '»'
}

fn decoration_char(c: char) -> (b: bool)
    ensures
        b == is_decoration(c),
{
    c == '█' || c == '▌' || c == '▎' || c == '▏' || c == '│' || c == '┃' || c == '╭' || c == '╰'
        || c == '├' || c == '•' || c == '▪' || c == '◦' || c == '‣' || c == '▸' || c == '»'
}

/// Every character of `g` is whitespace.
pub open spec fn all_space(g: Seq<char>) -> bool {
    forall|i: int| 0 <= i < g.len() ==> is_ws(#[trigger] g[i])
}

/// Every character of `g` is a decoration glyph.
pub open spec fn all_decoration(g: Seq<char>) -> bool {
    forall|i: int| 0 <= i < g.len() ==> is_decoration(#[trigger] g[i])
}

fn grapheme_all_space(g: &String) -> (b: bool)
    ensures
        b == all_space(g@),
{
    let v = crate::text::chars_of(g.as_str());
    let mut i: usize = 0;
    while i < v.len()
        invariant
            v@ == g@,
            i <= v@.len(),
            forall|j: int| 0 <= j < i ==> is_ws(#[trigger] v@[j]),
        decreases v@.len() - i,
    {
        if !crate::text::is_whitespace(v[i]) {
            return false;
        }
        i = i + 1;
    }
    true
}

fn grapheme_all_decoration(g: &String) -> (b: bool)
    ensures
        b == all_decoration(g@),
{
    let v = crate::text::chars_of(g.as_str());
    let mut i: usize = 0;
    while i < v.len()
        invariant
            v@ == g@,
            i <= v@.len(),
            forall|j: int| 0 <= j < i ==> is_decoration(#[trigger] v@[j]),
        decreases v@.len() - i,
    {
        if !decoration_char(v[i]) {
            return false;
        }
        i = i + 1;
    }
    true
}

/// Column where content starts in graphemes `gs[k..]` (the first at `col`):
/// whitespace is skipped, and so is one run of decoration glyphs.
pub open spec fn content_start_from(gs: Seq<Seq<char>>, k: int, col: int, seen: bool) -> int
    decreases gs.len() - k,
{
    if k < 0 || k >= gs.len() {
        col
    } else if all_space(gs[k]) {
        content_start_from(gs, k + 1, col + cell_w(gs[k]), seen)
    } else if all_decoration(gs[k]) && !seen {
        content_start_from(gs, k + 1, col + cell_w(gs[k]), true)
    } else {
        col
    }
}

/// The column where a rendered line's *content* starts, past the margin and
/// one decoration glyph (heading bar, bullet, quote rule).
pub fn content_start_col(text: &str) -> (c: usize)
    ensures
        cells_fit(text@) ==> c == content_start_from(grapheme_split(text@), 0, 0, false),
{
    let gs = graphemes(text);
    let ghost g = gs@.map_values(|x: String| x@);
    let mut col: usize = 0;
    let mut seen = false;
    let mut k: usize = 0;
    assert(g.take(0) =~= Seq::<Seq<char>>::empty());
    while k < gs.len()
        invariant
            k <= gs@.len(),
            g == gs@.map_values(|x: String| x@),
            g == grapheme_split(text@),
            col == cell_sum(g.take(k as int)),
            content_start_from(g, 0, 0, false) == content_start_from(g, k as int, col as int, seen),
        decreases gs@.len() - k,
    {
        let w = cells_of(&gs[k]);
        proof {
            assert(g[k as int] == gs@[k as int]@);
            lemma_cell_sum_prefix(g, k as int);
            lemma_cell_sum_prefix(g, k + 1);
        }
        if grapheme_all_space(&gs[k]) {
        } else if grapheme_all_decoration(&gs[k]) && !seen {
            seen = true;
        } else {
            return col;
        }
        if col > usize::MAX - w {
            return col;
        }
        col = col + w;
        k = k + 1;
    }
    col
}

/// Start column of the grapheme covering `col` in graphemes `gs[k..]` (the
/// first at `at`), or the end of the line.
pub open spec fn snap_from(gs: Seq<Seq<char>>, k: int, at: int, col: int) -> int
    decreases gs.len() - k,
{
    if k < 0 || k >= gs.len() {
        at
    } else if col < at + cell_w(gs[k]) {
        at
    } else {
        snap_from(gs, k + 1, at + cell_w(gs[k]), col)
    }
}

/// Snap a column to the leading edge of the grapheme covering it.
///
/// A click on the right half of a wide character must select that character,
/// not the gap after it.
pub fn snap_col(text: &str, col: usize) -> (c: usize)
    ensures
        cells_fit(text@) ==> c == snap_from(grapheme_split(text@), 0, 0, col as int),
{
    let gs = graphemes(text);
    let ghost g = gs@.map_values(|x: String| x@);
    let mut at: usize = 0;
    let mut k: usize = 0;
    assert(g.take(0) =~= Seq::<Seq<char>>::empty());
    while k < gs.len()
        invariant
            k <= gs@.len(),
            g == gs@.map_values(|x: String| x@),
            g == grapheme_split(text@),
            at == cell_sum(g.take(k as int)),
            snap_from(g, 0, 0, col as int) == snap_from(g, k as int, at as int, col as int),
        decreases gs@.len() - k,
    {
        let w = cells_of(&gs[k]);
        proof {
            assert(g[k as int] == gs@[k as int]@);
            lemma_cell_sum_prefix(g, k as int);
            lemma_cell_sum_prefix(g, k + 1);
        }
        if at > usize::MAX - w {
            return at;
        }
        if col < at + w {
            return at;
        }
        at = at + w;
        k = k + 1;
    }
    at
}


/// Columns `[start, end]` of the piece covering `col` among word pieces
/// `ws[k..]` (the first starting at `at`); `(col, col)` when none does.
pub open spec fn word_bounds_from(ws: Seq<Seq<char>>, k: int, at: int, col: int) -> (int, int)
    decreases ws.len() - k,
{
    if k < 0 || k >= ws.len() {
        (col, col)
    } else if at <= col && col <= at + cell_w(ws[k]) - 1 {
        (at, at + cell_w(ws[k]) - 1)
    } else {
        word_bounds_from(ws, k + 1, at + cell_w(ws[k]), col)
    }
}

/// Columns `[start, end]` (end inclusive) of the word under `col`.
///
/// Falls back to the run of whitespace when the click landed between words
/// (whitespace runs are pieces of their own), so a double-click always
/// selects *something* visible.
pub fn word_bounds(text: &str, col: usize) -> (r: (usize, usize))
    ensures
        words_fit(text@) ==> (r.0 as int, r.1 as int) == word_bounds_from(
            word_split(text@),
            0,
            0,
            col as int,
        ),
{
    let ws = word_pieces(text);
    let ghost g = ws@.map_values(|x: String| x@);
    let mut at: usize = 0;
    let mut k: usize = 0;
    assert(g.take(0) =~= Seq::<Seq<char>>::empty());
    while k < ws.len()
        invariant
            k <= ws@.len(),
            g == ws@.map_values(|x: String| x@),
            g == word_split(text@),
            at == cell_sum(g.take(k as int)),
            word_bounds_from(g, 0, 0, col as int) == word_bounds_from(g, k as int, at as int, col as int),
        decreases ws@.len() - k,
    {
        let w = cells_of(&ws[k]);
        proof {
            assert(g[k as int] == ws@[k as int]@);
            lemma_cell_sum_prefix(g, k as int);
            lemma_cell_sum_prefix(g, k + 1);
        }
        if at > usize::MAX - w {
            return (col, col);
        }
        if at <= col && col <= at + w - 1 {
            return (at, at + w - 1);
        }
        at = at + w;
        k = k + 1;
    }
    (col, col)
}

/// Start column of the first non-blank piece among word pieces `ws[k..]`
/// (the first starting at `at`) that starts after `col`; `width` when none
/// does.
pub open spec fn next_word_from(ws: Seq<Seq<char>>, k: int, at: int, col: int, width: int) -> int
    decreases ws.len() - k,
{
    if k < 0 || k >= ws.len() {
        width
    } else if at > col && !all_space(ws[k]) {
        at
    } else {
        next_word_from(ws, k + 1, at + cell_w(ws[k]), col, width)
    }
}

/// Start column of the word after `col`, or end of line.
pub fn next_word_col(text: &str, col: usize) -> (c: usize)
    ensures
        words_fit(text@) ==> c == next_word_from(
            word_split(text@),
            0,
            0,
            col as int,
            display_width(text@) as int,
        ),
{
    let ws = word_pieces(text);
    let ghost g = ws@.map_values(|x: String| x@);
    let ghost width = display_width(text@) as int;
    let mut at: usize = 0;
    let mut k: usize = 0;
    assert(g.take(0) =~= Seq::<Seq<char>>::empty());
    while k < ws.len()
        invariant
            k <= ws@.len(),
            g == ws@.map_values(|x: String| x@),
            g == word_split(text@),
            width == display_width(text@) as int,
            at == cell_sum(g.take(k as int)),
            next_word_from(g, 0, 0, col as int, width) == next_word_from(
                g,
                k as int,
                at as int,
                col as int,
                width,
            ),
        decreases ws@.len() - k,
    {
        proof {
            assert(g[k as int] == ws@[k as int]@);
            lemma_cell_sum_prefix(g, k as int);
            lemma_cell_sum_prefix(g, k + 1);
        }
        if at > col && !grapheme_all_space(&ws[k]) {
            return at;
        }
        let w = cells_of(&ws[k]);
        if at > usize::MAX - w {
            return line_width(text);
        }
        at = at + w;
        k = k + 1;
    }
    line_width(text)
}

/// Start column of the last non-blank piece among word pieces `ws[k..]` (the
/// first starting at `at`) that starts before `col`; `best` when none does.
pub open spec fn prev_word_from(ws: Seq<Seq<char>>, k: int, at: int, col: int, best: int) -> int
    decreases ws.len() - k,
{
    if k < 0 || k >= ws.len() || at >= col {
        best
    } else {
        prev_word_from(
            ws,
            k + 1,
            at + cell_w(ws[k]),
            col,
            if all_space(ws[k]) {
                best
            } else {
                at
            },
        )
    }
}

/// Start column of the word before `col`, or 0.
pub fn prev_word_col(text: &str, col: usize) -> (c: usize)
    ensures
        words_fit(text@) ==> c == prev_word_from(word_split(text@), 0, 0, col as int, 0),
{
    let ws = word_pieces(text);
    let ghost g = ws@.map_values(|x: String| x@);
    let mut at: usize = 0;
    let mut best: usize = 0;
    let mut k: usize = 0;
    assert(g.take(0) =~= Seq::<Seq<char>>::empty());
    while k < ws.len()
        invariant
            k <= ws@.len(),
            g == ws@.map_values(|x: String| x@),
            g == word_split(text@),
            at == cell_sum(g.take(k as int)),
            prev_word_from(g, 0, 0, col as int, 0) == prev_word_from(
                g,
                k as int,
                at as int,
                col as int,
                best as int,
            ),
        decreases ws@.len() - k,
    {
        if at >= col {
            return best;
        }
        proof {
            assert(g[k as int] == ws@[k as int]@);
            lemma_cell_sum_prefix(g, k as int);
            lemma_cell_sum_prefix(g, k + 1);
        }
        if !grapheme_all_space(&ws[k]) {
            best = at;
        }
        let w = cells_of(&ws[k]);
        if at > usize::MAX - w {
            return best;
        }
        at = at + w;
        k = k + 1;
    }
    best
}


/// End of the run of whitespace in `s` that starts at `i`.
pub open spec fn ws_run_from(s: Seq<char>, i: int) -> int
    decreases s.len() - i,
{
    if 0 <= i < s.len() && is_ws(s[i]) {
        ws_run_from(s, i + 1)
    } else {
        i
    }
}

/// The leading whitespace of `s`.
pub open spec fn leading_ws(s: Seq<char>) -> Seq<char> {
    s.take(ws_run_from(s, 0))
}

/// End of the stretch from `i` on where `a` and `b` agree.
pub open spec fn agree_from(a: Seq<char>, b: Seq<char>, i: int) -> int
    decreases a.len() - i,
{
    if 0 <= i < a.len() && i < b.len() && a[i] == b[i] {
        agree_from(a, b, i + 1)
    } else {
        i
    }
}

/// The whitespace prefix that every non-empty line of `ls` starts with (the
/// longest common prefix of their leading whitespace), or `None` when every
/// line is empty.
pub open spec fn shared_indent(ls: Seq<Seq<char>>) -> Option<Seq<char>>
    decreases ls.len(),
{
    if ls.len() == 0 {
        None
    } else {
        let rest = shared_indent(ls.drop_last());
        let l = ls.last();
        if l.len() == 0 {
            rest
        } else {
            match rest {
                None => Some(leading_ws(l)),
                Some(c) => Some(c.take(agree_from(c, leading_ws(l), 0))),
            }
        }
    }
}

/// Number of characters the shared indent of `ls` takes.
pub open spec fn indent_width(ls: Seq<Seq<char>>) -> int {
    match shared_indent(ls) {
        None => 0,
        Some(p) => p.len() as int,
    }
}

/// `l` without its first `n` characters (empty when it has no more).
pub open spec fn drop_chars(l: Seq<char>, n: int) -> Seq<char> {
    if n >= l.len() {
        seq![]
    } else {
        l.subrange(n, l.len() as int)
    }
}

/// Each line of `ls` with the shared indent taken off.
pub open spec fn dedented(ls: Seq<Seq<char>>) -> Seq<Seq<char>> {
    Seq::new(ls.len(), |i: int| drop_chars(ls[i], indent_width(ls)))
}

/// Length of the leading whitespace of `v`.
fn leading_ws_len(v: &Vec<char>) -> (n: usize)
    ensures
        n == ws_run_from(v@, 0),
        n <= v@.len(),
{
    let mut i: usize = 0;
    while i < v.len() && crate::text::is_whitespace(v[i])
        invariant
            i <= v@.len(),
            ws_run_from(v@, 0) == ws_run_from(v@, i as int),
        decreases v@.len() - i,
    {
        i = i + 1;
    }
    i
}

/// Length of the common prefix of `a` and `b[..bn]`.
fn agree_len(a: &Vec<char>, b: &Vec<char>, bn: usize) -> (n: usize)
    requires
        bn <= b@.len(),
    ensures
        n == agree_from(a@, b@.take(bn as int), 0),
        n <= a@.len(),
{
    let ghost bt = b@.take(bn as int);
    let mut i: usize = 0;
    while i < a.len() && i < bn && a[i] == b[i]
        invariant
            bn <= b@.len(),
            bt == b@.take(bn as int),
            i <= a@.len(),
            i <= bn,
            agree_from(a@, bt, 0) == agree_from(a@, bt, i as int),
        decreases a@.len() - i,
    {
        i = i + 1;
    }
    i
}

/// Strip the leading-whitespace prefix that every non-empty line shares.
///
/// Compared character by character, not by byte count: leading whitespace is
/// not always one byte wide (U+00A0, U+3000), and matching the actual prefix
/// (rather than counting whitespace) means a document's own indentation
/// survives when it uses a different space character than the centering
/// margin.
fn dedent(lines: Vec<String>) -> (res: Vec<String>)
    ensures
        res@.map_values(|x: String| x@) == dedented(lines@.map_values(|x: String| x@)),
{
    let ghost ls = lines@.map_values(|x: String| x@);
    let mut prefix: Vec<char> = Vec::new();
    let mut have = false;
    let mut i: usize = 0;
    while i < lines.len()
        invariant
            i <= lines@.len(),
            ls == lines@.map_values(|x: String| x@),
            have ==> shared_indent(ls.take(i as int)) == Some(prefix@),
            !have ==> shared_indent(ls.take(i as int)) is None,
        decreases lines@.len() - i,
    {
        proof {
            assert(ls.take(i + 1).drop_last() =~= ls.take(i as int));
            assert(ls.take(i + 1).last() == lines@[i as int]@);
        }
        let cs = crate::text::chars_of(lines[i].as_str());
        if cs.len() > 0 {
            let n = leading_ws_len(&cs);
            if !have {
                prefix = crate::text::sub_vec(&cs, 0, n);
                have = true;
            } else {
                let m = agree_len(&prefix, &cs, n);
                prefix = crate::text::sub_vec(&prefix, 0, m);
            }
        }
        i = i + 1;
    }
    assert(ls.take(lines@.len() as int) =~= ls);
    let indent: usize = if have {
        prefix.len()
    } else {
        0
    };
    let mut out: Vec<String> = Vec::new();
    let mut j: usize = 0;
    while j < lines.len()
        invariant
            j <= lines@.len(),
            ls == lines@.map_values(|x: String| x@),
            indent == indent_width(ls),
            out@.len() == j,
            forall|t: int| 0 <= t < j ==> #[trigger] out@[t]@ == drop_chars(ls[t], indent as int),
        decreases lines@.len() - j,
    {
        let cs = crate::text::chars_of(lines[j].as_str());
        if indent >= cs.len() {
            out.push(String::new());
        } else {
            out.push(crate::text::string_from(&cs, indent, cs.len()));
        }
        j = j + 1;
    }
    assert(out@.map_values(|x: String| x@) =~= dedented(ls));
    out
}

/// What a copy of the selection `[start, end]` takes from line `line`: the
/// whole line in line mode, the overlapped graphemes in char mode; trailing
/// whitespace dropped either way.
pub open spec fn piece_of(start: Pos, end: Pos, mode: SelMode, plain: Seq<Seq<char>>, line: int) -> Seq<char> {
    if mode == SelMode::Line {
        trim_end(plain[line])
    } else {
        let from: usize = if line == start.line {
            start.col
        } else {
            0
        };
        let to: Option<usize> = if line == end.line {
            Some(end.col)
        } else {
            None
        };
        trim_end(columns_slice(plain[line], from, to))
    }
}

/// The pieces of the lines from `start.line` through `end.line` (or the last
/// line of the document, whichever comes first).
pub open spec fn selected_pieces(start: Pos, end: Pos, mode: SelMode, plain: Seq<Seq<char>>) -> Seq<Seq<char>> {
    let last: int = if end.line < plain.len() {
        end.line as int
    } else {
        plain.len() - 1
    };
    Seq::new((last - start.line + 1) as nat, |i: int| piece_of(start, end, mode, plain, start.line + i))
}

/// The text a copy of `[start, end]` yields: nothing when the selection
/// starts past the document; else the pieces joined with `\n`, dedented by
/// their shared indent in line mode.
pub open spec fn extract_range(start: Pos, end: Pos, mode: SelMode, plain: Seq<Seq<char>>) -> Seq<char> {
    if plain.len() == 0 || start.line >= plain.len() {
        seq![]
    } else if mode == SelMode::Line {
        join_lines(dedented(selected_pieces(start, end, mode, plain)))
    } else {
        join_lines(selected_pieces(start, end, mode, plain))
    }
}

/// The text the selection `s` copies from the document `plain`.
pub open spec fn extracted(s: Selection, plain: Seq<Seq<char>>) -> Seq<char> {
    extract_range(sel_range(s).0, sel_range(s).1, s.mode, plain)
}

impl Selection {
    /// The selected text, ready for the clipboard.
    ///
    /// `plain` is the document's per-line text (see [`plain_lines`]). Trailing
    /// padding is dropped from every line. Line-wise selections are dedented by
    /// their common leading whitespace, which strips the centering margin
    /// while preserving the relative indentation of code and nested lists.
    pub fn extract(&self, plain: &[String]) -> (res: String)
        ensures
            (forall|i: int| 0 <= i < plain@.len() ==> cells_fit(#[trigger] plain@[i]@)) ==> res@
                == extracted(*self, plain@.map_values(|x: String| x@)),
    {
        let ghost ps = plain@.map_values(|x: String| x@);
        let (start, end) = self.range();
        if plain.len() == 0 || start.line >= plain.len() {
            return String::new();
        }
        let last = if end.line < plain.len() {
            end.line
        } else {
            plain.len() - 1
        };
        let ghost pieces = selected_pieces(start, end, self.mode, ps);
        let mut out: Vec<String> = Vec::new();
        let mut line = start.line;
        while line <= last
            invariant
                start.line <= line <= last + 1,
                last < plain@.len(),
                (start, end) == sel_range(*self),
                ps == plain@.map_values(|x: String| x@),
                pieces == selected_pieces(start, end, self.mode, ps),
                pieces.len() == last - start.line + 1,
                out@.len() == line - start.line,
                (forall|i: int| 0 <= i < plain@.len() ==> cells_fit(#[trigger] plain@[i]@)) ==> (
                forall|t: int| 0 <= t < out@.len() ==> #[trigger] out@[t]@ == pieces[t]),
            decreases last + 1 - line,
        {
            let piece = match self.mode {
                SelMode::Line => crate::text::trimmed_end(plain[line].as_str()),
                SelMode::Char => {
                    let from = if line == start.line {
                        start.col
                    } else {
                        0
                    };
                    let to = if line == end.line {
                        Some(end.col)
                    } else {
                        None
                    };
                    let sliced = slice_columns(plain[line].as_str(), from, to);
                    crate::text::trimmed_end(sliced.as_str())
                },
            };
            proof {
                assert(ps[line as int] == plain@[line as int]@);
            }
            out.push(piece);
            line = line + 1;
        }
        proof {
            if forall|i: int| 0 <= i < plain@.len() ==> cells_fit(#[trigger] plain@[i]@) {
                assert(out@.map_values(|x: String| x@) =~= pieces);
            }
        }
        if self.mode == SelMode::Line {
            let d = dedent(out);
            crate::text::join_with_newline(&d)
        } else {
            crate::text::join_with_newline(&out)
        }
    }
}

/// The selection with anchor and cursor exchanged.
pub open spec fn swapped(s: Selection) -> Selection {
    Selection { anchor: s.cursor, cursor: s.anchor, mode: s.mode }
}

/// A selection paints and copies the same text whichever end the drag
/// started from: swapping anchor and cursor changes neither the highlighted
/// range of any line nor the extracted text.
pub proof fn law_selection_direction_agnostic(s: Selection, plain: Seq<Seq<char>>)
    ensures
        extracted(s, plain) == extracted(swapped(s), plain),
        forall|line: usize, width: usize|
            #[trigger] highlight_of(s, line, width) == highlight_of(swapped(s), line, width),
{
    assert(sel_range(s) == sel_range(swapped(s)));
}


/// `trim_end` leaves no whitespace at the end.
proof fn lemma_trim_end_clean(t: Seq<char>)
    ensures
        trim_end(t).len() == 0 || !is_ws(trim_end(t).last()),
    decreases t.len(),
{
    if t.len() > 0 && is_ws(t.last()) {
        lemma_trim_end_clean(t.drop_last());
    }
}

/// The lines a copy of `s` joins: the selected piece of each line from the
/// first to the last selected (or the document's last), dedented in line
/// mode.
pub open spec fn copied_pieces(s: Selection, plain: Seq<Seq<char>>) -> Seq<Seq<char>> {
    let p = selected_pieces(sel_range(s).0, sel_range(s).1, s.mode, plain);
    if s.mode == SelMode::Line {
        dedented(p)
    } else {
        p
    }
}

/// A copy that starts inside the document is one piece per selected line,
/// from the first selected line to the last (or to the document's end),
/// joined with newlines, and no piece ends in whitespace.
pub proof fn law_selection_copies_clean_lines(s: Selection, plain: Seq<Seq<char>>)
    requires
        plain.len() > 0,
        sel_range(s).0.line < plain.len(),
    ensures
        extracted(s, plain) == join_lines(copied_pieces(s, plain)),
        copied_pieces(s, plain).len() == (if sel_range(s).1.line < plain.len() {
            sel_range(s).1.line as int
        } else {
            plain.len() - 1
        }) - sel_range(s).0.line + 1,
        forall|i: int|
            0 <= i < copied_pieces(s, plain).len() ==> (#[trigger] copied_pieces(s, plain)[i]).len() == 0
                || !is_ws(copied_pieces(s, plain)[i].last()),
{
    let (a, b) = sel_range(s);
    let p = selected_pieces(a, b, s.mode, plain);
    assert forall|i: int| 0 <= i < p.len() implies (#[trigger] p[i]).len() == 0 || !is_ws(p[i].last()) by {
        let line = a.line + i;
        if s.mode == SelMode::Line {
            lemma_trim_end_clean(plain[line]);
        } else {
            let from: usize = if line == a.line {
                a.col
            } else {
                0
            };
            let to: Option<usize> = if line == b.line {
                Some(b.col)
            } else {
                None
            };
            lemma_trim_end_clean(columns_slice(plain[line], from, to));
        }
    }
    if s.mode == SelMode::Line {
        let d = dedented(p);
        assert forall|i: int| 0 <= i < d.len() implies (#[trigger] d[i]).len() == 0 || !is_ws(d[i].last()) by {
            assert(p[i].len() == 0 || !is_ws(p[i].last()));
            let n = indent_width(p);
            if n < p[i].len() {
                assert(d[i] == p[i].subrange(n, p[i].len() as int));
                assert(d[i].last() == p[i].last());
            }
        }
    }
}
} // verus!
