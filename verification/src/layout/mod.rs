//! Styled lines: the laid-out form of a document, ready for display, and the
//! line-level steps of layout (wrapping, merging, sanitizing).
pub mod blocks;
pub mod lines;
pub mod tag;
pub mod wrap;

pub use wrap::{coalesce_line, split_by_width, wrap_code_spans, wrap_spans};

use crate::unicode::{display_width, text_width};
use vstd::prelude::*;

verus! {

/// A rendered line of styled text, ready for display.
#[derive(Debug, Clone)]
pub struct StyledLine {
    pub spans: Vec<StyledSpan>,
}

/// A run of text in one style.
#[derive(Debug, Clone)]
pub struct StyledSpan {
    pub text: String,
    pub style: SpanStyle,
}

/// How a span is drawn: colors as `#rrggbb` strings, text attributes, and an
/// optional hyperlink destination.
#[derive(Debug, Clone, PartialEq)]
pub struct SpanStyle {
    pub fg: Option<String>,
    pub bg: Option<String>,
    pub bold: bool,
    pub italic: bool,
    pub underline: bool,
    pub strikethrough: bool,
    pub dim: bool,
    pub link_url: Option<String>,
}

/// The plain style: no colors, no attributes, no link.
pub open spec fn plain_style(s: SpanStyle) -> bool {
    s.fg is None && s.bg is None && !s.bold && !s.italic && !s.underline && !s.strikethrough
        && !s.dim && s.link_url is None
}

impl Default for SpanStyle {
    fn default() -> (s: Self)
        ensures
            plain_style(s),
    {
        SpanStyle {
            fg: None,
            bg: None,
            bold: false,
            italic: false,
            underline: false,
            strikethrough: false,
            dim: false,
            link_url: None,
        }
    }
}

impl Default for StyledLine {
    fn default() -> (l: Self)
        ensures
            l.spans@.len() == 0,
    {
        Self::new()
    }
}

/// Total display width of `spans` (the sum of their texts' widths).
pub open spec fn spans_width(spans: Seq<StyledSpan>) -> int
    decreases spans.len(),
{
    if spans.len() == 0 {
        0
    } else {
        spans_width(spans.drop_last()) + display_width(spans.last().text@)
    }
}

impl StyledLine {
    /// An empty line.
    pub fn new() -> (l: Self)
        ensures
            l.spans@.len() == 0,
    {
        Self { spans: Vec::new() }
    }

    /// Appends `span`.
    pub fn push(&mut self, span: StyledSpan)
        ensures
            final(self).spans@ == old(self).spans@.push(span),
    {
        self.spans.push(span);
    }

    /// A line holding `text` as one plain span.
    pub fn plain(text: &str) -> (l: Self)
        ensures
            l.spans@.len() == 1,
            l.spans@[0].text@ == text@,
            plain_style(l.spans@[0].style),
    {
        let t = crate::text::string_from(&crate::text::chars_of(text), 0, text.unicode_len());
        Self { spans: vec![StyledSpan { text: t, style: SpanStyle::default() }] }
    }

    /// An empty line.
    pub fn empty() -> (l: Self)
        ensures
            l.spans@.len() == 0,
    {
        Self { spans: Vec::new() }
    }

    /// Display width of the line, in terminal cells. (Exact whenever the sum
    /// fits in a `usize`; the sum overflowing is out of the question for any
    /// text that fits in memory.)
    pub fn width(&self) -> (w: usize)
        ensures
            spans_width(self.spans@) <= usize::MAX ==> w == spans_width(self.spans@),
    {
        let mut total: usize = 0;
        let mut fits = true;
        let mut i: usize = 0;
        while i < self.spans.len()
            invariant
                i <= self.spans@.len(),
                fits ==> total == spans_width(self.spans@.take(i as int)),
                !fits ==> spans_width(self.spans@.take(i as int)) > usize::MAX,
            decreases self.spans@.len() - i,
        {
            let w = text_width(self.spans[i].text.as_str());
            assert(self.spans@.take(i + 1).drop_last() == self.spans@.take(i as int));
            proof {
                lemma_spans_width_nonneg(self.spans@.take(i as int));
            }
            if fits {
                match total.checked_add(w) {
                    Some(t) => {
                        total = t;
                    },
                    None => {
                        fits = false;
                    },
                }
            }
            i = i + 1;
        }
        assert(self.spans@.take(self.spans@.len() as int) == self.spans@);
        total
    }
}

pub proof fn lemma_spans_width_nonneg(spans: Seq<StyledSpan>)
    ensures
        spans_width(spans) >= 0,
    decreases spans.len(),
{
    if spans.len() > 0 {
        lemma_spans_width_nonneg(spans.drop_last());
    }
}


/// The text of an optional string, by view.
pub open spec fn opt_text(o: Option<String>) -> Option<Seq<char>> {
    match o {
        Some(s) => Some(s@),
        None => None,
    }
}

/// A style as it draws: its colors and link destination by text, and its
/// attributes.
pub struct StyleView {
    pub fg: Option<Seq<char>>,
    pub bg: Option<Seq<char>>,
    pub bold: bool,
    pub italic: bool,
    pub underline: bool,
    pub strikethrough: bool,
    pub dim: bool,
    pub link_url: Option<Seq<char>>,
}

/// How `s` draws.
pub open spec fn style_view(s: SpanStyle) -> StyleView {
    StyleView {
        fg: opt_text(s.fg),
        bg: opt_text(s.bg),
        bold: s.bold,
        italic: s.italic,
        underline: s.underline,
        strikethrough: s.strikethrough,
        dim: s.dim,
        link_url: opt_text(s.link_url),
    }
}

/// Two styles draw the same: equal attributes, and equal colors and link
/// destinations by text.
pub open spec fn style_eq(a: SpanStyle, b: SpanStyle) -> bool {
    style_view(a) == style_view(b)
}

/// A span as text and style.
pub open spec fn span_view(s: StyledSpan) -> (Seq<char>, StyleView) {
    (s.text@, style_view(s.style))
}

/// The spans of a line as texts and styles.
pub open spec fn line_view(l: StyledLine) -> Seq<(Seq<char>, StyleView)> {
    l.spans@.map_values(|s: StyledSpan| span_view(s))
}

/// The concatenated texts of a run of spans.
pub open spec fn texts_of(spans: Seq<(Seq<char>, StyleView)>) -> Seq<char>
    decreases spans.len(),
{
    if spans.len() == 0 {
        seq![]
    } else {
        texts_of(spans.drop_last()) + spans.last().0
    }
}

fn same_text(a: &Option<String>, b: &Option<String>) -> (r: bool)
    ensures
        r == (opt_text(*a) == opt_text(*b)),
{
    match (a, b) {
        (Some(x), Some(y)) => *x == *y,
        (None, None) => true,
        _ => false,
    }
}

/// Whether `a` and `b` draw the same (field by field).
pub fn same_style(a: &SpanStyle, b: &SpanStyle) -> (r: bool)
    ensures
        r == style_eq(*a, *b),
{
    same_text(&a.fg, &b.fg) && same_text(&a.bg, &b.bg) && a.bold == b.bold && a.italic
        == b.italic && a.underline == b.underline && a.strikethrough == b.strikethrough && a.dim
        == b.dim && same_text(&a.link_url, &b.link_url)
}

fn dup_text(o: &Option<String>) -> (r: Option<String>)
    ensures
        r == *o,
{
    match o {
        Some(s) => Some(s.clone()),
        None => None,
    }
}

impl SpanStyle {
    /// A copy of this style.
    pub fn dup(&self) -> (s: Self)
        ensures
            s == *self,
    {
        SpanStyle {
            fg: dup_text(&self.fg),
            bg: dup_text(&self.bg),
            bold: self.bold,
            italic: self.italic,
            underline: self.underline,
            strikethrough: self.strikethrough,
            dim: self.dim,
            link_url: dup_text(&self.link_url),
        }
    }
}

impl StyledSpan {
    /// A copy of this span.
    pub fn dup(&self) -> (s: Self)
        ensures
            s == *self,
    {
        StyledSpan { text: self.text.clone(), style: self.style.dup() }
    }
}

impl StyledLine {
    /// A copy of this line.
    pub fn dup(&self) -> (l: Self)
        ensures
            l.spans@ == self.spans@,
    {
        let mut spans: Vec<StyledSpan> = Vec::new();
        let mut i: usize = 0;
        while i < self.spans.len()
            invariant
                i <= self.spans@.len(),
                spans@ == self.spans@.take(i as int),
            decreases self.spans@.len() - i,
        {
            spans.push(self.spans[i].dup());
            assert(spans@ =~= self.spans@.take(i + 1));
            i = i + 1;
        }
        assert(self.spans@.take(self.spans@.len() as int) =~= self.spans@);
        StyledLine { spans }
    }
}

/// How the style `SpanStyle::default()` builds draws: no colors, no
/// attributes, no link.
pub open spec fn default_style() -> StyleView {
    StyleView {
        fg: None,
        bg: None,
        bold: false,
        italic: false,
        underline: false,
        strikethrough: false,
        dim: false,
        link_url: None,
    }
}

/// `n` spaces.
pub open spec fn spaces(n: nat) -> Seq<char> {
    Seq::new(n, |i: int| ' ')
}

/// A `String` of `n` spaces (`" ".repeat(n)`).
pub fn space_run(n: usize) -> (s: String)
    ensures
        s@ == spaces(n as nat),
{
    let mut s = String::new();
    let mut i: usize = 0;
    while i < n
        invariant
            i <= n,
            s@ == spaces(i as nat),
        decreases n - i,
    {
        crate::text::push_char(&mut s, ' ');
        assert(spaces((i + 1) as nat) =~= spaces(i as nat).push(' '));
        i = i + 1;
    }
    s
}

/// A span of `n` spaces in the plain style.
pub fn pad_span(n: usize) -> (s: StyledSpan)
    ensures
        s.text@ == spaces(n as nat),
        style_view(s.style) == default_style(),
{
    StyledSpan { text: space_run(n), style: SpanStyle::default() }
}
} // verus!
