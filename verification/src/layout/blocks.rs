//! Laying out a parsed markdown document: the document tree, the spans its
//! inline content becomes, and the lines each block takes.
use super::lines::{
    line_safe, piece_view, renders_all, sanitize_lines, sanitized_line, split_text_with_urls, trim_blank,
    trim_trailing_blank, url_pieces,
};
use super::tag::{img_attr, img_attrs, is_img};
use super::wrap::{
    all_text, all_words, char_cells, code_lines, law_wrapping_keeps_text, lemma_all_text_push, lemma_nonspace_concat,
    lines_view, nonspace, spans_view, words_whole, wrap_code_spans, wrap_spans, wrapped_lines,
};
use super::{line_view, pad_span, space_run};
use super::{default_style, span_view, spaces, style_view, texts_of, SpanStyle, StyleView, StyledLine, StyledSpan};
use crate::cli::Spacing;
use crate::image::{halfblock, render_halfblock, ImageLoad, ImageMode, Picture};
use crate::graphics::{image_cols, image_rows};
use crate::highlight::{bundled_theme, code_highlight, highlight_view};
use crate::render::decimal;
use crate::text::{first_index, is_ws, line_len, lines_of, lower_seq, trim, trim_start, unicode_upper};
use crate::theme::{Theme, ThemeColors};
use crate::unicode::display_width;
use vstd::prelude::*;

verus! {

broadcast use vstd::std_specs::vec::group_vec_axioms;

/// Bullet or numbered list.
#[derive(Debug, Clone, Copy, PartialEq, Eq, Structural)]
pub enum ListKind {
    Bullet,
    Ordered,
}

/// A node of the parsed document. Containers hold their children in order;
/// leaves hold their literal text.
#[derive(Debug)]
pub enum Node {
    Document(Vec<Node>),
    /// A heading of level 1 to 6, and the (1-based) source line it starts on.
    Heading(u8, Vec<Node>, usize),
    Paragraph(Vec<Node>),
    /// A fenced or indented code block: its info string and its text.
    CodeBlock(String, String),
    BlockQuote(Vec<Node>),
    /// A list: its kind, the number of its first item, its items.
    List(ListKind, usize, Vec<Node>),
    Item(Vec<Node>),
    /// A task-list item: its check mark (`None` when unchecked).
    TaskItem(Option<char>, Vec<Node>),
    ThematicBreak,
    /// A table, row by row, each row its cells.
    Table(Vec<Node>),
    SoftBreak,
    LineBreak,
    HtmlBlock(String),
    /// A footnote's definition: its name and content.
    FootnoteDefinition(String, Vec<Node>),
    Text(String),
    Code(String),
    Emph(Vec<Node>),
    Strong(Vec<Node>),
    Strikethrough(Vec<Node>),
    /// A link: its destination and its text.
    Link(String, Vec<Node>),
    /// An image: its source, its alt text, and what loading it gave when it
    /// stands alone in its paragraph.
    Image(String, Vec<Node>, ImageLoad),
    FootnoteReference(String),
    Math(String),
    /// An emoji shortcode, already resolved to its glyph.
    ShortCode(String),
    HtmlInline(String),
    /// Any other node: only its children count.
    Other(Vec<Node>),
}

/// The children of a node (none for a leaf).
pub open spec fn kids(n: Node) -> Seq<Node> {
    match n {
        Node::Document(c) => c@,
        Node::Heading(_, c, _) => c@,
        Node::Paragraph(c) => c@,
        Node::BlockQuote(c) => c@,
        Node::List(_, _, c) => c@,
        Node::Item(c) => c@,
        Node::TaskItem(_, c) => c@,
        Node::Table(c) => c@,
        Node::FootnoteDefinition(_, c) => c@,
        Node::Emph(c) => c@,
        Node::Strong(c) => c@,
        Node::Strikethrough(c) => c@,
        Node::Link(_, c) => c@,
        Node::Image(_, c, _) => c@,
        Node::Other(c) => c@,
        _ => seq![],
    }
}

/// A node that cannot hold children.
pub open spec fn is_leaf(n: Node) -> bool {
    match n {
        Node::CodeBlock(..) | Node::ThematicBreak | Node::SoftBreak | Node::LineBreak | Node::HtmlBlock(..)
        | Node::Text(..) | Node::Code(..) | Node::FootnoteReference(..) | Node::Math(..) | Node::ShortCode(..)
        | Node::HtmlInline(..) => true,
        _ => false,
    }
}

/// A node's children come before it in the well-founded order recursion
/// over the tree follows.
pub proof fn lemma_kids_decrease(n: Node)
    ensures
        !is_leaf(n) ==> decreases_to!(n => kids(n)),
{
    match n {
        Node::Document(c) => assert(decreases_to!(c => c@)),
        Node::Heading(_, c, _) => assert(decreases_to!(c => c@)),
        Node::Paragraph(c) => assert(decreases_to!(c => c@)),
        Node::BlockQuote(c) => assert(decreases_to!(c => c@)),
        Node::List(_, _, c) => assert(decreases_to!(c => c@)),
        Node::Item(c) => assert(decreases_to!(c => c@)),
        Node::TaskItem(_, c) => assert(decreases_to!(c => c@)),
        Node::Table(c) => assert(decreases_to!(c => c@)),
        Node::FootnoteDefinition(_, c) => assert(decreases_to!(c => c@)),
        Node::Emph(c) => assert(decreases_to!(c => c@)),
        Node::Strong(c) => assert(decreases_to!(c => c@)),
        Node::Strikethrough(c) => assert(decreases_to!(c => c@)),
        Node::Link(_, c) => assert(decreases_to!(c => c@)),
        Node::Image(_, c, _) => assert(decreases_to!(c => c@)),
        Node::Other(c) => assert(decreases_to!(c => c@)),
        _ => {},
    }
}

/// The plain text under the nodes `ns`: every text leaf, in document order.
pub open spec fn child_text(ns: Seq<Node>) -> Seq<char>
    decreases ns,
{
    if ns.len() == 0 {
        seq![]
    } else {
        let n = ns.last();
        proof {
            lemma_kids_decrease(n);
            assert(decreases_to!(ns => ns[ns.len() - 1]));
        }
        child_text(ns.drop_last()) + (match n {
            Node::Text(t) => t@,
            _ => seq![],
        }) + if kids(n).len() > 0 {
            child_text(kids(n))
        } else {
            seq![]
        }
    }
}

/// The children of a node, when it has any.
pub fn kids_of(n: &Node) -> (r: Option<&Vec<Node>>)
    ensures
        r matches Some(v) ==> v@ == kids(*n) && kids(*n).len() > 0 && decreases_to!(*n => *v),
        r is None ==> kids(*n).len() == 0,
{
    let v = match n {
        Node::Document(c) => c,
        Node::Heading(_, c, _) => c,
        Node::Paragraph(c) => c,
        Node::BlockQuote(c) => c,
        Node::List(_, _, c) => c,
        Node::Item(c) => c,
        Node::TaskItem(_, c) => c,
        Node::Table(c) => c,
        Node::FootnoteDefinition(_, c) => c,
        Node::Emph(c) => c,
        Node::Strong(c) => c,
        Node::Strikethrough(c) => c,
        Node::Link(_, c) => c,
        Node::Image(_, c, _) => c,
        Node::Other(c) => c,
        _ => {
            return None;
        },
    };
    if v.len() == 0 {
        None
    } else {
        Some(v)
    }
}

/// The plain text under the nodes `ns` (the alt text of an image, the
/// text of a heading).
pub fn collect_child_text(ns: &Vec<Node>) -> (text: String)
    ensures
        text@ == child_text(ns@),
    decreases ns,
{
    let mut text = String::new();
    let mut i: usize = 0;
    while i < ns.len()
        invariant
            i <= ns@.len(),
            text@ == child_text(ns@.take(i as int)),
        decreases ns@.len() - i,
    {
        proof {
            assert(ns@.take(i + 1).drop_last() =~= ns@.take(i as int));
            assert(ns@.take(i + 1).last() == ns@[i as int]);
        }
        if let Node::Text(t) = &ns[i] {
            text.append(t.as_str());
        }
        if let Some(ch) = kids_of(&ns[i]) {
            proof {
                assert(decreases_to!(*ns => ns[i as int]));
            }
            let inner = collect_child_text(ch);
            text.append(inner.as_str());
        }
        proof {
            let n = ns@[i as int];
            assert(text@ =~= child_text(ns@.take(i as int)) + (match n {
                Node::Text(t) => t@,
                _ => seq![],
            }) + if kids(n).len() > 0 {
                child_text(kids(n))
            } else {
                seq![]
            });
        }
        i = i + 1;
    }
    assert(ns@.take(ns@.len() as int) =~= ns@);
    text
}

/// `<br>`, `<br/>` or `<br />`, in any case and with surrounding blanks:
/// the inline tags that stand for a break.
pub open spec fn is_br(html: Seq<char>) -> bool {
    let t = lower_seq(trim(html));
    t == seq!['<', 'b', 'r', '>'] || t == seq!['<', 'b', 'r', '/', '>'] || t == seq!['<', 'b', 'r', ' ', '/', '>']
}

/// The spans a text leaf becomes: bare URLs turned into links.
pub open spec fn text_spans(t: Seq<char>, parent: StyleView, link: Seq<char>) -> Seq<(Seq<char>, StyleView)> {
    url_pieces(t).map_values(|p: (Seq<char>, bool)| piece_view(p, parent, link))
}

/// How an image shows inline: a picture mark and its alt text, or its
/// source when it has none.
pub open spec fn image_mark(url: Seq<char>, alt: Seq<char>) -> Seq<char> {
    seq!['\u{1F5BC}', ' '] + if alt.len() == 0 {
        url
    } else {
        alt
    }
}

/// The spans one inline node becomes under the style `parent`.
pub open spec fn inline_one(n: Node, c: ThemeColors, parent: StyleView) -> Seq<(Seq<char>, StyleView)>
    decreases n, 1int,
{
    match n {
        Node::Text(t) => text_spans(t@, parent, c.link@),
        Node::SoftBreak => seq![(seq![' '], parent)],
        Node::LineBreak => seq![(seq!['\n'], parent)],
        Node::Code(lit) => seq![(lit@, StyleView { fg: Some(c.code_fg@), bg: Some(c.code_bg@), ..parent })],
        Node::Emph(ch) => inline_spans(ch@, c, StyleView { italic: true, ..parent }),
        Node::Strong(ch) => inline_spans(ch@, c, StyleView { bold: true, fg: Some(c.bold@), ..parent }),
        Node::Strikethrough(ch) => inline_spans(
            ch@,
            c,
            StyleView { strikethrough: true, fg: Some(c.strikethrough@), ..parent },
        ),
        Node::Link(url, ch) => inline_spans(
            ch@,
            c,
            StyleView { fg: Some(c.link@), underline: true, link_url: Some(url@), ..parent },
        ),
        Node::Image(url, ch, _) => seq![(image_mark(url@, child_text(ch@)), StyleView { fg: Some(c.link@), ..default_style() })],
        Node::FootnoteReference(name) => seq![(seq!['[', '^'] + name@ + seq![']'], StyleView { fg: Some(c.link@), ..default_style() })],
        Node::Math(lit) => seq![(lit@, StyleView { fg: Some(c.code_fg@), italic: true, ..parent })],
        Node::ShortCode(e) => seq![(e@, parent)],
        Node::HtmlInline(h) => if is_br(h@) {
            seq![(seq![' '], parent)]
        } else if is_img(h@) {
            seq![
                (
                    image_mark(img_attr(h@, seq!['s', 'r', 'c']), img_attr(h@, seq!['a', 'l', 't'])),
                    StyleView { fg: Some(c.link@), ..default_style() },
                ),
            ]
        } else {
            seq![]
        },
        _ => {
            proof {
                lemma_kids_decrease(n);
            }
            if kids(n).len() > 0 {
                inline_spans(kids(n), c, parent)
            } else {
                seq![]
            }
        },
    }
}

/// The spans the inline nodes `ns` become under the style `parent`, in
/// order.
pub open spec fn inline_spans(ns: Seq<Node>, c: ThemeColors, parent: StyleView) -> Seq<(Seq<char>, StyleView)>
    decreases ns, 0int,
{
    if ns.len() == 0 {
        seq![]
    } else {
        proof {
            assert(decreases_to!(ns => ns[ns.len() - 1]));
        }
        inline_spans(ns.drop_last(), c, parent) + inline_one(ns.last(), c, parent)
    }
}

proof fn lemma_pieces_view(
    after: Seq<StyledSpan>,
    before: Seq<StyledSpan>,
    pieces: Seq<(Seq<char>, bool)>,
    parent: SpanStyle,
    link: Seq<char>,
)
    requires
        after.subrange(0, before.len() as int) == before,
        renders_all(after, before.len() as int, pieces, parent, link),
    ensures
        spans_view(after) == spans_view(before) + pieces.map_values(
            |p: (Seq<char>, bool)| piece_view(p, style_view(parent), link),
        ),
{
    let rhs = spans_view(before) + pieces.map_values(|p: (Seq<char>, bool)| piece_view(p, style_view(parent), link));
    assert forall|k: int| 0 <= k < after.len() implies #[trigger] spans_view(after)[k] == rhs[k] by {
        if k < before.len() {
            assert(after[k] == after.subrange(0, before.len() as int)[k]);
        } else {
            let j = k - before.len();
            assert(after[before.len() + j] == after[k]);
        }
    }
    assert(spans_view(after) =~= rhs);
}

/// Appends `span` to `spans`.
fn push_styled(spans: &mut Vec<StyledSpan>, span: StyledSpan)
    ensures
        spans_view(final(spans)@) == spans_view(old(spans)@).push(span_view(span)),
{
    spans.push(span);
    assert(spans_view(spans@) =~= spans_view(old(spans)@).push(span_view(span)));
}

/// Whether an inline HTML tag stands for a break.
fn html_is_br(h: &String) -> (b: bool)
    ensures
        b == is_br(h@),
{
    let v = crate::text::chars_of(h.as_str());
    let lo = crate::text::trim_start_at(&v, 0, v.len());
    let hi = crate::text::trim_end_at(&v, lo, v.len());
    let mut t: Vec<char> = Vec::new();
    let mut i = lo;
    while i < hi
        invariant
            lo <= i <= hi <= v@.len(),
            t@ == lower_seq(v@.subrange(lo as int, i as int)),
        decreases hi - i,
    {
        t.push(crate::text::to_ascii_lower(v[i]));
        assert(lower_seq(v@.subrange(lo as int, i + 1)) =~= lower_seq(v@.subrange(lo as int, i as int)).push(
            crate::text::ascii_lower(v@[i as int]),
        ));
        i = i + 1;
    }
    proof {
        assert(v@.subrange(0, v@.len() as int) =~= h@);
        assert(v@.subrange(lo as int, hi as int) == trim(h@));
    }
    let a = vec!['<', 'b', 'r', '>'];
    let b = vec!['<', 'b', 'r', '/', '>'];
    let c = vec!['<', 'b', 'r', ' ', '/', '>'];
    crate::text::seq_eq(&t, &a) || crate::text::seq_eq(&t, &b) || crate::text::seq_eq(&t, &c)
}

/// The spans one inline node becomes, appended to `spans`; `ns` holds
/// the node.
fn collect_inline_one(ns: &Vec<Node>, i: usize, colors: &ThemeColors, parent: &SpanStyle, spans: &mut Vec<StyledSpan>)
    requires
        i < ns@.len(),
    ensures
        spans_view(final(spans)@) == spans_view(old(spans)@) + inline_one(ns@[i as int], *colors, style_view(*parent)),
    decreases ns, 0int, 0int,
{
    let n = &ns[i];
    proof {
        assert(decreases_to!(*ns => ns[i as int]));
    }
    let ghost before = spans@;
    let ghost pv = style_view(*parent);
    match n {
        Node::Text(t) => {
            split_text_with_urls(t.as_str(), parent, colors.link.as_str(), spans);
            proof {
                lemma_pieces_view(spans@, before, url_pieces(t@), *parent, colors.link@);
            }
        },
        Node::SoftBreak => {
            let mut sp = String::new();
            crate::text::push_char(&mut sp, ' ');
            push_styled(spans, StyledSpan { text: sp, style: parent.dup() });
            assert(spans_view(spans@) =~= spans_view(before) + inline_one(*n, *colors, pv));
        },
        Node::LineBreak => {
            let mut sp = String::new();
            crate::text::push_char(&mut sp, '\n');
            push_styled(spans, StyledSpan { text: sp, style: parent.dup() });
            assert(spans_view(spans@) =~= spans_view(before) + inline_one(*n, *colors, pv));
        },
        Node::Code(lit) => {
            let mut st = parent.dup();
            st.fg = Some(colors.code_fg.clone());
            st.bg = Some(colors.code_bg.clone());
            push_styled(spans, StyledSpan { text: lit.clone(), style: st });
            assert(spans_view(spans@) =~= spans_view(before) + inline_one(*n, *colors, pv));
        },
        Node::Emph(ch) => {
            let mut st = parent.dup();
            st.italic = true;
            collect_inlines_upto(ch, ch.len(), colors, &st, spans);
            assert(ch@.take(ch@.len() as int) =~= ch@);
        },
        Node::Strong(ch) => {
            let mut st = parent.dup();
            st.bold = true;
            st.fg = Some(colors.bold.clone());
            collect_inlines_upto(ch, ch.len(), colors, &st, spans);
            assert(ch@.take(ch@.len() as int) =~= ch@);
        },
        Node::Strikethrough(ch) => {
            let mut st = parent.dup();
            st.strikethrough = true;
            st.fg = Some(colors.strikethrough.clone());
            collect_inlines_upto(ch, ch.len(), colors, &st, spans);
            assert(ch@.take(ch@.len() as int) =~= ch@);
        },
        Node::Link(url, ch) => {
            let mut st = parent.dup();
            st.fg = Some(colors.link.clone());
            st.underline = true;
            st.link_url = Some(url.clone());
            collect_inlines_upto(ch, ch.len(), colors, &st, spans);
            assert(ch@.take(ch@.len() as int) =~= ch@);
        },
        Node::Image(url, ch, _) => {
            let alt = collect_child_text(ch);
            let mut text = String::new();
            crate::text::push_char(&mut text, '\u{1F5BC}');
            crate::text::push_char(&mut text, ' ');
            if alt.as_str().is_empty() {
                text.append(url.as_str());
            } else {
                text.append(alt.as_str());
            }
            assert(text@ =~= image_mark(url@, child_text(ch@)));
            let mut st = SpanStyle::default();
            st.fg = Some(colors.link.clone());
            push_styled(spans, StyledSpan { text, style: st });
            assert(spans_view(spans@) =~= spans_view(before) + inline_one(*n, *colors, pv));
        },
        Node::FootnoteReference(name) => {
            let mut text = String::new();
            crate::text::push_char(&mut text, '[');
            crate::text::push_char(&mut text, '^');
            text.append(name.as_str());
            crate::text::push_char(&mut text, ']');
            assert(text@ =~= seq!['[', '^'] + name@ + seq![']']);
            let mut st = SpanStyle::default();
            st.fg = Some(colors.link.clone());
            push_styled(spans, StyledSpan { text, style: st });
            assert(spans_view(spans@) =~= spans_view(before) + inline_one(*n, *colors, pv));
        },
        Node::Math(lit) => {
            let mut st = parent.dup();
            st.fg = Some(colors.code_fg.clone());
            st.italic = true;
            push_styled(spans, StyledSpan { text: lit.clone(), style: st });
            assert(spans_view(spans@) =~= spans_view(before) + inline_one(*n, *colors, pv));
        },
        Node::ShortCode(e) => {
            push_styled(spans, StyledSpan { text: e.clone(), style: parent.dup() });
            assert(spans_view(spans@) =~= spans_view(before) + inline_one(*n, *colors, pv));
        },
        Node::HtmlInline(h) => {
            if html_is_br(h) {
                let mut sp = String::new();
                crate::text::push_char(&mut sp, ' ');
                push_styled(spans, StyledSpan { text: sp, style: parent.dup() });
            } else {
                let hv = crate::text::chars_of(h.as_str());
                if let Some((src, alt)) = img_attrs(&hv) {
                    let mut text = String::new();
                    crate::text::push_char(&mut text, '\u{1F5BC}');
                    crate::text::push_char(&mut text, ' ');
                    if alt.len() == 0 {
                        crate::text::push_range(&mut text, &src, 0, src.len());
                        assert(src@.subrange(0, src@.len() as int) =~= src@);
                    } else {
                        crate::text::push_range(&mut text, &alt, 0, alt.len());
                        assert(alt@.subrange(0, alt@.len() as int) =~= alt@);
                    }
                    assert(text@ =~= image_mark(img_attr(h@, seq!['s', 'r', 'c']), img_attr(h@, seq!['a', 'l', 't'])));
                    let mut st = SpanStyle::default();
                    st.fg = Some(colors.link.clone());
                    push_styled(spans, StyledSpan { text, style: st });
                }
            }
            assert(spans_view(spans@) =~= spans_view(before) + inline_one(*n, *colors, pv));
        },
        _ => {
            if let Some(ch) = kids_of(n) {
                collect_inlines_upto(ch, ch.len(), colors, parent, spans);
                assert(ch@.take(ch@.len() as int) =~= ch@);
            } else {
                assert(spans_view(spans@) =~= spans_view(before) + inline_one(*n, *colors, pv));
            }
        },
    }
}

/// The spans the inline nodes `ns[..k]` become, appended to `spans`.
fn collect_inlines_upto(ns: &Vec<Node>, k: usize, colors: &ThemeColors, parent: &SpanStyle, spans: &mut Vec<StyledSpan>)
    requires
        k <= ns@.len(),
    ensures
        spans_view(final(spans)@) == spans_view(old(spans)@) + inline_spans(ns@.take(k as int), *colors, style_view(*parent)),
    decreases ns, 1int, k,
{
    if k == 0 {
        assert(spans_view(spans@) =~= spans_view(spans@) + inline_spans(ns@.take(0), *colors, style_view(*parent)));
        return;
    }
    collect_inlines_upto(ns, k - 1, colors, parent, spans);
    collect_inline_one(ns, k - 1, colors, parent, spans);
    proof {
        let pv = style_view(*parent);
        assert(ns@.take(k as int).drop_last() =~= ns@.take(k - 1));
        assert(ns@.take(k as int).last() == ns@[k - 1]);
        assert(spans_view(old(spans)@) + inline_spans(ns@.take(k as int), *colors, pv) =~= spans_view(old(spans)@)
            + inline_spans(ns@.take(k - 1), *colors, pv) + inline_one(ns@[k - 1], *colors, pv));
    }
}

/// The spans the inline nodes `ns` become, appended to `spans`.
pub fn collect_inlines(ns: &Vec<Node>, colors: &ThemeColors, parent: &SpanStyle, spans: &mut Vec<StyledSpan>)
    ensures
        spans_view(final(spans)@) == spans_view(old(spans)@) + inline_spans(ns@, *colors, style_view(*parent)),
{
    collect_inlines_upto(ns, ns.len(), colors, parent, spans);
    assert(ns@.take(ns@.len() as int) =~= ns@);
}

/// A heading recorded during layout, with the display line where it lands.
#[derive(Debug, Clone)]
pub struct LayoutHeading {
    pub level: u8,
    pub text: String,
    pub line_index: usize,
    /// The (1-based) line of the markdown source the heading starts on.
    pub source_line: usize,
}

/// A block image reserved in the text flow for a graphics protocol: the
/// rows it covers and the image (by the number the caller gave it).
#[derive(Debug, Clone, Copy, PartialEq, Eq, Structural)]
pub struct ImageSpec {
    pub line_index: usize,
    pub col_offset: u16,
    pub cols: u16,
    pub rows: u16,
    pub image: usize,
}

/// A laid-out document: its display lines, its headings and the lines each
/// lands on, and the block images to paint.
pub struct LayoutResult {
    pub lines: Vec<StyledLine>,
    pub headings: Vec<LayoutHeading>,
    pub images: Vec<ImageSpec>,
}

/// A line as texts and styles.
pub type LineView = Seq<(Seq<char>, StyleView)>;

/// A layout as plain values: lines, headings (level, text, line), images.
#[verifier::ext_equal]
pub struct Laid {
    pub lines: Seq<LineView>,
    pub headings: Seq<(u8, Seq<char>, int, int)>,
    pub images: Seq<ImageSpec>,
}

/// A layout result as plain values.
pub open spec fn laid(r: LayoutResult) -> Laid {
    Laid {
        lines: lines_view(r.lines@),
        headings: r.headings@.map_values(|h: LayoutHeading| (h.level, h.text@, h.line_index as int, h.source_line as int)),
        images: r.images@,
    }
}

/// What layout needs to know besides the document: the theme, the width
/// and left indent of the text, the spacing between blocks, the left margin
/// that centers the content, how images show, and whether this is the top
/// level (which alone records headings and graphics images).
pub struct LayoutCtx<'a> {
    pub theme: &'a Theme,
    pub width: usize,
    pub indent: usize,
    pub spacing: Spacing,
    pub margin: usize,
    pub images: ImageMode,
    pub graphics_font: Option<(u16, u16)>,
    pub record_headings: bool,
    /// The theme background, which transparent image pixels show.
    pub background: (u8, u8, u8),
}

/// `a - b`, or zero when `b` is larger.
pub open spec fn sat_sub(a: int, b: int) -> int {
    if a > b {
        a - b
    } else {
        0
    }
}

/// The empty lines between blocks.
pub open spec fn gap(sp: Spacing) -> int {
    match sp {
        Spacing::Compact => 0,
        Spacing::Normal => 1,
        Spacing::Relaxed => 2,
    }
}

/// `n` empty lines.
pub open spec fn blank_lines(n: int) -> Seq<LineView> {
    Seq::new(n as nat, |i: int| Seq::<(Seq<char>, StyleView)>::empty())
}

/// `st` with `ls` appended to its lines.
pub open spec fn put(st: Laid, ls: Seq<LineView>) -> Laid {
    Laid { lines: st.lines + ls, ..st }
}

/// `st` followed by the spacing after a block.
pub open spec fn spaced(st: Laid, c: LayoutCtx) -> Laid {
    put(st, blank_lines(gap(c.spacing)))
}

/// A fresh line: the centering margin, when there is one.
pub open spec fn margin_line(c: LayoutCtx) -> LineView {
    if c.margin > 0 {
        seq![(spaces(c.margin as nat), default_style())]
    } else {
        seq![]
    }
}

/// A plain style in color `fg`.
pub open spec fn fg_style(fg: Seq<char>) -> StyleView {
    StyleView { fg: Some(fg), ..default_style() }
}

/// The context of the content of a quote or list: narrower by four
/// columns, at no margin, not the top level.
pub open spec fn nested(c: LayoutCtx, indent: usize) -> LayoutCtx {
    LayoutCtx { width: sat_sub(c.width as int, 4) as usize, indent, margin: 0, record_headings: false, ..c }
}

/// Nothing laid out yet.
pub open spec fn fresh() -> Laid {
    Laid { lines: seq![], headings: seq![], images: seq![] }
}

/// `st` followed by what a nested layout `inner` produced, its lines made
/// into `ls`.
pub open spec fn absorb(st: Laid, inner: Laid, ls: Seq<LineView>) -> Laid {
    Laid { lines: st.lines + ls, headings: st.headings + inner.headings, images: st.images + inner.images }
}

/// The color of a heading of `level`.
pub open spec fn heading_color(c: ThemeColors, level: u8) -> Seq<char> {
    if level == 1 {
        c.heading1@
    } else if level == 2 {
        c.heading2@
    } else if level == 3 {
        c.heading3@
    } else if level == 4 {
        c.heading4@
    } else if level == 5 {
        c.heading5@
    } else {
        c.heading6@
    }
}

/// The mark before a heading's first line.
pub open spec fn heading_prefix(level: u8) -> Seq<char> {
    if level == 1 {
        seq!['\u{2588}', ' ']
    } else if level == 2 {
        seq!['\u{258C}', ' ']
    } else if level == 3 {
        seq!['\u{258E}', ' ']
    } else {
        seq![' ', ' ']
    }
}

/// Heading text: its color, bold.
pub open spec fn as_heading(spans: Seq<(Seq<char>, StyleView)>, color: Seq<char>) -> Seq<(Seq<char>, StyleView)> {
    spans.map_values(|s: (Seq<char>, StyleView)| (s.0, StyleView { fg: Some(color), bold: true, ..s.1 }))
}

/// The lines of a heading: the mark on the first, the text's wrapped lines
/// aligned after it.
pub open spec fn heading_lines(content: Seq<LineView>, c: LayoutCtx, level: u8) -> Seq<LineView> {
    let color = heading_color(c.theme.colors, level);
    let prefix = heading_prefix(level);
    Seq::new(
        content.len(),
        |i: int|
            margin_line(c) + (if i == 0 {
                seq![(prefix, fg_style(color))]
            } else {
                seq![(spaces(display_width(prefix) as nat), default_style())]
            }) + content[i],
    )
}

/// A heading: blank lines before it (two for the top levels), its place
/// recorded at the top level, its wrapped text behind the mark, spacing.
pub open spec fn heading(level: u8, ch: Seq<Node>, source_line: usize, c: LayoutCtx, st: Laid) -> Laid {
    let colors = c.theme.colors;
    let st1 = put(st, blank_lines(if level <= 2 { 2 } else { 1 }));
    let st2 = if c.record_headings {
        Laid { headings: st1.headings.push((level, child_text(ch), st1.lines.len() as int, source_line as int)), ..st1 }
    } else {
        st1
    };
    let spans = as_heading(inline_spans(ch, colors, default_style()), heading_color(colors, level));
    let prefix_w = display_width(heading_prefix(level));
    let content = wrapped_lines(spans, sat_sub(c.width as int, prefix_w as int) as usize, 0, 0);
    spaced(put(st2, heading_lines(content, c, level)), c)
}

/// A paragraph of text: its inline content wrapped, then spacing.
pub open spec fn text_paragraph(ch: Seq<Node>, c: LayoutCtx, st: Laid) -> Laid {
    let spans = inline_spans(ch, c.theme.colors, default_style());
    spaced(put(st, wrapped_lines(spans, c.width, c.indent, c.margin)), c)
}

/// The note after a remote image that was not loaded.
pub open spec fn remote_note() -> Seq<char> {
    " (remote image \u{2014} pass --remote-images to load)"@
}

/// The note after a local image that is not there.
pub open spec fn missing_note() -> Seq<char> {
    " (image not found)"@
}

/// The line that stands for an image that was not drawn: its mark and
/// alt text (or source), then why, in italics.
pub open spec fn note_line(url: Seq<char>, alt: Seq<char>, note: Seq<char>, c: LayoutCtx) -> Seq<LineView> {
    seq![margin_line(c) + seq![(image_mark(url, alt) + note, StyleView { italic: true, ..fg_style(c.theme.colors.link_url@) })]]
}

/// An image's caption: its alt text, indented, in italics.
pub open spec fn caption(alt: Seq<char>, c: LayoutCtx) -> Seq<LineView> {
    if alt.len() == 0 {
        seq![]
    } else {
        seq![margin_line(c) + seq![(seq![' ', ' '] + alt, StyleView { italic: true, ..fg_style(c.theme.colors.link_url@) })]]
    }
}

/// The cells a graphics image takes (columns, rows), at most 30 rows.
pub open spec fn cell_dims(pic: Picture, font: (u16, u16), max_cols: u16) -> (int, int) {
    if pic.width == 0 || pic.height == 0 {
        (1, 1)
    } else {
        let cols = image_cols(pic.width, font, max_cols);
        (cols, image_rows(pic.width, pic.height, font, cols, 30))
    }
}

/// The widest a graphics image may be: the text width (the margin comes
/// on top, as the image's column offset), at least one.
pub open spec fn image_max_cols(c: LayoutCtx) -> u16 {
    (if c.width > 1 {
        c.width as int
    } else {
        1
    }) as u16
}

/// The next line index (the count stops at the largest `usize`).
pub open spec fn after(i: int) -> usize {
    if i < usize::MAX {
        (i + 1) as usize
    } else {
        i as usize
    }
}

/// An image that stands alone in its paragraph, laid out as a block from
/// line `at`: a note for a blocked remote image or a missing local one;
/// in graphics mode at the
/// top level, blank rows sized to the image (recorded for the protocol to
/// paint) after a gap; else half-block cells. The alt text follows as a
/// caption. `None` when there is nothing to draw.
pub open spec fn image_block(n: Node, c: LayoutCtx, at: int) -> Option<(Seq<LineView>, Seq<ImageSpec>)> {
    match n {
        Node::Image(url, alt_nodes, load) => {
            let alt = child_text(alt_nodes@);
            match load {
                ImageLoad::RemoteBlocked => Some((note_line(url@, alt, remote_note(), c), seq![])),
                ImageLoad::NotFound => Some((note_line(url@, alt, missing_note(), c), seq![])),
                ImageLoad::Loaded(pic) => if c.graphics_font is Some && c.record_headings {
                    let d = cell_dims(pic, c.graphics_font->0, image_max_cols(c));
                    Some(
                        (
                            seq![seq![]] + blank_lines(d.1) + caption(alt, c),
                            seq![
                                ImageSpec {
                                    line_index: after(at),
                                    col_offset: c.margin as u16,
                                    cols: d.0 as u16,
                                    rows: d.1 as u16,
                                    image: pic.id,
                                },
                            ],
                        ),
                    )
                } else {
                    match halfblock(pic, c.width, c.margin, c.background) {
                        Some(ls) => Some((ls + caption(alt, c), seq![])),
                        None => None,
                    }
                },
                _ => None,
            }
        },
        _ => None,
    }
}

/// A paragraph: an image alone in it, when images are on, as a block;
/// otherwise its text wrapped. Spacing after.
pub open spec fn paragraph(ch: Seq<Node>, c: LayoutCtx, st: Laid) -> Laid {
    if c.images != ImageMode::Off && ch.len() == 1 && image_block(ch[0], c, st.lines.len() as int) is Some {
        let b = image_block(ch[0], c, st.lines.len() as int)->0;
        spaced(Laid { lines: st.lines + b.0, headings: st.headings, images: st.images + b.1 }, c)
    } else {
        text_paragraph(ch, c, st)
    }
}

/// The dashes either side of a rule's diamond.
pub open spec fn dashes(n: int) -> Seq<char> {
    Seq::new(n as nat, |i: int| '\u{254C}')
}

/// A thematic break: a centered dashed rule at most 60 wide with a diamond
/// in the middle, between blank lines.
pub open spec fn rule_lines(c: LayoutCtx) -> Seq<LineView> {
    let w = if c.width < 60 { c.width as int } else { 60 };
    let left = (c.width - w) / 2;
    let half = w / 2;
    let text = dashes(sat_sub(half, 3)) + seq![' ', ' ', '\u{25C6}', ' ', ' '] + dashes(sat_sub(half, 3));
    let line = margin_line(c) + (if left > 0 {
        seq![(spaces(left as nat), default_style())]
    } else {
        seq![]
    }) + seq![(text, fg_style(c.theme.colors.hr@))];
    seq![seq![], line, seq![]]
}

/// Raw HTML: each non-blank line shown in the link-destination color,
/// wrapped.
pub open spec fn html_lines(ls: Seq<Seq<char>>, c: LayoutCtx) -> Seq<LineView>
    decreases ls.len(),
{
    if ls.len() == 0 {
        seq![]
    } else {
        let l = ls.last();
        html_lines(ls.drop_last(), c) + if trim(l).len() == 0 {
            seq![]
        } else {
            wrapped_lines(seq![(l, fg_style(c.theme.colors.link_url@))], c.width, 0, c.margin)
        }
    }
}

/// A footnote's label: `[^name]: `, bold in the link color.
pub open spec fn footnote_label(name: Seq<char>, c: LayoutCtx) -> (Seq<char>, StyleView) {
    (seq!['[', '^'] + name + seq![']', ':', ' '], StyleView { bold: true, ..fg_style(c.theme.colors.link@) })
}

/// The lines of `s`, each with its `\n` (the last may lack one), as
/// syntect's `LinesWithEndings` cuts them.
pub open spec fn lines_with_endings(s: Seq<char>) -> Seq<Seq<char>>
    decreases s.len(),
{
    if s.len() == 0 {
        seq![]
    } else {
        let e = line_len(s);
        proof {
            crate::text::lemma_line_len_bound(s);
        }
        seq![s.take(e as int)] + lines_with_endings(s.skip(e as int))
    }
}

/// `s` with each tab expanded to spaces up to the next multiple of four
/// columns, and the column it ends at, modulo four.
pub open spec fn tab_fold(s: Seq<char>) -> (Seq<char>, int)
    decreases s.len(),
{
    if s.len() == 0 {
        (seq![], 0)
    } else {
        let p = tab_fold(s.drop_last());
        let ch = s.last();
        if ch == '\t' {
            (p.0 + spaces((4 - p.1) as nat), 0)
        } else {
            (p.0.push(ch), (p.1 + char_cells(ch)) % 4)
        }
    }
}

/// `s` with its tabs expanded at 4-column stops.
pub open spec fn expand_tabs(s: Seq<char>) -> Seq<char> {
    tab_fold(s).0
}

/// `s` without its trailing `\n`s.
pub open spec fn trim_newlines(s: Seq<char>) -> Seq<char>
    decreases s.len(),
{
    if s.len() > 0 && s.last() == '\n' {
        trim_newlines(s.drop_last())
    } else {
        s
    }
}

/// The length of the run of non-whitespace at the start of `t`.
pub open spec fn word_len(t: Seq<char>) -> nat
    decreases t.len(),
{
    if t.len() == 0 || is_ws(t[0]) {
        0
    } else {
        1 + word_len(t.drop_first())
    }
}

/// The first whitespace-separated word of `s`, or nothing.
pub open spec fn first_word(s: Seq<char>) -> Seq<char> {
    let t = trim_start(s);
    t.take(word_len(t) as int)
}

/// A lowercase hexadecimal digit.
pub open spec fn hex_char(d: int) -> char {
    if d < 10 {
        (('0' as u32) + d) as char
    } else {
        (('a' as u32) + d - 10) as char
    }
}

/// A color as `#rrggbb`.
pub open spec fn color_hex(r: u8, g: u8, b: u8) -> Seq<char> {
    seq![
        '#',
        hex_char(r as int / 16),
        hex_char(r as int % 16),
        hex_char(g as int / 16),
        hex_char(g as int % 16),
        hex_char(b as int / 16),
        hex_char(b as int % 16),
    ]
}

/// `n` horizontal box lines.
pub open spec fn rules(n: int) -> Seq<char> {
    Seq::new(n as nat, |i: int| '\u{2500}')
}

/// The span a highlighted piece becomes: its text without line endings in
/// its color, or nothing when that leaves it empty.
pub open spec fn code_pieces(ps: Seq<(Seq<char>, u8, u8, u8)>) -> Seq<(Seq<char>, StyleView)>
    decreases ps.len(),
{
    if ps.len() == 0 {
        seq![]
    } else {
        let p = ps.last();
        let t = trim_newlines(p.0);
        code_pieces(ps.drop_last()) + if t.len() > 0 {
            seq![(t, fg_style(color_hex(p.1, p.2, p.3)))]
        } else {
            seq![]
        }
    }
}

/// The spans of one code line: its highlighted pieces, or the whole line in
/// the code color when highlighting it failed.
pub open spec fn code_content(h: Option<Seq<(Seq<char>, u8, u8, u8)>>, line: Seq<char>, c: LayoutCtx) -> Seq<
    (Seq<char>, StyleView),
> {
    match h {
        Some(ps) => code_pieces(ps),
        None => seq![(trim_newlines(line), fg_style(c.theme.colors.code_fg@))],
    }
}

/// The cells the texts of a line take, each text measured whole.
pub open spec fn view_width(v: LineView) -> int
    decreases v.len(),
{
    if v.len() == 0 {
        0
    } else {
        view_width(v.drop_last()) + display_width(v.last().0)
    }
}

/// The visual lines of a code line inside the box: a left bar, the text,
/// padding to the box's inner width `cw` and the right bar.
pub open spec fn boxed(visual: Seq<LineView>, cw: int, c: LayoutCtx) -> Seq<LineView> {
    let border = fg_style(c.theme.colors.table_border@);
    visual.map_values(
        |v: LineView|
            margin_line(c) + seq![(seq!['\u{2502}', ' '], border)] + v + seq![
                (spaces(sat_sub(cw, view_width(v)) as nat) + seq![' ', '\u{2502}'], border),
            ],
    )
}

/// The boxed visual lines of the code lines `ls`, highlighted as `hl`
/// (entry `i` for line `i`), hard-wrapped at `cw` cells.
pub open spec fn code_body(ls: Seq<Seq<char>>, hl: Seq<Option<Seq<(Seq<char>, u8, u8, u8)>>>, cw: usize, c: LayoutCtx) -> Seq<
    LineView,
>
    decreases ls.len(),
{
    if ls.len() == 0 {
        seq![]
    } else {
        code_body(ls.drop_last(), hl, cw, c) + boxed(
            code_lines(code_content(hl[ls.len() - 1], ls.last(), c), cw),
            cw as int,
            c,
        )
    }
}

/// The top border of a code box `bw` wide, with the language's label when
/// there is one.
pub open spec fn code_header(lang: Seq<char>, bw: int, c: LayoutCtx) -> LineView {
    let border = fg_style(c.theme.colors.table_border@);
    margin_line(c) + if lang.len() == 0 {
        seq![(seq!['\u{256D}'] + rules(bw - 2) + seq!['\u{256E}'], border)]
    } else {
        let label = seq![' '] + lang + seq![' '];
        seq![
            (seq!['\u{256D}', '\u{2500}'], border),
            (label, fg_style(c.theme.colors.heading3@)),
            (rules(sat_sub(bw, display_width(label) + 3)) + seq!['\u{256E}'], border),
        ]
    }
}

/// The highlighting theme: the theme's own when syntect bundles it, else
/// `base16-ocean.dark`.
pub open spec fn code_theme(c: LayoutCtx) -> Seq<char> {
    if bundled_theme(c.theme.code_theme@) {
        c.theme.code_theme@
    } else {
        "base16-ocean.dark"@
    }
}

/// A code block: a rounded box as wide as the text (at least 8), labeled
/// with the language, each line (its tabs expanded at 4-column stops)
/// highlighted and hard-wrapped inside it; then spacing.
pub open spec fn code_block(info: Seq<char>, lit: Seq<char>, c: LayoutCtx, st: Laid) -> Laid {
    let lang = first_word(info);
    let bw: int = if c.width > 8 { c.width as int } else { 8 };
    let ls = lines_with_endings(lit).map_values(|l: Seq<char>| expand_tabs(l));
    let hl = code_highlight(lang, code_theme(c), ls);
    let footer = margin_line(c) + seq![
        (seq!['\u{2570}'] + rules(bw - 2) + seq!['\u{256F}'], fg_style(c.theme.colors.table_border@)),
    ];
    spaced(put(st, seq![code_header(lang, bw, c)] + code_body(ls, hl, (bw - 4) as usize, c) + seq![footer]), c)
}

/// One table row: the inline content of its cells, separated by bars.
pub open spec fn table_row(cells: Seq<Node>, c: LayoutCtx) -> Seq<(Seq<char>, StyleView)>
    decreases cells.len(),
{
    if cells.len() == 0 {
        seq![]
    } else {
        table_row(cells.drop_last(), c) + (if cells.len() > 1 {
            seq![(seq![' ', '\u{2502}', ' '], fg_style(c.theme.colors.table_border@))]
        } else {
            seq![]
        }) + inline_spans(kids(cells.last()), c.theme.colors, default_style())
    }
}

/// A table, each row wrapped on lines of its own.
pub open spec fn table_lines(rows: Seq<Node>, c: LayoutCtx) -> Seq<LineView>
    decreases rows.len(),
{
    if rows.len() == 0 {
        seq![]
    } else {
        table_lines(rows.drop_last(), c) + wrapped_lines(table_row(kids(rows.last()), c), c.width, 0, c.margin)
    }
}

/// The text of the rows of a table, row after row, each without its spaces.
pub open spec fn rows_text(rows: Seq<Node>, c: LayoutCtx) -> Seq<char>
    decreases rows.len(),
{
    if rows.len() == 0 {
        seq![]
    } else {
        rows_text(rows.drop_last(), c) + nonspace(texts_of(table_row(kids(rows.last()), c)))
    }
}

proof fn lemma_wrapped_lines_nonempty(spans: LineView, max_width: usize, indent: usize, margin: usize)
    ensures
        wrapped_lines(spans, max_width, indent, margin).len() >= 1,
{
}

/// Every row of a table is laid out, on at least one line of its own: a
/// table takes at least as many lines as it has rows.
pub proof fn law_table_lays_out_every_row(rows: Seq<Node>, c: LayoutCtx)
    ensures
        table_lines(rows, c).len() >= rows.len(),
    decreases rows.len(),
{
    if rows.len() > 0 {
        law_table_lays_out_every_row(rows.drop_last(), c);
        lemma_wrapped_lines_nonempty(table_row(kids(rows.last()), c), c.width, 0, c.margin);
    }
}

/// Rows are laid out in order, each on its own lines: the lines of a table
/// whose rows are `a` then `b` are the lines of `a` followed by those of `b`.
pub proof fn law_table_rows_in_order(a: Seq<Node>, b: Seq<Node>, c: LayoutCtx)
    ensures
        table_lines(a + b, c) == table_lines(a, c) + table_lines(b, c),
    decreases b.len(),
{
    if b.len() == 0 {
        assert(a + b =~= a);
        assert(table_lines(a, c) + table_lines(b, c) =~= table_lines(a, c));
    } else {
        law_table_rows_in_order(a, b.drop_last(), c);
        assert((a + b).drop_last() =~= a + b.drop_last());
        assert((a + b).last() == b.last());
        let w = wrapped_lines(table_row(kids(b.last()), c), c.width, 0, c.margin);
        assert(table_lines(a, c) + table_lines(b.drop_last(), c) + w =~= table_lines(a, c) + (table_lines(
            b.drop_last(),
            c,
        ) + w));
    }
}

proof fn lemma_all_text_concat(a: Seq<LineView>, b: Seq<LineView>)
    ensures
        all_text(a + b) == all_text(a) + all_text(b),
    decreases b.len(),
{
    if b.len() == 0 {
        assert(a + b =~= a);
        assert(all_text(b) == Seq::<char>::empty());
        assert(all_text(a) + all_text(b) =~= all_text(a));
    } else {
        lemma_all_text_concat(a, b.drop_last());
        assert((a + b).drop_last() =~= a + b.drop_last());
        assert((a + b).last() == b.last());
        assert(all_text(a) + all_text(b.drop_last()) + texts_of(b.last()) =~= all_text(a) + (all_text(b.drop_last())
            + texts_of(b.last())));
    }
}

/// No cell text is lost: the text of a table's lines, without spaces, is the
/// text of its rows' cells, row after row (first row included), for every
/// table whose words join back from their grapheme clusters.
pub proof fn law_table_keeps_cell_text(rows: Seq<Node>, c: LayoutCtx)
    requires
        forall|k: int| 0 <= k < rows.len() ==> words_whole(all_words(table_row(kids(#[trigger] rows[k]), c))),
    ensures
        nonspace(all_text(table_lines(rows, c))) == rows_text(rows, c),
    decreases rows.len(),
{
    if rows.len() == 0 {
        assert(all_text(Seq::<LineView>::empty()) == Seq::<char>::empty());
        assert(nonspace(Seq::<char>::empty()) == Seq::<char>::empty());
    } else {
        let r = rows.drop_last();
        assert forall|k: int| 0 <= k < r.len() implies words_whole(all_words(table_row(kids(#[trigger] r[k]), c))) by {
            assert(r[k] == rows[k]);
        }
        law_table_keeps_cell_text(r, c);
        let spans = table_row(kids(rows.last()), c);
        assert(words_whole(all_words(table_row(kids(rows[rows.len() - 1]), c))));
        law_wrapping_keeps_text(spans, c.width, 0, c.margin);
        let w = wrapped_lines(spans, c.width, 0, c.margin);
        lemma_all_text_concat(table_lines(r, c), w);
        lemma_nonspace_concat(all_text(table_lines(r, c)), all_text(w));
    }
}

/// The kind of a GitHub-style admonition (`> [!NOTE]`) that a quote opens
/// with, uppercased: its first paragraph starts with a text `[!KIND]`.
pub open spec fn admonition(ch: Seq<Node>) -> Option<Seq<char>> {
    if ch.len() > 0 {
        match ch[0] {
            Node::Paragraph(p) => if p@.len() > 0 {
                match p@[0] {
                    Node::Text(t) => {
                        let tr = trim(t@);
                        if tr.len() >= 2 && tr[0] == '[' && tr[1] == '!' && tr.contains(']') {
                            Some(unicode_upper(tr.subrange(2, first_index(tr, ']') as int)))
                        } else {
                            None
                        }
                    },
                    _ => None,
                }
            } else {
                None
            },
            _ => None,
        }
    } else {
        None
    }
}

/// The admonition kinds that have colors and icons of their own.
pub open spec fn note_kind() -> Seq<char> {
    seq!['N', 'O', 'T', 'E']
}

pub open spec fn tip_kind() -> Seq<char> {
    seq!['T', 'I', 'P']
}

pub open spec fn important_kind() -> Seq<char> {
    seq!['I', 'M', 'P', 'O', 'R', 'T', 'A', 'N', 'T']
}

pub open spec fn warning_kind() -> Seq<char> {
    seq!['W', 'A', 'R', 'N', 'I', 'N', 'G']
}

pub open spec fn caution_kind() -> Seq<char> {
    seq!['C', 'A', 'U', 'T', 'I', 'O', 'N']
}

/// The color of a quote's bar: the admonition's own, or by nesting depth.
pub open spec fn bar_color(c: ThemeColors, adm: Option<Seq<char>>, depth: usize) -> Seq<char> {
    match adm {
        Some(a) => if a == note_kind() {
            c.admonition_note@
        } else if a == tip_kind() {
            c.admonition_tip@
        } else if a == important_kind() {
            c.admonition_important@
        } else if a == warning_kind() {
            c.admonition_warning@
        } else if a == caution_kind() {
            c.admonition_caution@
        } else {
            c.blockquote_bar@
        },
        None => {
            let d = depth % 4;
            if d == 0 {
                c.blockquote_bar@
            } else if d == 1 {
                c.heading2@
            } else if d == 2 {
                c.heading3@
            } else {
                c.heading4@
            }
        },
    }
}

/// The icon of an admonition's header.
pub open spec fn adm_icon(a: Seq<char>) -> Seq<char> {
    if a == note_kind() {
        seq!['\u{2139}', ' ']
    } else if a == tip_kind() {
        seq!['\u{1F4A1}', ' ']
    } else if a == important_kind() {
        seq!['\u{2757}', ' ']
    } else if a == warning_kind() {
        seq!['\u{26A0}', ' ']
    } else if a == caution_kind() {
        seq!['\u{1F534}', ' ']
    } else {
        seq!['\u{258E}', ' ']
    }
}

/// The bar before each line of a quote.
pub open spec fn quote_bar(bar: Seq<char>) -> (Seq<char>, StyleView) {
    (seq![' ', ' ', '\u{2502}', ' '], fg_style(bar))
}

/// The header line of an admonition: the bar, then its icon and kind in
/// bold.
pub open spec fn quote_header(adm: Option<Seq<char>>, bar: Seq<char>, c: LayoutCtx) -> Seq<LineView> {
    match adm {
        Some(a) => seq![margin_line(c) + seq![quote_bar(bar), (adm_icon(a) + a, StyleView { bold: true, ..fg_style(bar) })]],
        None => seq![],
    }
}

/// Quoted text: spans without a color of their own take the quote color,
/// in italics.
pub open spec fn quote_text(v: LineView, c: ThemeColors) -> LineView {
    v.map_values(
        |s: (Seq<char>, StyleView)|
            if s.1.fg is None {
                (s.0, StyleView { fg: Some(c.blockquote_text@), italic: true, ..s.1 })
            } else {
                s
            },
    )
}

/// The lines of a quote's content behind its bar.
pub open spec fn barred(ls: Seq<LineView>, bar: Seq<char>, c: LayoutCtx) -> Seq<LineView> {
    ls.map_values(|l: LineView| margin_line(c) + seq![quote_bar(bar)] + quote_text(l, c.theme.colors))
}

/// Text that starts with the admonition marker `[!`.
pub open spec fn starts_bang(t: Seq<char>) -> bool {
    t.len() >= 2 && t[0] == '[' && t[1] == '!'
}

/// The spans without the admonition marker.
pub open spec fn drop_marks(v: Seq<(Seq<char>, StyleView)>) -> Seq<(Seq<char>, StyleView)>
    decreases v.len(),
{
    if v.len() == 0 {
        seq![]
    } else {
        drop_marks(v.drop_last()) + if starts_bang(v.last().0) {
            seq![]
        } else {
            seq![v.last()]
        }
    }
}

/// An admonition's first paragraph, without its marker: wrapped and spaced
/// when anything is left of it.
pub open spec fn admonition_body(pch: Seq<Node>, c: LayoutCtx, st: Laid) -> Laid {
    let f = drop_marks(inline_spans(pch, c.theme.colors, default_style()));
    if f.len() > 0 {
        spaced(put(st, wrapped_lines(f, c.width, 0, 0)), c)
    } else {
        st
    }
}

/// One level deeper (the count stops at the largest `usize`).
pub open spec fn deeper(d: usize) -> usize {
    if d < usize::MAX {
        (d + 1) as usize
    } else {
        d
    }
}

/// `i + 4`, or the largest index when that does not fit.
pub open spec fn indent_more(i: usize) -> usize {
    if i <= usize::MAX - 4 {
        (i + 4) as usize
    } else {
        usize::MAX
    }
}

/// The mark before a list item's first line: a task's check box, else a
/// bullet or the item's number.
pub open spec fn item_mark(item: Node, kind: ListKind, start: usize, i: int, c: LayoutCtx) -> (Seq<char>, StyleView) {
    let done = (seq![' ', ' ', '\u{2713}', ' '], fg_style(c.theme.colors.task_done@));
    let pending = (seq![' ', ' ', '\u{25CB}', ' '], fg_style(c.theme.colors.task_pending@));
    match item {
        Node::TaskItem(Some(m), _) => if m != ' ' {
            done
        } else {
            pending
        },
        Node::TaskItem(None, _) => pending,
        _ => match kind {
            ListKind::Bullet => (seq![' ', ' ', '\u{25E6}', ' '], fg_style(c.theme.colors.list_bullet@)),
            ListKind::Ordered => (
                seq![' ', ' '] + decimal((start + i) as nat) + seq!['.', ' '],
                fg_style(c.theme.colors.list_number@),
            ),
        },
    }
}

/// An item's lines: the mark on the first, four spaces before the rest.
pub open spec fn marked(ls: Seq<LineView>, mark: (Seq<char>, StyleView), c: LayoutCtx) -> Seq<LineView> {
    Seq::new(
        ls.len(),
        |j: int|
            margin_line(c) + (if j == 0 {
                seq![mark]
            } else {
                seq![(spaces(4), default_style())]
            }) + ls[j],
    )
}

/// The layout of a block node, after what `st` holds.
pub open spec fn block(n: Node, c: LayoutCtx, st: Laid) -> Laid
    decreases n, 0int, 0int,
{
    proof {
        lemma_kids_decrease(n);
    }
    match n {
        Node::Heading(level, ch, line) => heading(level, ch@, line, c, st),
        Node::Paragraph(ch) => paragraph(ch@, c, st),
        Node::CodeBlock(info, lit) => code_block(info@, lit@, c, st),
        Node::BlockQuote(ch) => quote(ch@, c, 0usize, st),
        Node::List(kind, start, items) => spaced(list_items(items@, items@.len() as int, kind, start, c, st), c),
        Node::ThematicBreak => put(st, rule_lines(c)),
        Node::Table(rows) => spaced(put(st, table_lines(rows@, c)), c),
        Node::HtmlBlock(lit) => put(st, html_lines(lines_of(lit@), c)),
        Node::FootnoteDefinition(name, ch) => {
            let label = footnote_label(name@, c);
            spaced(
                if ch@.len() == 1 && ch@[0] is Paragraph {
                    put(
                        st,
                        wrapped_lines(
                            seq![label] + inline_spans(kids(ch@[0]), c.theme.colors, default_style()),
                            c.width,
                            0,
                            c.margin,
                        ),
                    )
                } else {
                    blocks(ch@, ch@.len() as int, c, put(st, seq![margin_line(c).push(label)]))
                },
                c,
            )
        },
        Node::SoftBreak => st,
        Node::LineBreak => st,
        _ => if is_leaf(n) {
            st
        } else {
            blocks(kids(n), kids(n).len() as int, c, st)
        },
    }
}

/// The layout of the first `k` of the block nodes `ns`, after `st`.
pub open spec fn blocks(ns: Seq<Node>, k: int, c: LayoutCtx, st: Laid) -> Laid
    decreases ns, 1int, k,
{
    if k <= 0 || k > ns.len() {
        st
    } else {
        proof {
            assert(decreases_to!(ns => ns[k - 1]));
        }
        block(ns[k - 1], c, blocks(ns, k - 1, c, st))
    }
}

/// A quote at nesting `depth`: an admonition's header, then its content
/// laid out four columns narrower behind a bar, trailing blank lines left
/// out; spacing after a quote that is not nested in another.
pub open spec fn quote(ch: Seq<Node>, c: LayoutCtx, depth: usize, st: Laid) -> Laid
    decreases ch, 3int, 0int,
{
    let adm = admonition(ch);
    let bar = bar_color(c.theme.colors, adm, depth);
    let inner = quote_kids(ch, ch.len() as int, nested(c, 0), depth, adm is Some).0;
    let st2 = absorb(put(st, quote_header(adm, bar, c)), inner, barred(trim_blank(inner.lines), bar, c));
    if depth == 0 {
        spaced(st2, c)
    } else {
        st2
    }
}

/// The content of a quote after its first `k` children, and whether the
/// admonition marker is still to be dropped. A quote inside is one level
/// deeper; the first other child of an admonition, when a paragraph, loses
/// its marker.
pub open spec fn quote_kids(ch: Seq<Node>, k: int, c: LayoutCtx, depth: usize, skip: bool) -> (Laid, bool)
    decreases ch, 2int, k,
{
    if k <= 0 || k > ch.len() {
        (fresh(), skip)
    } else {
        let prev = quote_kids(ch, k - 1, c, depth, skip);
        let n = ch[k - 1];
        proof {
            assert(decreases_to!(ch => ch[k - 1]));
            lemma_kids_decrease(n);
        }
        match n {
            Node::BlockQuote(cc) => (quote(cc@, c, deeper(depth), prev.0), prev.1),
            Node::Paragraph(pch) => if prev.1 {
                (admonition_body(pch@, c, prev.0), false)
            } else {
                (block(n, c, prev.0), false)
            },
            _ => (block(n, c, prev.0), false),
        }
    }
}

/// The first `k` items of a list, each laid out four columns narrower and
/// further indented, trailing blank lines left out, behind its mark.
pub open spec fn list_items(items: Seq<Node>, k: int, kind: ListKind, start: usize, c: LayoutCtx, st: Laid) -> Laid
    decreases items, 2int, k,
{
    if k <= 0 || k > items.len() {
        st
    } else {
        let prev = list_items(items, k - 1, kind, start, c, st);
        let item = items[k - 1];
        proof {
            assert(decreases_to!(items => items[k - 1]));
            lemma_kids_decrease(item);
        }
        let inner = if is_leaf(item) {
            fresh()
        } else {
            item_kids(kids(item), kids(item).len() as int, nested(c, indent_more(c.indent)), fresh())
        };
        absorb(prev, inner, marked(trim_blank(inner.lines), item_mark(item, kind, start, k - 1, c), c))
    }
}

/// The first `k` children of a list item: a paragraph wrapped without
/// spacing, anything else laid out as a block.
pub open spec fn item_kids(ns: Seq<Node>, k: int, c: LayoutCtx, st: Laid) -> Laid
    decreases ns, 1int, k,
{
    if k <= 0 || k > ns.len() {
        st
    } else {
        let prev = item_kids(ns, k - 1, c, st);
        let n = ns[k - 1];
        proof {
            assert(decreases_to!(ns => ns[k - 1]));
        }
        match n {
            Node::Paragraph(pch) => put(
                prev,
                wrapped_lines(inline_spans(pch@, c.theme.colors, default_style()), c.width, 0, 0),
            ),
            _ => block(n, c, prev),
        }
    }
}

/// A fresh line holding the centering margin.
fn margin_start(c: &LayoutCtx) -> (l: StyledLine)
    ensures
        line_view(l) == margin_line(*c),
{
    let mut l = StyledLine::new();
    if c.margin > 0 {
        l.push(pad_span(c.margin));
    }
    assert(line_view(l) =~= margin_line(*c));
    l
}

/// Appends `span` to the line.
fn push_to(l: &mut StyledLine, span: StyledSpan)
    ensures
        line_view(*final(l)) == line_view(*old(l)).push(span_view(span)),
{
    l.push(span);
    assert(line_view(*l) =~= line_view(*old(l)).push(span_view(span)));
}

/// Appends the spans of `rest` to the line.
fn extend_line(l: &mut StyledLine, rest: StyledLine)
    ensures
        line_view(*final(l)) == line_view(*old(l)) + line_view(rest),
{
    let mut r = rest;
    let ghost rv = line_view(r);
    l.spans.append(&mut r.spans);
    assert(line_view(*l) =~= line_view(*old(l)) + rv);
}

/// A span of `text` in the plain style colored `color`.
fn colored(text: String, color: &String) -> (s: StyledSpan)
    ensures
        span_view(s) == (text@, fg_style(color@)),
{
    let mut st = SpanStyle::default();
    st.fg = Some(color.clone());
    StyledSpan { text, style: st }
}

/// A `String` of the characters `cs`.
fn string_of(cs: &[char]) -> (s: String)
    ensures
        s@ == cs@,
{
    let s = crate::text::string_from(cs, 0, cs.len());
    assert(cs@.subrange(0, cs@.len() as int) =~= cs@);
    s
}

/// Appends lines to the layout.
fn add_lines(out: &mut LayoutResult, ls: Vec<StyledLine>)
    ensures
        laid(*final(out)) == put(laid(*old(out)), lines_view(ls@)),
{
    let mut ls = ls;
    let ghost lv = lines_view(ls@);
    out.lines.append(&mut ls);
    assert(laid(*out) =~= put(laid(*old(out)), lv));
}

/// Appends one line to the layout.
fn add_line(out: &mut LayoutResult, l: StyledLine)
    ensures
        laid(*final(out)) == put(laid(*old(out)), seq![line_view(l)]),
{
    out.lines.push(l);
    assert(laid(*out) =~= put(laid(*old(out)), seq![line_view(l)]));
}

/// Appends `n` empty lines to the layout.
fn add_blank(out: &mut LayoutResult, n: usize)
    ensures
        laid(*final(out)) == put(laid(*old(out)), blank_lines(n as int)),
{
    let mut i: usize = 0;
    while i < n
        invariant
            i <= n,
            laid(*out) == put(laid(*old(out)), blank_lines(i as int)),
        decreases n - i,
    {
        let e = StyledLine::empty();
        assert(line_view(e) =~= Seq::<(Seq<char>, StyleView)>::empty());
        add_line(out, e);
        proof {
            assert(blank_lines(i + 1) =~= blank_lines(i as int).push(Seq::<(Seq<char>, StyleView)>::empty()));
            assert(laid(*out) =~= put(laid(*old(out)), blank_lines(i + 1)));
        }
        i = i + 1;
    }
}

/// The spacing after a block.
fn add_spacing(out: &mut LayoutResult, c: &LayoutCtx)
    ensures
        laid(*final(out)) == spaced(laid(*old(out)), *c),
{
    add_blank(out, crate::cli::spacing_lines(c.spacing));
}

/// The color of a heading of `level`.
fn heading_color_of(colors: &ThemeColors, level: u8) -> (r: &String)
    ensures
        r@ == heading_color(*colors, level),
{
    if level == 1 {
        &colors.heading1
    } else if level == 2 {
        &colors.heading2
    } else if level == 3 {
        &colors.heading3
    } else if level == 4 {
        &colors.heading4
    } else if level == 5 {
        &colors.heading5
    } else {
        &colors.heading6
    }
}

/// The mark before a heading's first line.
fn heading_prefix_of(level: u8) -> (r: String)
    ensures
        r@ == heading_prefix(level),
{
    let cs = if level == 1 {
        vec!['\u{2588}', ' ']
    } else if level == 2 {
        vec!['\u{258C}', ' ']
    } else if level == 3 {
        vec!['\u{258E}', ' ']
    } else {
        vec![' ', ' ']
    };
    string_of(&cs)
}

/// A heading: blank lines, its recorded place, its wrapped text behind the
/// mark, spacing.
fn layout_heading(level: u8, ch: &Vec<Node>, source_line: usize, c: &LayoutCtx, out: &mut LayoutResult)
    ensures
        laid(*final(out)) == heading(level, ch@, source_line, *c, laid(*old(out))),
{
    let colors = &c.theme.colors;
    let color = heading_color_of(colors, level);
    add_blank(out, if level <= 2 { 2 } else { 1 });
    if c.record_headings {
        let text = collect_child_text(ch);
        let ghost before = laid(*out);
        out.headings.push(LayoutHeading { level, text, line_index: out.lines.len(), source_line });
        assert(laid(*out) =~= Laid {
            headings: before.headings.push((level, child_text(ch@), before.lines.len() as int, source_line as int)),
            ..before
        });
    }
    let mut spans: Vec<StyledSpan> = Vec::new();
    collect_inlines(ch, colors, &SpanStyle::default(), &mut spans);
    let ghost sv = spans_view(spans@);
    assert(sv =~= inline_spans(ch@, *colors, default_style()));
    let mut k: usize = 0;
    while k < spans.len()
        invariant
            k <= spans@.len(),
            sv.len() == spans@.len(),
            forall|j: int| 0 <= j < k ==> #[trigger] span_view(spans@[j]) == (sv[j].0, StyleView { fg: Some(color@), bold: true, ..sv[j].1 }),
            forall|j: int| k <= j < spans@.len() ==> #[trigger] span_view(spans@[j]) == sv[j],
        decreases spans@.len() - k,
    {
        let old_sp = spans[k].dup();
        assert(span_view(old_sp) == sv[k as int]);
        let mut st = old_sp.style.dup();
        st.fg = Some(color.clone());
        st.bold = true;
        assert(style_view(st) == StyleView { fg: Some(color@), bold: true, ..style_view(old_sp.style) });
        let sp = StyledSpan { text: old_sp.text, style: st };
        assert(span_view(sp) == (sv[k as int].0, StyleView { fg: Some(color@), bold: true, ..sv[k as int].1 }));
        let ghost prev = spans@;
        spans.set(k, sp);
        assert forall|j: int| 0 <= j < k + 1 implies #[trigger] span_view(spans@[j]) == (sv[j].0, StyleView { fg: Some(color@), bold: true, ..sv[j].1 }) by {
            if j < k {
                assert(spans@[j] == prev[j]);
            }
        }
        assert forall|j: int| k + 1 <= j < spans@.len() implies #[trigger] span_view(spans@[j]) == sv[j] by {
            assert(spans@[j] == prev[j]);
        }
        k = k + 1;
    }
    assert(spans_view(spans@) =~= as_heading(sv, color@));
    let prefix = heading_prefix_of(level);
    let pw = crate::unicode::text_width(prefix.as_str());
    let width = if c.width > pw { c.width - pw } else { 0 };
    let content = wrap_spans(spans, width, 0, 0);
    let ghost cv = lines_view(content@);
    let ghost base = laid(*out);
    let mut i: usize = 0;
    while i < content.len()
        invariant
            i <= content@.len(),
            cv == lines_view(content@),
            laid(*out) == put(base, heading_lines(cv, *c, level).take(i as int)),
            prefix@ == heading_prefix(level),
            pw == display_width(prefix@),
            color@ == heading_color(c.theme.colors, level),
        decreases content@.len() - i,
    {
        let mut line = margin_start(c);
        if i == 0 {
            push_to(&mut line, colored(prefix.clone(), color));
        } else {
            push_to(&mut line, pad_span(pw));
        }
        extend_line(&mut line, content[i].dup());
        assert(line_view(line) == heading_lines(cv, *c, level)[i as int]);
        add_line(out, line);
        proof {
            assert(heading_lines(cv, *c, level).take(i + 1) =~= heading_lines(cv, *c, level).take(i as int).push(
                heading_lines(cv, *c, level)[i as int],
            ));
            assert(laid(*out) =~= put(base, heading_lines(cv, *c, level).take(i + 1)));
        }
        i = i + 1;
    }
    assert(heading_lines(cv, *c, level).take(content@.len() as int) =~= heading_lines(cv, *c, level));
    add_spacing(out, c);
}

/// An image's caption.
fn caption_lines(alt: &String, c: &LayoutCtx) -> (ls: Vec<StyledLine>)
    ensures
        lines_view(ls@) == caption(alt@, *c),
{
    let mut ls: Vec<StyledLine> = Vec::new();
    if !alt.as_str().is_empty() {
        let mut line = margin_start(c);
        let mut text = string_of(&[' ', ' ']);
        text.append(alt.as_str());
        assert(text@ =~= seq![' ', ' '] + alt@);
        let mut st = SpanStyle::default();
        st.fg = Some(c.theme.colors.link_url.clone());
        st.italic = true;
        push_to(&mut line, StyledSpan { text, style: st });
        assert(line_view(line) =~= caption(alt@, *c)[0]);
        ls.push(line);
    }
    assert(lines_view(ls@) =~= caption(alt@, *c));
    ls
}

/// The line that stands for an image that was not drawn.
fn note_line_exec(url: &String, alt: &String, note: &String, c: &LayoutCtx) -> (ls: Vec<StyledLine>)
    ensures
        lines_view(ls@) == note_line(url@, alt@, note@, *c),
{
    let mut text = String::new();
    crate::text::push_char(&mut text, '\u{1F5BC}');
    crate::text::push_char(&mut text, ' ');
    if alt.as_str().is_empty() {
        text.append(url.as_str());
    } else {
        text.append(alt.as_str());
    }
    text.append(note.as_str());
    assert(text@ =~= image_mark(url@, alt@) + note@);
    let mut st = SpanStyle::default();
    st.fg = Some(c.theme.colors.link_url.clone());
    st.italic = true;
    let mut line = margin_start(c);
    push_to(&mut line, StyledSpan { text, style: st });
    assert(line_view(line) =~= note_line(url@, alt@, note@, *c)[0]);
    let mut ls: Vec<StyledLine> = Vec::new();
    ls.push(line);
    assert(lines_view(ls@) =~= note_line(url@, alt@, note@, *c));
    ls
}

/// An image alone in its paragraph, laid out as a block from line `at`.
fn image_block_exec(n: &Node, c: &LayoutCtx, at: usize) -> (r: Option<(Vec<StyledLine>, Vec<ImageSpec>)>)
    ensures
        match r {
            Some(b) => image_block(*n, *c, at as int) == Some((lines_view(b.0@), b.1@)),
            None => image_block(*n, *c, at as int) is None,
        },
{
    if let Node::Image(url, alt_nodes, load) = n {
        let alt = collect_child_text(alt_nodes);
        match load {
            ImageLoad::RemoteBlocked => {
                let note = String::from_str(" (remote image \u{2014} pass --remote-images to load)");
                let ls = note_line_exec(url, &alt, &note, c);
                let specs: Vec<ImageSpec> = Vec::new();
                assert(specs@ =~= Seq::<ImageSpec>::empty());
                Some((ls, specs))
            },
            ImageLoad::NotFound => {
                let note = String::from_str(" (image not found)");
                let ls = note_line_exec(url, &alt, &note, c);
                let specs: Vec<ImageSpec> = Vec::new();
                assert(specs@ =~= Seq::<ImageSpec>::empty());
                Some((ls, specs))
            },
            ImageLoad::Loaded(pic) => {
                if c.graphics_font.is_some() && c.record_headings {
                    let font = c.graphics_font.unwrap();
                    let mc: usize = if c.width > 1 {
                        c.width
                    } else {
                        1
                    };
                    let max_cols: u16 = #[verifier::truncate] (mc as u16);
                    let (cols, rows) = crate::graphics::cell_dimensions(pic.width, pic.height, font, max_cols, 30);
                    let mut ls: Vec<StyledLine> = Vec::new();
                    let e = StyledLine::empty();
                    assert(line_view(e) =~= Seq::<(Seq<char>, StyleView)>::empty());
                    ls.push(e);
                    let mut k: u16 = 0;
                    while k < rows
                        invariant
                            k <= rows,
                            lines_view(ls@) == seq![Seq::<(Seq<char>, StyleView)>::empty()] + blank_lines(k as int),
                        decreases rows - k,
                    {
                        let e2 = StyledLine::empty();
                        assert(line_view(e2) =~= Seq::<(Seq<char>, StyleView)>::empty());
                        let ghost before = lines_view(ls@);
                        ls.push(e2);
                        assert(lines_view(ls@) =~= before.push(Seq::<(Seq<char>, StyleView)>::empty()));
                        assert(blank_lines(k + 1) =~= blank_lines(k as int).push(Seq::<(Seq<char>, StyleView)>::empty()));
                        k = k + 1;
                    }
                    let mut cap = caption_lines(&alt, c);
                    let ghost before = lines_view(ls@);
                    let ghost capv = lines_view(cap@);
                    ls.append(&mut cap);
                    assert(lines_view(ls@) =~= before + capv);
                    let line_index = if at < usize::MAX { at + 1 } else { at };
                    let mut specs: Vec<ImageSpec> = Vec::new();
                    specs.push(ImageSpec { line_index, col_offset: #[verifier::truncate] (c.margin as u16), cols, rows, image: pic.id });
                    proof {
                        let d = cell_dims(*pic, font, max_cols);
                        assert(max_cols == image_max_cols(*c));
                        assert(cols as int == d.0 && rows as int == d.1);
                        let blk = image_block(*n, *c, at as int)->0;
                        assert(lines_view(ls@) =~= blk.0);
                        assert(specs@ =~= blk.1);
                    }
                    Some((ls, specs))
                } else {
                    match render_halfblock(pic, c.width, c.margin, c.background) {
                        Some(ls0) => {
                            let mut ls = ls0;
                            let mut cap = caption_lines(&alt, c);
                            let ghost before = lines_view(ls@);
                            let ghost capv = lines_view(cap@);
                            ls.append(&mut cap);
                            assert(lines_view(ls@) =~= before + capv);
                            let specs: Vec<ImageSpec> = Vec::new();
                            assert(specs@ =~= Seq::<ImageSpec>::empty());
                            Some((ls, specs))
                        },
                        None => None,
                    }
                }
            },
            _ => None,
        }
    } else {
        None
    }
}

/// A paragraph: a lone image as a block when images are on, else its text
/// wrapped; spacing after.
fn layout_paragraph(ch: &Vec<Node>, c: &LayoutCtx, out: &mut LayoutResult)
    ensures
        laid(*final(out)) == paragraph(ch@, *c, laid(*old(out))),
{
    if c.images != ImageMode::Off && ch.len() == 1 {
        if let Some(b) = image_block_exec(&ch[0], c, out.lines.len()) {
            let (ls, specs) = b;
            let ghost st = laid(*out);
            let mut specs = specs;
            add_lines(out, ls);
            out.images.append(&mut specs);
            let ghost blk = image_block(ch@[0], *c, st.lines.len() as int)->0;
            assert(laid(*out) =~= Laid { lines: st.lines + blk.0, headings: st.headings, images: st.images + blk.1 });
            add_spacing(out, c);
            return;
        }
    }
    layout_text_paragraph(ch, c, out);
}

/// A paragraph of text: its inline content wrapped, then spacing.
fn layout_text_paragraph(ch: &Vec<Node>, c: &LayoutCtx, out: &mut LayoutResult)
    ensures
        laid(*final(out)) == text_paragraph(ch@, *c, laid(*old(out))),
{
    let mut spans: Vec<StyledSpan> = Vec::new();
    collect_inlines(ch, &c.theme.colors, &SpanStyle::default(), &mut spans);
    assert(spans_view(spans@) =~= inline_spans(ch@, c.theme.colors, default_style()));
    let wrapped = wrap_spans(spans, c.width, c.indent, c.margin);
    add_lines(out, wrapped);
    add_spacing(out, c);
}

/// `n` copies of `ch`.
fn repeat_char(ch: char, n: usize) -> (s: String)
    ensures
        s@ == Seq::new(n as nat, |i: int| ch),
{
    let mut s = String::new();
    let mut i: usize = 0;
    while i < n
        invariant
            i <= n,
            s@ == Seq::new(i as nat, |j: int| ch),
        decreases n - i,
    {
        crate::text::push_char(&mut s, ch);
        assert(Seq::new((i + 1) as nat, |j: int| ch) =~= Seq::new(i as nat, |j: int| ch).push(ch));
        i = i + 1;
    }
    s
}

/// A thematic break.
fn layout_rule(c: &LayoutCtx, out: &mut LayoutResult)
    ensures
        laid(*final(out)) == put(laid(*old(out)), rule_lines(*c)),
{
    let w = if c.width < 60 { c.width } else { 60 };
    let left = (c.width - w) / 2;
    let half = w / 2;
    let n = if half > 3 { half - 3 } else { 0 };
    let mut text = repeat_char('\u{254C}', n);
    let mid = vec![' ', ' ', '\u{25C6}', ' ', ' '];
    text.append(string_of(&mid).as_str());
    text.append(repeat_char('\u{254C}', n).as_str());
    assert(text@ =~= dashes(sat_sub(half as int, 3)) + seq![' ', ' ', '\u{25C6}', ' ', ' '] + dashes(sat_sub(half as int, 3)));
    let mut line = margin_start(c);
    if left > 0 {
        push_to(&mut line, pad_span(left));
    }
    push_to(&mut line, colored(text, &c.theme.colors.hr));
    let ghost lv = line_view(line);
    assert(lv =~= rule_lines(*c)[1]);
    let e1 = StyledLine::empty();
    let e2 = StyledLine::empty();
    assert(line_view(e1) =~= Seq::<(Seq<char>, StyleView)>::empty());
    assert(line_view(e2) =~= Seq::<(Seq<char>, StyleView)>::empty());
    let mut ls: Vec<StyledLine> = Vec::new();
    ls.push(e1);
    ls.push(line);
    ls.push(e2);
    assert(lines_view(ls@)[1] == lv);
    assert(lines_view(ls@) =~= rule_lines(*c));
    add_lines(out, ls);
}

/// Raw HTML: each non-blank line in the link-destination color, wrapped.
fn layout_html(lit: &String, c: &LayoutCtx, out: &mut LayoutResult)
    ensures
        laid(*final(out)) == put(laid(*old(out)), html_lines(lines_of(lit@), *c)),
{
    let v = crate::text::chars_of(lit.as_str());
    let ls = crate::text::split_lines(&v);
    let ghost lsv = ls@.map_values(|l: Vec<char>| l@);
    let ghost base = laid(*out);
    let mut i: usize = 0;
    while i < ls.len()
        invariant
            i <= ls@.len(),
            lsv == ls@.map_values(|l: Vec<char>| l@),
            lsv == lines_of(lit@),
            laid(*out) == put(base, html_lines(lsv.take(i as int), *c)),
        decreases ls@.len() - i,
    {
        proof {
            assert(lsv.take(i + 1).drop_last() =~= lsv.take(i as int));
            assert(lsv.take(i + 1).last() == ls@[i as int]@);
        }
        let lo = crate::text::trim_start_at(&ls[i], 0, ls[i].len());
        let hi = crate::text::trim_end_at(&ls[i], lo, ls[i].len());
        proof {
            assert(ls@[i as int]@.subrange(0, ls@[i as int]@.len() as int) =~= ls@[i as int]@);
        }
        if lo < hi {
            let text = string_of(&ls[i]);
            let mut st = SpanStyle::default();
            st.fg = Some(c.theme.colors.link_url.clone());
            let spans = vec![StyledSpan { text, style: st }];
            assert(spans_view(spans@) =~= seq![(ls@[i as int]@, fg_style(c.theme.colors.link_url@))]);
            let wrapped = wrap_spans(spans, c.width, 0, c.margin);
            add_lines(out, wrapped);
        }
        proof {
            assert(laid(*out) =~= put(base, html_lines(lsv.take(i + 1), *c)));
        }
        i = i + 1;
    }
    assert(lsv.take(ls@.len() as int) =~= lsv);
}

/// The spans of a table row, appended to `spans`.
fn row_spans(cells: &Vec<Node>, c: &LayoutCtx, spans: &mut Vec<StyledSpan>)
    ensures
        spans_view(final(spans)@) == spans_view(old(spans)@) + table_row(cells@, *c),
{
    let ghost before = spans_view(spans@);
    let mut k: usize = 0;
    while k < cells.len()
        invariant
            k <= cells@.len(),
            spans_view(spans@) == before + table_row(cells@.take(k as int), *c),
        decreases cells@.len() - k,
    {
        proof {
            assert(cells@.take(k + 1).drop_last() =~= cells@.take(k as int));
            assert(cells@.take(k + 1).last() == cells@[k as int]);
        }
        let ghost s0 = spans_view(spans@);
        if k > 0 {
            let bar = vec![' ', '\u{2502}', ' '];
            push_styled(spans, colored(string_of(&bar), &c.theme.colors.table_border));
        }
        let ghost s1 = spans_view(spans@);
        if let Some(ch) = kids_of(&cells[k]) {
            collect_inlines(ch, &c.theme.colors, &SpanStyle::default(), spans);
        } else {
            assert(inline_spans(kids(cells@[k as int]), c.theme.colors, default_style()) =~= Seq::<(Seq<char>, StyleView)>::empty());
        }
        proof {
            assert(spans_view(spans@) =~= before + table_row(cells@.take(k + 1), *c));
        }
        k = k + 1;
    }
    assert(cells@.take(cells@.len() as int) =~= cells@);
}

/// A table: each row wrapped on lines of its own, then spacing.
fn layout_table(rows: &Vec<Node>, c: &LayoutCtx, out: &mut LayoutResult)
    ensures
        laid(*final(out)) == spaced(put(laid(*old(out)), table_lines(rows@, *c)), *c),
{
    let ghost base = laid(*out);
    let mut k: usize = 0;
    while k < rows.len()
        invariant
            k <= rows@.len(),
            laid(*out) == put(base, table_lines(rows@.take(k as int), *c)),
        decreases rows@.len() - k,
    {
        proof {
            assert(rows@.take(k + 1).drop_last() =~= rows@.take(k as int));
            assert(rows@.take(k + 1).last() == rows@[k as int]);
        }
        let mut spans: Vec<StyledSpan> = Vec::new();
        if let Some(cells) = kids_of(&rows[k]) {
            row_spans(cells, c, &mut spans);
        }
        assert(spans_view(spans@) =~= table_row(kids(rows@[k as int]), *c));
        let wrapped = wrap_spans(spans, c.width, 0, c.margin);
        add_lines(out, wrapped);
        proof {
            assert(laid(*out) =~= put(base, table_lines(rows@.take(k + 1), *c)));
        }
        k = k + 1;
    }
    assert(rows@.take(rows@.len() as int) =~= rows@);
    add_spacing(out, c);
}

/// The first word of `info`.
fn first_word_of(info: &String) -> (w: String)
    ensures
        w@ == first_word(info@),
{
    let v = crate::text::chars_of(info.as_str());
    let n = v.len();
    let lo = crate::text::trim_start_at(&v, 0, n);
    proof {
        assert(v@.subrange(0, n as int) =~= info@);
    }
    let mut e = lo;
    while e < n && !crate::text::is_whitespace(v[e])
        invariant
            lo <= e <= n,
            n == v@.len(),
            word_len(v@.subrange(lo as int, n as int)) == (e - lo) + word_len(v@.subrange(e as int, n as int)),
        decreases n - e,
    {
        assert(v@.subrange(e as int, n as int).drop_first() =~= v@.subrange(e + 1, n as int));
        e = e + 1;
    }
    let w = crate::text::string_from(&v, lo, e);
    assert(v@.subrange(lo as int, n as int).take(e - lo) =~= v@.subrange(lo as int, e as int));
    w
}

/// The lines of `lit`, each with its `\n`.
fn lines_with_endings_of(lit: &String) -> (ls: Vec<String>)
    ensures
        ls@.map_values(|l: String| l@) == lines_with_endings(lit@),
{
    let v = crate::text::chars_of(lit.as_str());
    let n = v.len();
    let mut ls: Vec<String> = Vec::new();
    let mut pos: usize = 0;
    assert(v@.skip(0) =~= lit@);
    while pos < n
        invariant
            pos <= n,
            n == v@.len(),
            v@ == lit@,
            lines_with_endings(lit@) == ls@.map_values(|l: String| l@) + lines_with_endings(v@.skip(pos as int)),
        decreases n - pos,
    {
        let e = crate::text::line_end(&v, pos);
        let line = crate::text::string_from(&v, pos, e);
        proof {
            let t = v@.skip(pos as int);
            crate::text::lemma_line_len_bound(t);
            assert(t.take(line_len(t) as int) =~= v@.subrange(pos as int, e as int));
            assert(t.skip(line_len(t) as int) =~= v@.skip(e as int));
        }
        let ghost before = ls@.map_values(|l: String| l@);
        ls.push(line);
        assert(ls@.map_values(|l: String| l@) =~= before.push(line@));
        pos = e;
    }
    assert(lines_with_endings(v@.skip(n as int)) =~= Seq::<Seq<char>>::empty());
    assert(ls@.map_values(|l: String| l@) + Seq::<Seq<char>>::empty() =~= ls@.map_values(|l: String| l@));
    ls
}

proof fn lemma_tab_fold_col(s: Seq<char>)
    ensures
        0 <= tab_fold(s).1 < 4,
    decreases s.len(),
{
    if s.len() > 0 {
        lemma_tab_fold_col(s.drop_last());
        let ch = s.last();
        if ch != '\t' {
            assert(char_cells(ch) >= 0);
        }
    }
}

/// `s` with its tabs expanded at 4-column stops.
fn expanded_tabs(s: &String) -> (r: String)
    ensures
        r@ == expand_tabs(s@),
{
    let v = crate::text::chars_of(s.as_str());
    let mut r = String::new();
    let mut col: usize = 0;
    let mut i: usize = 0;
    while i < v.len()
        invariant
            i <= v@.len(),
            v@ == s@,
            (r@, col as int) == tab_fold(v@.take(i as int)),
            col < 4,
        decreases v@.len() - i,
    {
        proof {
            assert(v@.take(i + 1).drop_last() =~= v@.take(i as int));
            assert(v@.take(i + 1).last() == v@[i as int]);
            lemma_tab_fold_col(v@.take(i + 1));
        }
        if v[i] == '\t' {
            let n = 4 - col;
            r.append(space_run(n).as_str());
            col = 0;
        } else {
            crate::text::push_char(&mut r, v[i]);
            let w: usize = match crate::unicode::char_width(v[i]) {
                Some(w) => w,
                None => 0,
            };
            col = (col + w) % 4;
        }
        assert((r@, col as int) =~= tab_fold(v@.take(i + 1)));
        i = i + 1;
    }
    assert(v@.take(v@.len() as int) =~= s@);
    r
}

/// `s` without its trailing `\n`s.
fn trimmed_newlines(s: &String) -> (r: String)
    ensures
        r@ == trim_newlines(s@),
{
    let v = crate::text::chars_of(s.as_str());
    let mut e = v.len();
    assert(v@.subrange(0, v@.len() as int) =~= s@);
    while e > 0 && v[e - 1] == '\n'
        invariant
            e <= v@.len(),
            trim_newlines(s@) == trim_newlines(v@.subrange(0, e as int)),
        decreases e,
    {
        assert(v@.subrange(0, e as int).drop_last() =~= v@.subrange(0, e - 1));
        e = e - 1;
    }
    crate::text::string_from(&v, 0, e)
}

/// A lowercase hexadecimal digit.
fn hex_digit_char(d: u8) -> (c: char)
    requires
        d < 16,
    ensures
        c == hex_char(d as int),
{
    if d < 10 {
        (48 + d) as char
    } else {
        (87 + d) as char
    }
}

/// A color as `#rrggbb`.
pub(crate) fn hex_color(r: u8, g: u8, b: u8) -> (s: String)
    ensures
        s@ == color_hex(r, g, b),
{
    let cs = vec![
        '#',
        hex_digit_char(r / 16),
        hex_digit_char(r % 16),
        hex_digit_char(g / 16),
        hex_digit_char(g % 16),
        hex_digit_char(b / 16),
        hex_digit_char(b % 16),
    ];
    let s = string_of(&cs);
    assert(s@ =~= color_hex(r, g, b));
    s
}

/// The spans of one code line.
fn code_line_spans(h: &Option<Vec<(String, u8, u8, u8)>>, line: &String, c: &LayoutCtx) -> (spans: Vec<StyledSpan>)
    ensures
        spans_view(spans@) == code_content(
            match *h {
                Some(v) => Some(crate::highlight::pieces_view(v)),
                None => None,
            },
            line@,
            *c,
        ),
{
    let mut spans: Vec<StyledSpan> = Vec::new();
    match h {
        Some(ps) => {
            let ghost pv = crate::highlight::pieces_view(*ps);
            let mut k: usize = 0;
            while k < ps.len()
                invariant
                    k <= ps@.len(),
                    pv == crate::highlight::pieces_view(*ps),
                    spans_view(spans@) == code_pieces(pv.take(k as int)),
                decreases ps@.len() - k,
            {
                proof {
                    assert(pv.take(k + 1).drop_last() =~= pv.take(k as int));
                    assert(pv.take(k + 1).last() == pv[k as int]);
                }
                let t = trimmed_newlines(&ps[k].0);
                if !t.as_str().is_empty() {
                    let color = hex_color(ps[k].1, ps[k].2, ps[k].3);
                    push_styled(&mut spans, colored(t, &color));
                }
                proof {
                    assert(spans_view(spans@) =~= code_pieces(pv.take(k + 1)));
                }
                k = k + 1;
            }
            assert(pv.take(ps@.len() as int) =~= pv);
        },
        None => {
            let t = trimmed_newlines(line);
            push_styled(&mut spans, colored(t, &c.theme.colors.code_fg));
            assert(spans_view(spans@) =~= code_content(None, line@, *c));
        },
    }
    spans
}

/// The box lines of one code line's visual lines.
fn box_lines(visual: Vec<Vec<StyledSpan>>, cw: usize, c: &LayoutCtx, out: &mut LayoutResult)
    ensures
        laid(*final(out)) == put(
            laid(*old(out)),
            boxed(visual@.map_values(|l: Vec<StyledSpan>| spans_view(l@)), cw as int, *c),
        ),
{
    let ghost vv = visual@.map_values(|l: Vec<StyledSpan>| spans_view(l@));
    let ghost all = boxed(vv, cw as int, *c);
    let ghost base = laid(*out);
    let mut i: usize = 0;
    while i < visual.len()
        invariant
            i <= visual@.len(),
            vv == visual@.map_values(|l: Vec<StyledSpan>| spans_view(l@)),
            all == boxed(vv, cw as int, *c),
            laid(*out) == put(base, all.take(i as int)),
        decreases visual@.len() - i,
    {
        let mut line = margin_start(c);
        let bar = vec!['\u{2502}', ' '];
        push_to(&mut line, colored(string_of(&bar), &c.theme.colors.table_border));
        let ghost head = line_view(line);
        let mut w: usize = 0;
        let mut j: usize = 0;
        while j < visual[i].len()
            invariant
                i < visual@.len(),
                j <= visual@[i as int]@.len(),
                vv == visual@.map_values(|l: Vec<StyledSpan>| spans_view(l@)),
                line_view(line) == head + vv[i as int].take(j as int),
                w as int == if view_width(vv[i as int].take(j as int)) < usize::MAX {
                    view_width(vv[i as int].take(j as int))
                } else {
                    usize::MAX as int
                },
                view_width(vv[i as int].take(j as int)) >= 0,
            decreases visual@[i as int]@.len() - j,
        {
            proof {
                assert(vv[i as int].take(j + 1).drop_last() =~= vv[i as int].take(j as int));
                assert(vv[i as int].take(j + 1).last() == span_view(visual@[i as int]@[j as int]));
            }
            let sw = crate::unicode::text_width(visual[i][j].text.as_str());
            w = w.saturating_add(sw);
            push_to(&mut line, visual[i][j].dup());
            proof {
                assert(line_view(line) =~= head + vv[i as int].take(j + 1));
            }
            j = j + 1;
        }
        assert(vv[i as int].take(visual@[i as int]@.len() as int) =~= vv[i as int]);
        let pad = if cw > w { cw - w } else { 0 };
        assert(pad == sat_sub(cw as int, view_width(vv[i as int])));
        let mut tail = space_run(pad);
        crate::text::push_char(&mut tail, ' ');
        crate::text::push_char(&mut tail, '\u{2502}');
        assert(tail@ =~= spaces(sat_sub(cw as int, view_width(vv[i as int])) as nat) + seq![' ', '\u{2502}']);
        push_to(&mut line, colored(tail, &c.theme.colors.table_border));
        assert(line_view(line) =~= all[i as int]);
        add_line(out, line);
        proof {
            assert(all.take(i + 1) =~= all.take(i as int).push(all[i as int]));
            assert(laid(*out) =~= put(base, all.take(i + 1)));
        }
        i = i + 1;
    }
    assert(all.take(visual@.len() as int) =~= all);
}

/// `n` horizontal box lines, then `end`.
fn rule_run(n: usize, end: char) -> (s: String)
    ensures
        s@ == rules(n as int).push(end),
{
    let mut s = repeat_char('\u{2500}', n);
    crate::text::push_char(&mut s, end);
    assert(s@ =~= rules(n as int).push(end));
    s
}

/// A code block: the labeled box, each line highlighted and hard-wrapped
/// inside it, spacing.
fn layout_code_block(info: &String, lit: &String, c: &LayoutCtx, out: &mut LayoutResult)
    ensures
        laid(*final(out)) == code_block(info@, lit@, *c, laid(*old(out))),
{
    let lang = first_word_of(info);
    let bw = if c.width > 8 { c.width } else { 8 };
    let cw = bw - 4;
    let border = &c.theme.colors.table_border;
    let mut header = margin_start(c);
    if lang.as_str().is_empty() {
        let mut text = String::new();
        crate::text::push_char(&mut text, '\u{256D}');
        text.append(rule_run(bw - 2, '\u{256E}').as_str());
        assert(text@ =~= seq!['\u{256D}'] + rules(bw - 2) + seq!['\u{256E}']);
        push_to(&mut header, colored(text, border));
        assert(line_view(header) =~= code_header(lang@, bw as int, *c));
    } else {
        let mut label = String::new();
        crate::text::push_char(&mut label, ' ');
        label.append(lang.as_str());
        crate::text::push_char(&mut label, ' ');
        let lw = crate::unicode::text_width(label.as_str());
        let remaining = if bw > lw && bw - lw > 3 { bw - lw - 3 } else { 0 };
        assert(label@ =~= seq![' '] + lang@ + seq![' ']);
        assert(remaining == sat_sub(bw as int, display_width(label@) + 3));
        let corner = vec!['\u{256D}', '\u{2500}'];
        push_to(&mut header, colored(string_of(&corner), border));
        push_to(&mut header, colored(label, &c.theme.colors.heading3));
        let tail = rule_run(remaining, '\u{256E}');
        assert(tail@ =~= rules(remaining as int) + seq!['\u{256E}']);
        push_to(&mut header, colored(tail, border));
        assert(line_view(header) =~= code_header(lang@, bw as int, *c));
    }
    let ghost start = laid(*out);
    add_line(out, header);
    let raw = lines_with_endings_of(lit);
    let mut ls: Vec<String> = Vec::new();
    let mut q: usize = 0;
    while q < raw.len()
        invariant
            q <= raw@.len(),
            ls@.len() == q,
            forall|k: int| 0 <= k < q ==> #[trigger] ls@[k]@ == expand_tabs(raw@[k]@),
        decreases raw@.len() - q,
    {
        let ghost before = ls@;
        ls.push(expanded_tabs(&raw[q]));
        assert forall|k: int| 0 <= k < q + 1 implies #[trigger] ls@[k]@ == expand_tabs(raw@[k]@) by {
            if k < q {
                assert(ls@[k] == before[k]);
            }
        }
        q = q + 1;
    }
    assert(ls@.map_values(|l: String| l@) =~= raw@.map_values(|l: String| l@).map_values(|l: Seq<char>| expand_tabs(l)));
    let theme = if crate::highlight::theme_known(c.theme.code_theme.as_str()) {
        c.theme.code_theme.clone()
    } else {
        String::from_str("base16-ocean.dark")
    };
    assert(theme@ == code_theme(*c));
    let hl = crate::highlight::highlight_lines(lang.as_str(), theme.as_str(), &ls);
    let ghost lsv = ls@.map_values(|l: String| l@);
    let ghost hlv = highlight_view(hl@);
    let ghost base = laid(*out);
    let mut i: usize = 0;
    while i < ls.len()
        invariant
            i <= ls@.len(),
            hl@.len() == ls@.len(),
            lsv == ls@.map_values(|l: String| l@),
            hlv == highlight_view(hl@),
            cw == bw - 4,
            laid(*out) == put(base, code_body(lsv.take(i as int), hlv, cw, *c)),
        decreases ls@.len() - i,
    {
        proof {
            assert(lsv.take(i + 1).drop_last() =~= lsv.take(i as int));
            assert(lsv.take(i + 1).last() == ls@[i as int]@);
        }
        let spans = code_line_spans(&hl[i], &ls[i], c);
        let visual = wrap_code_spans(spans, cw);
        box_lines(visual, cw, c, out);
        proof {
            assert(laid(*out) =~= put(base, code_body(lsv.take(i + 1), hlv, cw, *c)));
        }
        i = i + 1;
    }
    assert(lsv.take(ls@.len() as int) =~= lsv);
    let mut footer = margin_start(c);
    let mut text = String::new();
    crate::text::push_char(&mut text, '\u{2570}');
    text.append(rule_run(bw - 2, '\u{256F}').as_str());
    assert(text@ =~= seq!['\u{2570}'] + rules(bw - 2) + seq!['\u{256F}']);
    push_to(&mut footer, colored(text, border));
    assert(line_view(footer) =~= margin_line(*c) + seq![
        (seq!['\u{2570}'] + rules(bw - 2) + seq!['\u{256F}'], fg_style(c.theme.colors.table_border@)),
    ]);
    add_line(out, footer);
    proof {
        let lang_v = first_word(info@);
        assert(laid(*out) =~= put(
            start,
            seq![code_header(lang_v, bw as int, *c)] + code_body(
                lines_with_endings(lit@).map_values(|l: Seq<char>| expand_tabs(l)),
                code_highlight(lang_v, code_theme(*c), lines_with_endings(lit@).map_values(|l: Seq<char>| expand_tabs(l))),
                cw,
                *c,
            )
                + seq![line_view(footer)],
        ));
    }
    add_spacing(out, c);
}

impl LayoutResult {
    /// Nothing laid out yet.
    pub fn new() -> (r: Self)
        ensures
            laid(r) == fresh(),
    {
        let r = LayoutResult { lines: Vec::new(), headings: Vec::new(), images: Vec::new() };
        assert(laid(r) =~= fresh());
        r
    }
}

/// The context of nested content: four columns narrower, indented by
/// `indent`, at no margin, not the top level.
fn nested_ctx<'a>(c: &LayoutCtx<'a>, indent: usize) -> (r: LayoutCtx<'a>)
    ensures
        r == nested(*c, indent),
{
    LayoutCtx {
        theme: c.theme,
        width: if c.width > 4 { c.width - 4 } else { 0 },
        indent,
        spacing: c.spacing,
        margin: 0,
        images: c.images,
        graphics_font: c.graphics_font,
        record_headings: false,
        background: c.background,
    }
}

proof fn lemma_first_index(s: Seq<char>, c: char)
    ensures
        first_index(s, c) <= s.len(),
        s.len() >= 2 && s[0] != c && s[1] != c ==> first_index(s, c) >= 2,
    decreases s.len(),
{
    if s.len() > 0 && s[0] != c {
        lemma_first_index(s.drop_first(), c);
        if s.len() >= 2 && s[1] != c {
            assert(s.drop_first()[0] == s[1]);
        }
    }
}

/// The admonition kind a quote opens with.
#[verifier::rlimit(40)]
#[verifier::spinoff_prover]
fn detect_admonition(ch: &Vec<Node>) -> (r: Option<String>)
    ensures
        match r {
            Some(k) => admonition(ch@) == Some(k@),
            None => admonition(ch@) is None,
        },
{
    if ch.len() == 0 {
        return None;
    }
    if let Node::Paragraph(p) = &ch[0] {
        if p.len() > 0 {
            if let Node::Text(t) = &p[0] {
                let v = crate::text::chars_of(t.as_str());
                let n = v.len();
                let lo = crate::text::trim_start_at(&v, 0, n);
                let hi = crate::text::trim_end_at(&v, lo, n);
                proof {
                    assert(v@.subrange(0, n as int) =~= t@);
                }
                let ghost tr = v@.subrange(lo as int, hi as int);
                assert(tr == trim(t@));
                if hi - lo >= 2 && v[lo] == '[' && v[lo + 1] == '!' && crate::text::range_contains(&v, lo, hi, ']') {
                    let q = crate::text::first_index_at(&v, lo, hi, ']');
                    proof {
                        assert(tr[0] == v@[lo as int] && tr[1] == v@[lo + 1]);
                        lemma_first_index(tr, ']');
                    }
                    let kind = crate::text::string_from(&v, lo + 2, lo + q);
                    assert(kind@ =~= tr.subrange(2, first_index(tr, ']') as int));
                    return Some(crate::text::uppercase(kind.as_str()));
                }
                return None;
            }
        }
    }
    None
}

/// Whether `a` is the kind `k`.
fn is_kind(a: &String, k: &[char]) -> (b: bool)
    ensures
        b == (a@ == k@),
{
    let v = crate::text::chars_of(a.as_str());
    crate::text::seq_eq(&v, k)
}

/// The color of a quote's bar.
fn bar_color_of(colors: &ThemeColors, adm: &Option<String>, depth: usize) -> (r: String)
    ensures
        r@ == bar_color(*colors, match *adm {
            Some(a) => Some(a@),
            None => None,
        }, depth),
{
    match adm {
        Some(a) => {
            proof {
                assert(note_kind() =~= seq!['N', 'O', 'T', 'E']);
            }
            if is_kind(a, &['N', 'O', 'T', 'E']) {
                colors.admonition_note.clone()
            } else if is_kind(a, &['T', 'I', 'P']) {
                colors.admonition_tip.clone()
            } else if is_kind(a, &['I', 'M', 'P', 'O', 'R', 'T', 'A', 'N', 'T']) {
                colors.admonition_important.clone()
            } else if is_kind(a, &['W', 'A', 'R', 'N', 'I', 'N', 'G']) {
                colors.admonition_warning.clone()
            } else if is_kind(a, &['C', 'A', 'U', 'T', 'I', 'O', 'N']) {
                colors.admonition_caution.clone()
            } else {
                colors.blockquote_bar.clone()
            }
        },
        None => {
            let d = depth % 4;
            if d == 0 {
                colors.blockquote_bar.clone()
            } else if d == 1 {
                colors.heading2.clone()
            } else if d == 2 {
                colors.heading3.clone()
            } else {
                colors.heading4.clone()
            }
        },
    }
}

/// The icon of an admonition's header, followed by its kind.
fn adm_title(a: &String) -> (r: String)
    ensures
        r@ == adm_icon(a@) + a@,
{
    let icon = if is_kind(a, &['N', 'O', 'T', 'E']) {
        vec!['\u{2139}', ' ']
    } else if is_kind(a, &['T', 'I', 'P']) {
        vec!['\u{1F4A1}', ' ']
    } else if is_kind(a, &['I', 'M', 'P', 'O', 'R', 'T', 'A', 'N', 'T']) {
        vec!['\u{2757}', ' ']
    } else if is_kind(a, &['W', 'A', 'R', 'N', 'I', 'N', 'G']) {
        vec!['\u{26A0}', ' ']
    } else if is_kind(a, &['C', 'A', 'U', 'T', 'I', 'O', 'N']) {
        vec!['\u{1F534}', ' ']
    } else {
        vec!['\u{258E}', ' ']
    };
    let mut r = string_of(&icon);
    r.append(a.as_str());
    r
}

/// The bar span before each quoted line.
fn quote_bar_span(bar: &String) -> (s: StyledSpan)
    ensures
        span_view(s) == quote_bar(bar@),
{
    let cs = vec![' ', ' ', '\u{2502}', ' '];
    colored(string_of(&cs), bar)
}

/// Quoted text: uncolored spans take the quote color, in italics.
fn quoted(l: &StyledLine, colors: &ThemeColors) -> (r: StyledLine)
    ensures
        line_view(r) == quote_text(line_view(*l), *colors),
{
    let mut r = StyledLine::new();
    let mut k: usize = 0;
    while k < l.spans.len()
        invariant
            k <= l.spans@.len(),
            line_view(r) == quote_text(line_view(*l), *colors).take(k as int),
        decreases l.spans@.len() - k,
    {
        let mut sp = l.spans[k].dup();
        if sp.style.fg.is_none() {
            sp.style.fg = Some(colors.blockquote_text.clone());
            sp.style.italic = true;
        }
        push_to(&mut r, sp);
        assert(line_view(r) =~= quote_text(line_view(*l), *colors).take(k + 1));
        k = k + 1;
    }
    assert(quote_text(line_view(*l), *colors).take(l.spans@.len() as int) =~= quote_text(line_view(*l), *colors));
    r
}

/// An admonition's first paragraph without its marker.
fn layout_admonition_body(pch: &Vec<Node>, c: &LayoutCtx, out: &mut LayoutResult)
    ensures
        laid(*final(out)) == admonition_body(pch@, *c, laid(*old(out))),
{
    let mut spans: Vec<StyledSpan> = Vec::new();
    collect_inlines(pch, &c.theme.colors, &SpanStyle::default(), &mut spans);
    let ghost all = spans_view(spans@);
    assert(all =~= inline_spans(pch@, c.theme.colors, default_style()));
    let mut kept: Vec<StyledSpan> = Vec::new();
    let mut k: usize = 0;
    while k < spans.len()
        invariant
            k <= spans@.len(),
            all == spans_view(spans@),
            spans_view(kept@) == drop_marks(all.take(k as int)),
        decreases spans@.len() - k,
    {
        proof {
            assert(all.take(k + 1).drop_last() =~= all.take(k as int));
            assert(all.take(k + 1).last() == span_view(spans@[k as int]));
        }
        let v = crate::text::chars_of(spans[k].text.as_str());
        let bang = v.len() >= 2 && v[0] == '[' && v[1] == '!';
        if !bang {
            push_styled(&mut kept, spans[k].dup());
        }
        proof {
            assert(spans_view(kept@) =~= drop_marks(all.take(k + 1)));
        }
        k = k + 1;
    }
    assert(all.take(spans@.len() as int) =~= all);
    if kept.len() > 0 {
        let wrapped = wrap_spans(kept, c.width, 0, 0);
        add_lines(out, wrapped);
        add_spacing(out, c);
    }
}

/// A footnote's label span.
fn footnote_label_span(name: &String, c: &LayoutCtx) -> (s: StyledSpan)
    ensures
        span_view(s) == footnote_label(name@, *c),
{
    let mut text = String::new();
    crate::text::push_char(&mut text, '[');
    crate::text::push_char(&mut text, '^');
    text.append(name.as_str());
    crate::text::push_char(&mut text, ']');
    crate::text::push_char(&mut text, ':');
    crate::text::push_char(&mut text, ' ');
    assert(text@ =~= seq!['[', '^'] + name@ + seq![']', ':', ' ']);
    let mut st = SpanStyle::default();
    st.fg = Some(c.theme.colors.link.clone());
    st.bold = true;
    StyledSpan { text, style: st }
}

/// The decimal digits of `n`.
fn decimal_string(n: u128) -> (s: String)
    ensures
        s@ == decimal(n as nat),
    decreases n,
{
    if n < 10 {
        let mut s = String::new();
        crate::text::push_char(&mut s, ((48 + n) as u8) as char);
        assert(s@ =~= decimal(n as nat));
        s
    } else {
        let mut s = decimal_string(n / 10);
        crate::text::push_char(&mut s, ((48 + n % 10) as u8) as char);
        assert(s@ =~= decimal(n as nat));
        s
    }
}

/// The mark of a list item.
fn item_mark_span(item: &Node, kind: ListKind, start: usize, i: usize, c: &LayoutCtx) -> (s: StyledSpan)
    ensures
        span_view(s) == item_mark(*item, kind, start, i as int, *c),
{
    let colors = &c.theme.colors;
    let done = match item {
        Node::TaskItem(Some(m), _) => Some(*m != ' '),
        Node::TaskItem(None, _) => Some(false),
        _ => None,
    };
    match done {
        Some(true) => colored(string_of(&[' ', ' ', '\u{2713}', ' ']), &colors.task_done),
        Some(false) => colored(string_of(&[' ', ' ', '\u{25CB}', ' ']), &colors.task_pending),
        None => match kind {
            ListKind::Bullet => colored(string_of(&[' ', ' ', '\u{25E6}', ' ']), &colors.list_bullet),
            ListKind::Ordered => {
                let mut text = string_of(&[' ', ' ']);
                text.append(decimal_string(start as u128 + i as u128).as_str());
                crate::text::push_char(&mut text, '.');
                crate::text::push_char(&mut text, ' ');
                assert(text@ =~= seq![' ', ' '] + decimal((start + i) as nat) + seq!['.', ' ']);
                colored(text, &colors.list_number)
            },
        },
    }
}

/// The layout of a block node, appended to `out`.
pub fn layout_block(n: &Node, c: &LayoutCtx, out: &mut LayoutResult)
    ensures
        laid(*final(out)) == block(*n, *c, laid(*old(out))),
    decreases n, 0int, 0int,
{
    match n {
        Node::Heading(level, ch, line) => layout_heading(*level, ch, *line, c, out),
        Node::Paragraph(ch) => layout_paragraph(ch, c, out),
        Node::CodeBlock(info, lit) => layout_code_block(info, lit, c, out),
        Node::BlockQuote(ch) => layout_quote(ch, c, 0, out),
        Node::List(kind, start, items) => {
            layout_list_upto(items, items.len(), *kind, *start, c, out);
            add_spacing(out, c);
        },
        Node::ThematicBreak => layout_rule(c, out),
        Node::Table(rows) => layout_table(rows, c, out),
        Node::HtmlBlock(lit) => layout_html(lit, c, out),
        Node::FootnoteDefinition(name, ch) => {
            let label = footnote_label_span(name, c);
            let single = ch.len() == 1 && match &ch[0] {
                Node::Paragraph(_) => true,
                _ => false,
            };
            if single {
                let mut spans: Vec<StyledSpan> = Vec::new();
                push_styled(&mut spans, label);
                if let Node::Paragraph(pch) = &ch[0] {
                    collect_inlines(pch, &c.theme.colors, &SpanStyle::default(), &mut spans);
                }
                assert(spans_view(spans@) =~= seq![footnote_label(name@, *c)] + inline_spans(kids(ch@[0]), c.theme.colors, default_style()));
                let wrapped = wrap_spans(spans, c.width, 0, c.margin);
                add_lines(out, wrapped);
            } else {
                let mut line = margin_start(c);
                push_to(&mut line, label);
                add_line(out, line);
                layout_blocks_upto(ch, ch.len(), c, out);
            }
            add_spacing(out, c);
        },
        Node::SoftBreak => {},
        Node::LineBreak => {},
        _ => {
            if let Some(ch) = kids_of(n) {
                layout_blocks_upto(ch, ch.len(), c, out);
            } else {
                proof {
                    if !is_leaf(*n) {
                        assert(blocks(kids(*n), 0, *c, laid(*old(out))) == laid(*old(out)));
                    }
                }
            }
        },
    }
}

/// The layout of the first `k` block nodes of `ns`, appended to `out`.
pub fn layout_blocks_upto(ns: &Vec<Node>, k: usize, c: &LayoutCtx, out: &mut LayoutResult)
    requires
        k <= ns@.len(),
    ensures
        laid(*final(out)) == blocks(ns@, k as int, *c, laid(*old(out))),
    decreases ns, 1int, k,
{
    if k == 0 {
        return;
    }
    layout_blocks_upto(ns, k - 1, c, out);
    proof {
        assert(decreases_to!(*ns => ns[k - 1]));
    }
    layout_block(&ns[k - 1], c, out);
}

/// A quote at nesting `depth`, appended to `out`.
fn layout_quote(ch: &Vec<Node>, c: &LayoutCtx, depth: usize, out: &mut LayoutResult)
    ensures
        laid(*final(out)) == quote(ch@, *c, depth, laid(*old(out))),
    decreases ch, 3int, 0int,
{
    let adm = detect_admonition(ch);
    let ghost av = admonition(ch@);
    let bar = bar_color_of(&c.theme.colors, &adm, depth);
    assert(bar@ == bar_color(c.theme.colors, av, depth));
    let ghost st0 = laid(*out);
    if let Some(a) = &adm {
        let mut line = margin_start(c);
        push_to(&mut line, quote_bar_span(&bar));
        let mut st = SpanStyle::default();
        st.fg = Some(bar.clone());
        st.bold = true;
        push_to(&mut line, StyledSpan { text: adm_title(a), style: st });
        assert(av == Some(a@));
        assert(line_view(line) =~= quote_header(av, bar@, *c)[0]);
        add_line(out, line);
        assert(laid(*out) =~= put(st0, quote_header(av, bar@, *c)));
    } else {
        assert(laid(*out) =~= put(st0, quote_header(av, bar@, *c)));
    }
    let ic = nested_ctx(c, 0);
    let mut inner = LayoutResult::new();
    let _ = quote_kids_upto(ch, ch.len(), &ic, depth, adm.is_some(), &mut inner);
    let ghost iv = laid(inner);
    trim_trailing_blank(&mut inner.lines);
    let ghost tl = lines_view(inner.lines@);
    assert(tl == trim_blank(iv.lines));
    let ghost st1 = laid(*out);
    let mut i: usize = 0;
    while i < inner.lines.len()
        invariant
            i <= inner.lines@.len(),
            tl == lines_view(inner.lines@),
            laid(*out) == put(st1, barred(tl, bar@, *c).take(i as int)),
        decreases inner.lines@.len() - i,
    {
        let mut line = margin_start(c);
        push_to(&mut line, quote_bar_span(&bar));
        extend_line(&mut line, quoted(&inner.lines[i], &c.theme.colors));
        assert(line_view(line) =~= barred(tl, bar@, *c)[i as int]);
        add_line(out, line);
        proof {
            assert(barred(tl, bar@, *c).take(i + 1) =~= barred(tl, bar@, *c).take(i as int).push(barred(tl, bar@, *c)[i as int]));
            assert(laid(*out) =~= put(st1, barred(tl, bar@, *c).take(i + 1)));
        }
        i = i + 1;
    }
    assert(barred(tl, bar@, *c).take(inner.lines@.len() as int) =~= barred(tl, bar@, *c));
    let ghost st2 = laid(*out);
    out.headings.append(&mut inner.headings);
    out.images.append(&mut inner.images);
    assert(laid(*out) =~= absorb(put(st0, quote_header(av, bar@, *c)), iv, barred(trim_blank(iv.lines), bar@, *c)));
    if depth == 0 {
        add_spacing(out, c);
    }
}

/// The content of a quote after its first `k` children, appended to
/// `out`; returns whether the admonition marker is still to be dropped.
fn quote_kids_upto(ch: &Vec<Node>, k: usize, c: &LayoutCtx, depth: usize, skip: bool, out: &mut LayoutResult) -> (r: bool)
    requires
        k <= ch@.len(),
        laid(*old(out)) == fresh(),
    ensures
        (laid(*final(out)), r) == quote_kids(ch@, k as int, *c, depth, skip),
    decreases ch, 2int, k,
{
    if k == 0 {
        return skip;
    }
    let prev = quote_kids_upto(ch, k - 1, c, depth, skip, out);
    proof {
        assert(decreases_to!(*ch => ch[k - 1]));
    }
    let n = &ch[k - 1];
    match n {
        Node::BlockQuote(cc) => {
            let d = if depth < usize::MAX { depth + 1 } else { depth };
            layout_quote(cc, c, d, out);
            prev
        },
        Node::Paragraph(pch) => {
            if prev {
                layout_admonition_body(pch, c, out);
            } else {
                layout_block(n, c, out);
            }
            false
        },
        _ => {
            layout_block(n, c, out);
            false
        },
    }
}

/// The first `k` items of a list, appended to `out`.
fn layout_list_upto(items: &Vec<Node>, k: usize, kind: ListKind, start: usize, c: &LayoutCtx, out: &mut LayoutResult)
    requires
        k <= items@.len(),
    ensures
        laid(*final(out)) == list_items(items@, k as int, kind, start, *c, laid(*old(out))),
    decreases items, 2int, k,
{
    if k == 0 {
        return;
    }
    layout_list_upto(items, k - 1, kind, start, c, out);
    let ghost prev = laid(*out);
    proof {
        assert(decreases_to!(*items => items[k - 1]));
    }
    let item = &items[k - 1];
    let ic = nested_ctx(c, if c.indent <= usize::MAX - 4 { c.indent + 4 } else { usize::MAX });
    let mut inner = LayoutResult::new();
    if let Some(kc) = kids_of(item) {
        layout_item_kids_upto(kc, kc.len(), &ic, &mut inner);
    } else {
        proof {
            if !is_leaf(*item) {
                assert(item_kids(kids(*item), 0, ic, fresh()) == fresh());
            }
        }
    }
    let ghost iv = laid(inner);
    trim_trailing_blank(&mut inner.lines);
    let ghost tl = lines_view(inner.lines@);
    let mark = item_mark_span(item, kind, start, k - 1, c);
    let ghost mv = span_view(mark);
    let ghost st1 = laid(*out);
    let ghost all = marked(tl, mv, *c);
    let mut mark_opt = Some(mark);
    let mut j: usize = 0;
    while j < inner.lines.len()
        invariant
            j <= inner.lines@.len(),
            tl == lines_view(inner.lines@),
            all == marked(tl, mv, *c),
            j == 0 ==> (mark_opt matches Some(m) && span_view(m) == mv),
            laid(*out) == put(st1, all.take(j as int)),
        decreases inner.lines@.len() - j,
    {
        let mut line = margin_start(c);
        if j == 0 {
            let m = mark_opt.take();
            if let Some(m) = m {
                push_to(&mut line, m);
            }
        } else {
            push_to(&mut line, pad_span(4));
        }
        extend_line(&mut line, inner.lines[j].dup());
        assert(line_view(line) =~= all[j as int]);
        add_line(out, line);
        proof {
            assert(all.take(j + 1) =~= all.take(j as int).push(all[j as int]));
            assert(laid(*out) =~= put(st1, all.take(j + 1)));
        }
        j = j + 1;
    }
    assert(all.take(inner.lines@.len() as int) =~= all);
    out.headings.append(&mut inner.headings);
    out.images.append(&mut inner.images);
    assert(tl == trim_blank(iv.lines));
    assert(laid(*out) =~= absorb(prev, iv, marked(trim_blank(iv.lines), mv, *c)));
}

/// The first `k` children of a list item, appended to `out`.
fn layout_item_kids_upto(ns: &Vec<Node>, k: usize, c: &LayoutCtx, out: &mut LayoutResult)
    requires
        k <= ns@.len(),
    ensures
        laid(*final(out)) == item_kids(ns@, k as int, *c, laid(*old(out))),
    decreases ns, 1int, k,
{
    if k == 0 {
        return;
    }
    layout_item_kids_upto(ns, k - 1, c, out);
    proof {
        assert(decreases_to!(*ns => ns[k - 1]));
    }
    let n = &ns[k - 1];
    match n {
        Node::Paragraph(pch) => {
            let mut spans: Vec<StyledSpan> = Vec::new();
            collect_inlines(pch, &c.theme.colors, &SpanStyle::default(), &mut spans);
            assert(spans_view(spans@) =~= inline_spans(pch@, c.theme.colors, default_style()));
            let wrapped = wrap_spans(spans, c.width, 0, 0);
            add_lines(out, wrapped);
        },
        _ => layout_block(n, c, out),
    }
}

/// The context of a whole document: the top level, unindented.
pub open spec fn document_ctx<'a>(
    theme: &'a Theme,
    width: u16,
    spacing: Spacing,
    margin: usize,
    images: ImageMode,
    graphics_font: Option<(u16, u16)>,
    background: (u8, u8, u8),
) -> LayoutCtx<'a> {
    LayoutCtx {
        theme,
        width: width as usize,
        indent: 0,
        spacing,
        margin,
        images,
        graphics_font,
        record_headings: true,
        background,
    }
}

/// Lay out a parsed document as styled lines for display, with the
/// headings and the lines they land on, and the block images a graphics
/// protocol paints. `center_margin` columns of margin center the content;
/// `background` is the theme background that transparent image pixels
/// show. Every line then goes through the sanitizing pass: untrusted
/// markdown cannot reach the terminal as escape sequences.
pub fn layout_document(
    root: &Node,
    theme: &Theme,
    width: u16,
    spacing: Spacing,
    center_margin: usize,
    images: ImageMode,
    graphics_font: Option<(u16, u16)>,
    background: (u8, u8, u8),
) -> (r: LayoutResult)
    ensures
        ({
            let st = block(*root, document_ctx(theme, width, spacing, center_margin, images, graphics_font, background), fresh());
            &&& lines_view(r.lines@) == st.lines.map_values(|l: LineView| sanitized_line(l))
            &&& laid(r).headings == st.headings
            &&& r.images@ == st.images
        }),
        forall|i: int| 0 <= i < r.lines@.len() ==> line_safe(#[trigger] r.lines@[i]),
{
    let ctx = LayoutCtx {
        theme,
        width: width as usize,
        indent: 0,
        spacing,
        margin: center_margin,
        images,
        graphics_font,
        record_headings: true,
        background,
    };
    let mut r = LayoutResult::new();
    layout_block(root, &ctx, &mut r);
    sanitize_lines(&mut r.lines);
    r
}

} // verus!
