//! Markdown text as the library's document tree. comrak parses the text
//! (CommonMark with the GitHub extensions) and renders its tree as
//! CommonMark XML; the XML is read back into `Node`s here.
use crate::image::ImageLoad;
use crate::layout::blocks::{ListKind, Node};
use crate::layout::tag::{attr_value, tag_attr};
use crate::text::{chars_of, is_ws, seq_eq, string_from, sub_vec};
use vstd::prelude::*;

verus! {

/// The CommonMark XML comrak renders for the markdown `content`.
pub uninterp spec fn markdown_xml(content: Seq<char>) -> Seq<char>;

/// Calls `comrak::markdown_to_commonmark_xml` with the reader's dialect
/// (strikethrough, tables, autolinks, task lists, footnotes, `$` math) and
/// source positions on. Claimed: the result is `markdown_xml` of `content`
/// (the dialect is fixed, and parsing and rendering depend on the text
/// alone; the function unwraps a write into a `String`, which cannot fail).
#[verifier::external_body]
fn commonmark_xml(content: &str) -> (x: String)
    ensures
        x@ == markdown_xml(content@),
{
    let mut o = comrak::Options::default();
    o.extension.strikethrough = true;
    o.extension.table = true;
    o.extension.autolink = true;
    o.extension.tasklist = true;
    o.extension.footnotes = true;
    o.extension.math_dollars = true;
    o.render.sourcepos = true;
    comrak::markdown_to_commonmark_xml(content, &o)
}

/// A document tree as plain values (images without their loading).
pub enum NodeView {
    Document(Seq<NodeView>),
    Heading(u8, Seq<NodeView>, usize),
    Paragraph(Seq<NodeView>),
    CodeBlock(Seq<char>, Seq<char>),
    BlockQuote(Seq<NodeView>),
    List(ListKind, usize, Seq<NodeView>),
    Item(Seq<NodeView>),
    TaskItem(Option<char>, Seq<NodeView>),
    ThematicBreak,
    Table(Seq<NodeView>),
    SoftBreak,
    LineBreak,
    HtmlBlock(Seq<char>),
    FootnoteDefinition(Seq<char>, Seq<NodeView>),
    Text(Seq<char>),
    Code(Seq<char>),
    Emph(Seq<NodeView>),
    Strong(Seq<NodeView>),
    Strikethrough(Seq<NodeView>),
    Link(Seq<char>, Seq<NodeView>),
    Image(Seq<char>, Seq<NodeView>),
    FootnoteReference(Seq<char>),
    Math(Seq<char>),
    ShortCode(Seq<char>),
    HtmlInline(Seq<char>),
    Other(Seq<NodeView>),
}

/// `n` as plain values.
pub open spec fn node_view(n: Node) -> NodeView
    decreases n, 1int,
{
    match n {
        Node::Document(c) => NodeView::Document(views_of(c@)),
        Node::Heading(l, c, line) => NodeView::Heading(l, views_of(c@), line),
        Node::Paragraph(c) => NodeView::Paragraph(views_of(c@)),
        Node::CodeBlock(i, t) => NodeView::CodeBlock(i@, t@),
        Node::BlockQuote(c) => NodeView::BlockQuote(views_of(c@)),
        Node::List(k, s, c) => NodeView::List(k, s, views_of(c@)),
        Node::Item(c) => NodeView::Item(views_of(c@)),
        Node::TaskItem(m, c) => NodeView::TaskItem(m, views_of(c@)),
        Node::ThematicBreak => NodeView::ThematicBreak,
        Node::Table(c) => NodeView::Table(views_of(c@)),
        Node::SoftBreak => NodeView::SoftBreak,
        Node::LineBreak => NodeView::LineBreak,
        Node::HtmlBlock(t) => NodeView::HtmlBlock(t@),
        Node::FootnoteDefinition(l, c) => NodeView::FootnoteDefinition(l@, views_of(c@)),
        Node::Text(t) => NodeView::Text(t@),
        Node::Code(t) => NodeView::Code(t@),
        Node::Emph(c) => NodeView::Emph(views_of(c@)),
        Node::Strong(c) => NodeView::Strong(views_of(c@)),
        Node::Strikethrough(c) => NodeView::Strikethrough(views_of(c@)),
        Node::Link(u, c) => NodeView::Link(u@, views_of(c@)),
        Node::Image(u, c, _) => NodeView::Image(u@, views_of(c@)),
        Node::FootnoteReference(l) => NodeView::FootnoteReference(l@),
        Node::Math(t) => NodeView::Math(t@),
        Node::ShortCode(t) => NodeView::ShortCode(t@),
        Node::HtmlInline(t) => NodeView::HtmlInline(t@),
        Node::Other(c) => NodeView::Other(views_of(c@)),
    }
}

/// Each of `ns` as plain values.
pub open spec fn views_of(ns: Seq<Node>) -> Seq<NodeView>
    decreases ns, 0int,
{
    if ns.len() == 0 {
        seq![]
    } else {
        proof {
            assert(decreases_to!(ns => ns[ns.len() - 1]));
        }
        views_of(ns.drop_last()).push(node_view(ns.last()))
    }
}

/// `s` with the XML escapes `&amp;`, `&lt;`, `&gt;` and `&quot;` turned
/// back into their characters.
pub open spec fn unescape(s: Seq<char>) -> Seq<char>
    decreases s.len(),
{
    if s.len() == 0 {
        seq![]
    } else if s.len() >= 5 && s.take(5) == "&amp;"@ {
        seq!['&'] + unescape(s.skip(5))
    } else if s.len() >= 4 && s.take(4) == "&lt;"@ {
        seq!['<'] + unescape(s.skip(4))
    } else if s.len() >= 4 && s.take(4) == "&gt;"@ {
        seq!['>'] + unescape(s.skip(4))
    } else if s.len() >= 6 && s.take(6) == "&quot;"@ {
        seq!['"'] + unescape(s.skip(6))
    } else {
        seq![s[0]] + unescape(s.skip(1))
    }
}

/// Whether `v[i..]` starts with `lit`.
fn at_lit(v: &Vec<char>, i: usize, lit: &Vec<char>) -> (b: bool)
    requires
        i <= v@.len(),
    ensures
        b == (v@.len() - i >= lit@.len() && v@.skip(i as int).take(lit@.len() as int) == lit@),
{
    let n = v.len();
    if n - i < lit.len() {
        return false;
    }
    let mut k: usize = 0;
    while k < lit.len()
        invariant
            n == v@.len(),
            i <= v@.len(),
            v@.len() - i >= lit@.len(),
            k <= lit@.len(),
            forall|j: int| 0 <= j < k ==> v@[i + j] == lit@[j],
        decreases lit@.len() - k,
    {
        if v[i + k] != lit[k] {
            assert(v@.skip(i as int).take(lit@.len() as int)[k as int] != lit@[k as int]);
            return false;
        }
        k = k + 1;
    }
    assert(v@.skip(i as int).take(lit@.len() as int) =~= lit@);
    true
}

/// `unescape(v[lo..hi])`.
fn unescaped(v: &Vec<char>, lo: usize, hi: usize) -> (r: String)
    requires
        lo <= hi <= v@.len(),
    ensures
        r@ == unescape(v@.subrange(lo as int, hi as int)),
{
    let amp = chars_of("&amp;");
    let lt = chars_of("&lt;");
    let gt = chars_of("&gt;");
    let quot = chars_of("&quot;");
    let ghost whole = v@.subrange(lo as int, hi as int);
    let w = sub_vec(v, lo, hi);
    let mut out = String::new();
    let mut i: usize = 0;
    assert(w@.skip(0) =~= w@);
    assert(out@ + unescape(w@) =~= unescape(whole));
    while i < w.len()
        invariant
            w@ == whole,
            i <= w@.len(),
            amp@ == "&amp;"@,
            lt@ == "&lt;"@,
            gt@ == "&gt;"@,
            quot@ == "&quot;"@,
            out@ + unescape(w@.skip(i as int)) == unescape(whole),
        decreases w@.len() - i,
    {
        let ghost rest = w@.skip(i as int);
        proof {
            reveal_strlit("&amp;");
            reveal_strlit("&lt;");
            reveal_strlit("&gt;");
            reveal_strlit("&quot;");
        }
        let ghost o0 = out@;
        if at_lit(&w, i, &amp) {
            assert(rest.skip(5) =~= w@.skip(i + 5));
            crate::text::push_char(&mut out, '&');
            assert(o0 + unescape(rest) =~= out@ + unescape(w@.skip(i + 5)));
            i = i + 5;
        } else if at_lit(&w, i, &lt) {
            assert(rest.skip(4) =~= w@.skip(i + 4));
            crate::text::push_char(&mut out, '<');
            assert(o0 + unescape(rest) =~= out@ + unescape(w@.skip(i + 4)));
            i = i + 4;
        } else if at_lit(&w, i, &gt) {
            assert(rest.skip(4) =~= w@.skip(i + 4));
            crate::text::push_char(&mut out, '>');
            assert(o0 + unescape(rest) =~= out@ + unescape(w@.skip(i + 4)));
            i = i + 4;
        } else if at_lit(&w, i, &quot) {
            assert(rest.skip(6) =~= w@.skip(i + 6));
            crate::text::push_char(&mut out, '"');
            assert(o0 + unescape(rest) =~= out@ + unescape(w@.skip(i + 6)));
            i = i + 6;
        } else {
            assert(rest.skip(1) =~= w@.skip(i + 1));
            crate::text::push_char(&mut out, w[i]);
            assert(o0 + unescape(rest) =~= out@ + unescape(w@.skip(i + 1)));
            i = i + 1;
        }
    }
    assert(w@.skip(w@.len() as int) =~= Seq::<char>::empty());
    assert(out@ =~= out@ + unescape(Seq::<char>::empty()));
    out
}

/// Each view is the view of the node at its place.
pub proof fn lemma_views_of(ns: Seq<Node>)
    ensures
        views_of(ns).len() == ns.len(),
        forall|i: int| 0 <= i < ns.len() ==> #[trigger] views_of(ns)[i] == node_view(ns[i]),
    decreases ns.len(),
{
    if ns.len() > 0 {
        lemma_views_of(ns.drop_last());
        assert forall|i: int| 0 <= i < ns.len() implies #[trigger] views_of(ns)[i] == node_view(ns[i]) by {
            if i < ns.len() - 1 {
                assert(ns.drop_last()[i] == ns[i]);
            }
        }
    }
}

/// An element whose children are being read.
pub enum Frame {
    /// Below the document: collects the document element.
    Top,
    Document,
    Paragraph,
    Heading(u8, usize),
    BlockQuote,
    List(ListKind, usize),
    Item,
    TaskItem(Option<char>),
    Emph,
    Strong,
    Strikethrough,
    Link(String),
    Image(String),
    Table,
    FootnoteDefinition(String),
    Other,
}

/// A frame as plain values.
pub enum FrameView {
    Top,
    Document,
    Paragraph,
    Heading(u8, usize),
    BlockQuote,
    List(ListKind, usize),
    Item,
    TaskItem(Option<char>),
    Emph,
    Strong,
    Strikethrough,
    Link(Seq<char>),
    Image(Seq<char>),
    Table,
    FootnoteDefinition(Seq<char>),
    Other,
}

pub open spec fn frame_view(f: Frame) -> FrameView {
    match f {
        Frame::Top => FrameView::Top,
        Frame::Document => FrameView::Document,
        Frame::Paragraph => FrameView::Paragraph,
        Frame::Heading(l, n) => FrameView::Heading(l, n),
        Frame::BlockQuote => FrameView::BlockQuote,
        Frame::List(k, s) => FrameView::List(k, s),
        Frame::Item => FrameView::Item,
        Frame::TaskItem(m) => FrameView::TaskItem(m),
        Frame::Emph => FrameView::Emph,
        Frame::Strong => FrameView::Strong,
        Frame::Strikethrough => FrameView::Strikethrough,
        Frame::Link(u) => FrameView::Link(u@),
        Frame::Image(u) => FrameView::Image(u@),
        Frame::Table => FrameView::Table,
        Frame::FootnoteDefinition(l) => FrameView::FootnoteDefinition(l@),
        Frame::Other => FrameView::Other,
    }
}

/// The node an element becomes, given its children.
pub open spec fn built(f: FrameView, k: Seq<NodeView>) -> NodeView {
    match f {
        FrameView::Top => NodeView::Other(k),
        FrameView::Document => NodeView::Document(k),
        FrameView::Paragraph => NodeView::Paragraph(k),
        FrameView::Heading(l, n) => NodeView::Heading(l, k, n),
        FrameView::BlockQuote => NodeView::BlockQuote(k),
        FrameView::List(kind, s) => NodeView::List(kind, s, k),
        FrameView::Item => NodeView::Item(k),
        FrameView::TaskItem(m) => NodeView::TaskItem(m, k),
        FrameView::Emph => NodeView::Emph(k),
        FrameView::Strong => NodeView::Strong(k),
        FrameView::Strikethrough => NodeView::Strikethrough(k),
        FrameView::Link(u) => NodeView::Link(u, k),
        FrameView::Image(u) => NodeView::Image(u, k),
        FrameView::Table => NodeView::Table(k),
        FrameView::FootnoteDefinition(l) => NodeView::FootnoteDefinition(l, k),
        FrameView::Other => NodeView::Other(k),
    }
}

/// The first position at or after `i` holding `c`, or the length.
pub open spec fn find_char(v: Seq<char>, i: int, c: char) -> int
    decreases v.len() - i,
{
    if i < 0 || i >= v.len() {
        v.len() as int
    } else if v[i] == c {
        i
    } else {
        find_char(v, i + 1, c)
    }
}

/// Where the tag whose text starts at `i` ends: the first `>` outside a
/// double-quoted value (`inq`: whether `i` lies inside one), or the length.
pub open spec fn tag_end(v: Seq<char>, i: int, inq: bool) -> int
    decreases v.len() - i,
{
    if i < 0 || i >= v.len() {
        v.len() as int
    } else if v[i] == '"' {
        tag_end(v, i + 1, !inq)
    } else if v[i] == '>' && !inq {
        i
    } else {
        tag_end(v, i + 1, inq)
    }
}

/// Where the element name starting at `i` of a tag ends: at a blank, a
/// `/`, or the end.
pub open spec fn name_end(t: Seq<char>, i: int) -> int
    decreases t.len() - i,
{
    if i < 0 || i >= t.len() {
        t.len() as int
    } else if is_ws(t[i]) || t[i] == '/' {
        i
    } else {
        name_end(t, i + 1)
    }
}

/// The number the leading digits of `d` from `i` spell, after `acc`; the
/// digits past nine are ignored.
pub open spec fn lead_num(d: Seq<char>, i: int, acc: nat) -> nat
    decreases d.len() - i,
{
    if i < 0 || i >= d.len() || !('0' <= d[i] && d[i] <= '9') || acc > 100_000_000 {
        acc
    } else {
        lead_num(d, i + 1, acc * 10 + (d[i] as int - 48) as nat)
    }
}

/// The value of the attribute `name` among `attrs`, unescaped; empty when
/// missing.
pub open spec fn attr(attrs: Seq<char>, name: Seq<char>) -> Seq<char> {
    match tag_attr(attrs, name) {
        Some(v) => unescape(v),
        None => seq![],
    }
}

/// The value of the attribute `name` as written (comrak writes a code
/// block's info string without escaping it).
pub open spec fn raw_attr(attrs: Seq<char>, name: Seq<char>) -> Seq<char> {
    match tag_attr(attrs, name) {
        Some(v) => v,
        None => seq![],
    }
}

/// The element an opening tag starts.
pub open spec fn frame_of(name: Seq<char>, attrs: Seq<char>) -> FrameView {
    if name == "document"@ {
        FrameView::Document
    } else if name == "paragraph"@ {
        FrameView::Paragraph
    } else if name == "heading"@ {
        let l = lead_num(attr(attrs, "level"@), 0, 0);
        FrameView::Heading(
            if l < 256 {
                l as u8
            } else {
                0
            },
            lead_num(attr(attrs, "sourcepos"@), 0, 0) as usize,
        )
    } else if name == "block_quote"@ || name == "multiline_block_quote"@ {
        FrameView::BlockQuote
    } else if name == "list"@ {
        FrameView::List(
            if attr(attrs, "type"@) == "ordered"@ {
                ListKind::Ordered
            } else {
                ListKind::Bullet
            },
            if attr(attrs, "start"@).len() > 0 {
                lead_num(attr(attrs, "start"@), 0, 0) as usize
            } else {
                1
            },
        )
    } else if name == "item"@ {
        FrameView::Item
    } else if name == "taskitem"@ {
        FrameView::TaskItem(
            if attr(attrs, "completed"@) == "true"@ {
                Some('x')
            } else {
                None
            },
        )
    } else if name == "emph"@ {
        FrameView::Emph
    } else if name == "strong"@ {
        FrameView::Strong
    } else if name == "strikethrough"@ {
        FrameView::Strikethrough
    } else if name == "link"@ {
        FrameView::Link(attr(attrs, "destination"@))
    } else if name == "image"@ {
        FrameView::Image(attr(attrs, "destination"@))
    } else if name == "table"@ {
        FrameView::Table
    } else if name == "footnote_definition"@ {
        FrameView::FootnoteDefinition(attr(attrs, "label"@))
    } else {
        FrameView::Other
    }
}

/// The node an element with literal content `text` becomes.
pub open spec fn leaf_of(name: Seq<char>, attrs: Seq<char>, text: Seq<char>) -> NodeView {
    if name == "text"@ {
        NodeView::Text(text)
    } else if name == "code"@ {
        NodeView::Code(text)
    } else if name == "html_block"@ {
        NodeView::HtmlBlock(text)
    } else if name == "html_inline"@ {
        NodeView::HtmlInline(text)
    } else if name == "code_block"@ {
        NodeView::CodeBlock(raw_attr(attrs, "info"@), text)
    } else if name == "math"@ {
        NodeView::Math(text)
    } else {
        NodeView::Other(seq![])
    }
}

/// The node an empty element (`<name ... />`) becomes.
pub open spec fn self_leaf(name: Seq<char>, attrs: Seq<char>) -> NodeView {
    if name == "softbreak"@ {
        NodeView::SoftBreak
    } else if name == "linebreak"@ {
        NodeView::LineBreak
    } else if name == "thematic_break"@ {
        NodeView::ThematicBreak
    } else if name == "footnote_reference"@ {
        NodeView::FootnoteReference(attr(attrs, "label"@))
    } else {
        built(frame_of(name, attrs), seq![])
    }
}

/// The open elements, outermost first, each with its children so far.
pub type StackView = Seq<(FrameView, Seq<NodeView>)>;

/// `st` with `n` added to the children of its innermost element.
pub open spec fn push_node(st: StackView, n: NodeView) -> StackView {
    if st.len() == 0 {
        st
    } else {
        st.drop_last().push((st.last().0, st.last().1.push(n)))
    }
}

/// `st` with its innermost element closed into a node of its parent (the
/// bottom frame is never closed).
pub open spec fn close(st: StackView) -> StackView {
    if st.len() >= 2 {
        push_node(st.drop_last(), built(st.last().0, st.last().1))
    } else {
        st
    }
}

/// One step of reading the XML `v` at `pos` (`0 <= pos < v.len()`): the
/// position after it and the open elements. Characters between tags are
/// skipped; declarations are skipped; a closing tag closes the innermost
/// element; an element with preserved literal content becomes a leaf with
/// that content unescaped; an empty element becomes a leaf; any other
/// opening tag opens an element.
pub open spec fn step(v: Seq<char>, pos: int, st: StackView) -> (int, StackView) {
    if v[pos] != '<' {
        (pos + 1, st)
    } else {
        let gt = tag_end(v, pos + 1, false);
        if gt >= v.len() || pos + 1 >= v.len() {
            (v.len() as int, st)
        } else if v[pos + 1] == '?' || v[pos + 1] == '!' {
            (gt + 1, st)
        } else if v[pos + 1] == '/' {
            (gt + 1, close(st))
        } else {
            let tag = v.subrange(pos + 1, gt);
            let ne = name_end(tag, 0);
            let name = tag.take(ne);
            let attrs = tag.skip(ne);
            if attr(attrs, "xml:space"@) == "preserve"@ {
                let lt = find_char(v, gt + 1, '<');
                let e = find_char(v, lt, '>');
                (
                    if e < v.len() {
                        e + 1
                    } else {
                        v.len() as int
                    },
                    push_node(st, leaf_of(name, attrs, unescape(v.subrange(gt + 1, lt)))),
                )
            } else if tag.len() > 0 && tag.last() == '/' {
                (gt + 1, push_node(st, self_leaf(name, attrs)))
            } else {
                (gt + 1, st.push((frame_of(name, attrs), seq![])))
            }
        }
    }
}

/// The open elements after reading `v` from `pos` on.
pub open spec fn fold(v: Seq<char>, pos: int, st: StackView) -> StackView
    decreases v.len() - pos,
{
    if pos < 0 || pos >= v.len() {
        st
    } else {
        let r = step(v, pos, st);
        if r.0 <= pos {
            r.1
        } else {
            fold(v, r.0, r.1)
        }
    }
}

/// The document the CommonMark XML `x` describes: its first top-level
/// element, or an empty document.
pub open spec fn xml_tree(x: Seq<char>) -> NodeView {
    let st = fold(x, 0, seq![(FrameView::Top, Seq::<NodeView>::empty())]);
    if st.len() > 0 && st[0].1.len() > 0 {
        st[0].1[0]
    } else {
        NodeView::Document(seq![])
    }
}

/// The document tree of the markdown `content`.
pub open spec fn markdown_tree(content: Seq<char>) -> NodeView {
    xml_tree(markdown_xml(content))
}

/// Open elements as plain values.
pub open spec fn stack_view(s: Seq<(Frame, Vec<Node>)>) -> StackView {
    s.map_values(|e: (Frame, Vec<Node>)| (frame_view(e.0), views_of(e.1@)))
}

/// `find_char`, computed.
fn find_char_at(v: &Vec<char>, i: usize, c: char) -> (r: usize)
    requires
        i <= v@.len(),
    ensures
        r as int == find_char(v@, i as int, c),
        i <= r <= v@.len(),
{
    let mut j = i;
    while j < v.len() && v[j] != c
        invariant
            i <= j <= v@.len(),
            find_char(v@, i as int, c) == find_char(v@, j as int, c),
        decreases v@.len() - j,
    {
        j = j + 1;
    }
    j
}

/// `tag_end(v, i, false)`, computed.
fn tag_end_at(v: &Vec<char>, i: usize) -> (r: usize)
    requires
        i <= v@.len(),
    ensures
        r as int == tag_end(v@, i as int, false),
        i <= r <= v@.len(),
{
    let mut j = i;
    let mut inq = false;
    while j < v.len() && (v[j] != '>' || inq)
        invariant
            i <= j <= v@.len(),
            tag_end(v@, i as int, false) == tag_end(v@, j as int, inq),
        decreases v@.len() - j,
    {
        if v[j] == '"' {
            inq = !inq;
        }
        j = j + 1;
    }
    j
}

/// `name_end`, computed.
fn name_end_at(t: &Vec<char>) -> (r: usize)
    ensures
        r as int == name_end(t@, 0),
        r <= t@.len(),
{
    let mut j: usize = 0;
    while j < t.len() && !crate::text::is_whitespace(t[j]) && t[j] != '/'
        invariant
            j <= t@.len(),
            name_end(t@, 0) == name_end(t@, j as int),
        decreases t@.len() - j,
    {
        j = j + 1;
    }
    j
}

/// `lead_num(d, 0, 0)`, computed.
fn lead_number(d: &String) -> (n: usize)
    ensures
        n as nat == lead_num(d@, 0, 0),
{
    let v = chars_of(d.as_str());
    let mut acc: u64 = 0;
    let mut i: usize = 0;
    while i < v.len() && '0' <= v[i] && v[i] <= '9' && acc <= 100_000_000
        invariant
            i <= v@.len(),
            v@ == d@,
            acc <= 1_000_000_009,
            lead_num(d@, 0, 0) == lead_num(d@, i as int, acc as nat),
        decreases v@.len() - i,
    {
        let digit = (v[i] as u32 - 48) as u64;
        assert(digit == v@[i as int] as int - 48);
        acc = acc * 10 + digit;
        i = i + 1;
    }
    acc as usize
}

/// Whether `v` is the text `lit`.
fn is_name(v: &Vec<char>, lit: &str) -> (b: bool)
    ensures
        b == (v@ == lit@),
{
    let l = chars_of(lit);
    seq_eq(v, &l)
}

/// Whether `s` is the text `lit`.
fn is_text(s: &String, lit: &str) -> (b: bool)
    ensures
        b == (s@ == lit@),
{
    let v = chars_of(s.as_str());
    is_name(&v, lit)
}

/// `attr`, computed.
fn attr_text(attrs: &Vec<char>, name: &str) -> (r: String)
    ensures
        r@ == attr(attrs@, name@),
{
    let nm = chars_of(name);
    match attr_value(attrs, &nm) {
        Some(v) => {
            assert(v@.subrange(0, v@.len() as int) =~= v@);
            unescaped(&v, 0, v.len())
        },
        None => String::new(),
    }
}

/// `raw_attr`, computed.
fn raw_attr_text(attrs: &Vec<char>, name: &str) -> (r: String)
    ensures
        r@ == raw_attr(attrs@, name@),
{
    let nm = chars_of(name);
    match attr_value(attrs, &nm) {
        Some(v) => {
            assert(v@.subrange(0, v@.len() as int) =~= v@);
            string_from(&v, 0, v.len())
        },
        None => String::new(),
    }
}

/// `frame_of`, computed.
fn frame_at(name: &Vec<char>, attrs: &Vec<char>) -> (f: Frame)
    ensures
        frame_view(f) == frame_of(name@, attrs@),
{
    if is_name(name, "document") {
        Frame::Document
    } else if is_name(name, "paragraph") {
        Frame::Paragraph
    } else if is_name(name, "heading") {
        let l = lead_number(&attr_text(attrs, "level"));
        let line = lead_number(&attr_text(attrs, "sourcepos"));
        Frame::Heading(
            if l < 256 {
                l as u8
            } else {
                0
            },
            line,
        )
    } else if is_name(name, "block_quote") || is_name(name, "multiline_block_quote") {
        Frame::BlockQuote
    } else if is_name(name, "list") {
        let kind = if is_text(&attr_text(attrs, "type"), "ordered") {
            ListKind::Ordered
        } else {
            ListKind::Bullet
        };
        let st = attr_text(attrs, "start");
        let start = if st.as_str().is_empty() {
            1
        } else {
            lead_number(&st)
        };
        Frame::List(kind, start)
    } else if is_name(name, "item") {
        Frame::Item
    } else if is_name(name, "taskitem") {
        Frame::TaskItem(
            if is_text(&attr_text(attrs, "completed"), "true") {
                Some('x')
            } else {
                None
            },
        )
    } else if is_name(name, "emph") {
        Frame::Emph
    } else if is_name(name, "strong") {
        Frame::Strong
    } else if is_name(name, "strikethrough") {
        Frame::Strikethrough
    } else if is_name(name, "link") {
        Frame::Link(attr_text(attrs, "destination"))
    } else if is_name(name, "image") {
        Frame::Image(attr_text(attrs, "destination"))
    } else if is_name(name, "table") {
        Frame::Table
    } else if is_name(name, "footnote_definition") {
        Frame::FootnoteDefinition(attr_text(attrs, "label"))
    } else {
        Frame::Other
    }
}

/// `built`, computed.
fn build(f: Frame, k: Vec<Node>) -> (n: Node)
    ensures
        node_view(n) == built(frame_view(f), views_of(k@)),
{
    match f {
        Frame::Top => Node::Other(k),
        Frame::Document => Node::Document(k),
        Frame::Paragraph => Node::Paragraph(k),
        Frame::Heading(l, line) => Node::Heading(l, k, line),
        Frame::BlockQuote => Node::BlockQuote(k),
        Frame::List(kind, s) => Node::List(kind, s, k),
        Frame::Item => Node::Item(k),
        Frame::TaskItem(m) => Node::TaskItem(m, k),
        Frame::Emph => Node::Emph(k),
        Frame::Strong => Node::Strong(k),
        Frame::Strikethrough => Node::Strikethrough(k),
        Frame::Link(u) => Node::Link(u, k),
        Frame::Image(u) => Node::Image(u, k, ImageLoad::Skipped),
        Frame::Table => Node::Table(k),
        Frame::FootnoteDefinition(l) => Node::FootnoteDefinition(l, k),
        Frame::Other => Node::Other(k),
    }
}

/// `leaf_of`, computed.
fn leaf_at(name: &Vec<char>, attrs: &Vec<char>, text: String) -> (n: Node)
    ensures
        node_view(n) == leaf_of(name@, attrs@, text@),
{
    if is_name(name, "text") {
        Node::Text(text)
    } else if is_name(name, "code") {
        Node::Code(text)
    } else if is_name(name, "html_block") {
        Node::HtmlBlock(text)
    } else if is_name(name, "html_inline") {
        Node::HtmlInline(text)
    } else if is_name(name, "code_block") {
        Node::CodeBlock(raw_attr_text(attrs, "info"), text)
    } else if is_name(name, "math") {
        Node::Math(text)
    } else {
        let k: Vec<Node> = Vec::new();
        assert(views_of(k@) =~= Seq::<NodeView>::empty());
        Node::Other(k)
    }
}

/// `self_leaf`, computed.
fn self_leaf_at(name: &Vec<char>, attrs: &Vec<char>) -> (n: Node)
    ensures
        node_view(n) == self_leaf(name@, attrs@),
{
    if is_name(name, "softbreak") {
        Node::SoftBreak
    } else if is_name(name, "linebreak") {
        Node::LineBreak
    } else if is_name(name, "thematic_break") {
        Node::ThematicBreak
    } else if is_name(name, "footnote_reference") {
        Node::FootnoteReference(attr_text(attrs, "label"))
    } else {
        let k: Vec<Node> = Vec::new();
        assert(views_of(k@) =~= Seq::<NodeView>::empty());
        build(frame_at(name, attrs), k)
    }
}

/// Add `n` to the children of the innermost open element.
fn push_node_at(stack: &mut Vec<(Frame, Vec<Node>)>, n: Node)
    requires
        old(stack)@.len() > 0,
    ensures
        final(stack)@.len() == old(stack)@.len(),
        stack_view(final(stack)@) == push_node(stack_view(old(stack)@), node_view(n)),
{
    let ghost before = stack@;
    let (f, mut k) = stack.pop().unwrap();
    let ghost k0 = k@;
    k.push(n);
    proof {
        assert(k@.drop_last() =~= k0);
        assert(views_of(k@) == views_of(k0).push(node_view(n)));
    }
    stack.push((f, k));
    proof {
        assert(stack@.drop_last() =~= before.drop_last());
        assert(stack_view(before).drop_last() =~= stack_view(before.drop_last()));
        assert(stack_view(stack@) =~= push_node(stack_view(before), node_view(n)));
    }
}

/// Close the innermost open element into a node of its parent.
fn close_at(stack: &mut Vec<(Frame, Vec<Node>)>)
    requires
        old(stack)@.len() > 0,
    ensures
        final(stack)@.len() > 0,
        stack_view(final(stack)@) == close(stack_view(old(stack)@)),
{
    if stack.len() >= 2 {
        let ghost before = stack@;
        let (f, k) = stack.pop().unwrap();
        proof {
            assert(stack@ =~= before.drop_last());
            assert(stack_view(before).drop_last() =~= stack_view(before.drop_last()));
            assert(stack_view(before).last() == (frame_view(f), views_of(k@)));
        }
        let n = build(f, k);
        push_node_at(stack, n);
    }
}

/// One step of reading the XML (`step`).
fn step_at(v: &Vec<char>, pos: usize, stack: &mut Vec<(Frame, Vec<Node>)>) -> (next: usize)
    requires
        pos < v@.len(),
        old(stack)@.len() > 0,
    ensures
        final(stack)@.len() > 0,
        next <= v@.len(),
        (next as int, stack_view(final(stack)@)) == step(v@, pos as int, stack_view(old(stack)@)),
{
    let n = v.len();
    if v[pos] != '<' {
        return pos + 1;
    }
    let gt = if pos + 1 < n {
        tag_end_at(v, pos + 1)
    } else {
        n
    };
    proof {
        if pos + 1 >= n {
            assert(tag_end(v@, pos + 1, false) == n);
        }
    }
    if gt >= n || pos + 1 >= n {
        return n;
    }
    let c1 = v[pos + 1];
    if c1 == '?' || c1 == '!' {
        return gt + 1;
    }
    if c1 == '/' {
        close_at(stack);
        return gt + 1;
    }
    let tag = sub_vec(v, pos + 1, gt);
    let ne = name_end_at(&tag);
    let name = sub_vec(&tag, 0, ne);
    let attrs = sub_vec(&tag, ne, tag.len());
    proof {
        assert(name@ =~= tag@.take(ne as int));
        assert(attrs@ =~= tag@.skip(ne as int));
    }
    if is_text(&attr_text(&attrs, "xml:space"), "preserve") {
        let lt = find_char_at(v, gt + 1, '<');
        let e = find_char_at(v, lt, '>');
        let text = unescaped(v, gt + 1, lt);
        let node = leaf_at(&name, &attrs, text);
        push_node_at(stack, node);
        if e < n {
            e + 1
        } else {
            n
        }
    } else if tag.len() > 0 && tag[tag.len() - 1] == '/' {
        let node = self_leaf_at(&name, &attrs);
        push_node_at(stack, node);
        gt + 1
    } else {
        let ghost before = stack@;
        let f = frame_at(&name, &attrs);
        let k: Vec<Node> = Vec::new();
        assert(views_of(k@) =~= Seq::<NodeView>::empty());
        stack.push((f, k));
        assert(stack_view(stack@) =~= stack_view(before).push((frame_view(f), Seq::<NodeView>::empty())));
        gt + 1
    }
}

/// Read the document tree out of CommonMark XML (`xml_tree`).
pub fn read_commonmark_xml(x: &str) -> (root: Node)
    ensures
        node_view(root) == xml_tree(x@),
{
    let v = chars_of(x);
    let n = v.len();
    let mut stack: Vec<(Frame, Vec<Node>)> = Vec::new();
    let top: Vec<Node> = Vec::new();
    stack.push((Frame::Top, top));
    let ghost init = stack_view(stack@);
    assert(init =~= seq![(FrameView::Top, Seq::<NodeView>::empty())]) by {
        assert(views_of(top@) =~= Seq::<NodeView>::empty());
    }
    let mut pos: usize = 0;
    let mut done = false;
    while pos < n && !done
        invariant
            n == v@.len(),
            v@ == x@,
            pos <= n,
            stack@.len() > 0,
            init == seq![(FrameView::Top, Seq::<NodeView>::empty())],
            !done ==> fold(v@, 0, init) == fold(v@, pos as int, stack_view(stack@)),
            done ==> fold(v@, 0, init) == stack_view(stack@),
        decreases n - pos + (if done {
            0int
        } else {
            1int
        }),
    {
        let next = step_at(&v, pos, &mut stack);
        if next <= pos {
            done = true;
        } else {
            pos = next;
        }
    }
    let ghost fin = stack_view(stack@);
    assert(fold(v@, 0, init) == fin);
    let (_, mut kids) = stack.remove(0);
    proof {
        lemma_views_of(kids@);
    }
    if kids.len() > 0 {
        kids.remove(0)
    } else {
        let k: Vec<Node> = Vec::new();
        assert(views_of(k@) =~= Seq::<NodeView>::empty());
        Node::Document(k)
    }
}

/// The name of the element that CommonMark XML writes for a node of this
/// kind (none for `Other`).
pub open spec fn element_name(n: NodeView) -> Seq<char> {
    match n {
        NodeView::Document(_) => "document"@,
        NodeView::Heading(..) => "heading"@,
        NodeView::Paragraph(_) => "paragraph"@,
        NodeView::CodeBlock(..) => "code_block"@,
        NodeView::BlockQuote(_) => "block_quote"@,
        NodeView::List(..) => "list"@,
        NodeView::Item(_) => "item"@,
        NodeView::TaskItem(..) => "taskitem"@,
        NodeView::ThematicBreak => "thematic_break"@,
        NodeView::Table(_) => "table"@,
        NodeView::SoftBreak => "softbreak"@,
        NodeView::LineBreak => "linebreak"@,
        NodeView::HtmlBlock(_) => "html_block"@,
        NodeView::FootnoteDefinition(..) => "footnote_definition"@,
        NodeView::Text(_) => "text"@,
        NodeView::Code(_) => "code"@,
        NodeView::Emph(_) => "emph"@,
        NodeView::Strong(_) => "strong"@,
        NodeView::Strikethrough(_) => "strikethrough"@,
        NodeView::Link(..) => "link"@,
        NodeView::Image(..) => "image"@,
        NodeView::FootnoteReference(_) => "footnote_reference"@,
        NodeView::Math(_) => "math"@,
        NodeView::ShortCode(_) => "shortcode"@,
        NodeView::HtmlInline(_) => "html_inline"@,
        NodeView::Other(_) => seq![],
    }
}

/// Whether the element `name` is one that stands for a node of kind `n` (a
/// multi-line block quote is a block quote too).
pub open spec fn names_kind(name: Seq<char>, n: NodeView) -> bool {
    element_name(n) == name || (name == "multiline_block_quote"@ && n is BlockQuote)
}

/// Reading an element never gives a node of another kind: an element with
/// children, one with literal content and an empty one each become either a
/// node of the kind the element's name stands for, or an `Other` node (so
/// `<emph>` becomes emphasis and only `<strong>` becomes strong emphasis).
pub proof fn law_elements_keep_their_kind(name: Seq<char>, attrs: Seq<char>, text: Seq<char>, k: Seq<NodeView>)
    ensures
        built(frame_of(name, attrs), k) is Other || names_kind(name, built(frame_of(name, attrs), k)),
        leaf_of(name, attrs, text) is Other || names_kind(name, leaf_of(name, attrs, text)),
        self_leaf(name, attrs) is Other || names_kind(name, self_leaf(name, attrs)),
{
}

/// Every kind of node that CommonMark XML writes is read back: the element
/// named for a container kind opens a node of that kind, the one named for
/// a kind with literal content becomes a leaf of that kind, and the empty
/// one named for a break or a footnote reference becomes that node.
pub proof fn law_every_element_is_read(n: NodeView, attrs: Seq<char>, text: Seq<char>, k: Seq<NodeView>)
    ensures
        (n is Document || n is Paragraph || n is Heading || n is BlockQuote || n is List || n is Item || n is TaskItem
            || n is Emph || n is Strong || n is Strikethrough || n is Link || n is Image || n is Table
            || n is FootnoteDefinition) ==> element_name(built(frame_of(element_name(n), attrs), k)) == element_name(n),
        (n is Text || n is Code || n is HtmlBlock || n is HtmlInline || n is CodeBlock || n is Math) ==> element_name(
            leaf_of(element_name(n), attrs, text),
        ) == element_name(n),
        (n is SoftBreak || n is LineBreak || n is ThematicBreak || n is FootnoteReference) ==> element_name(
            self_leaf(element_name(n), attrs),
        ) == element_name(n),
{
    reveal_strlit("document");
    reveal_strlit("heading");
    reveal_strlit("paragraph");
    reveal_strlit("code_block");
    reveal_strlit("block_quote");
    reveal_strlit("multiline_block_quote");
    reveal_strlit("list");
    reveal_strlit("item");
    reveal_strlit("taskitem");
    reveal_strlit("thematic_break");
    reveal_strlit("table");
    reveal_strlit("softbreak");
    reveal_strlit("linebreak");
    reveal_strlit("html_block");
    reveal_strlit("footnote_definition");
    reveal_strlit("text");
    reveal_strlit("code");
    reveal_strlit("emph");
    reveal_strlit("strong");
    reveal_strlit("strikethrough");
    reveal_strlit("link");
    reveal_strlit("image");
    reveal_strlit("footnote_reference");
    reveal_strlit("math");
    reveal_strlit("html_inline");
}

/// Parse markdown `content` into the document tree (`markdown_tree`).
pub fn parse_markdown(content: &str) -> (root: Node)
    ensures
        node_view(root) == markdown_tree(content@),
{
    let x = commonmark_xml(content);
    read_commonmark_xml(x.as_str())
}

} // verus!
