//! Breaking styled text into display lines: hard breaks by character width
//! for code and over-long tokens, greedy word wrap for prose, and the merge
//! of same-styled neighbours that follows.
use super::{
    default_style, line_view, opt_text, same_style, span_view, spaces, style_eq, texts_of,
    SpanStyle, StyleView, style_view, StyledLine, StyledSpan,
};
use crate::text::{lemma_split_on_len, split_on};
use crate::unicode::{char_display_width, char_width, display_width, grapheme_split, graphemes, text_width};
use vstd::prelude::*;

verus! {

/// The cells a character takes when hard-breaking: its width, or zero for a
/// control character.
pub open spec fn char_cells(c: char) -> int {
    match char_display_width(c) {
        Some(w) => w as int,
        None => 0,
    }
}

/// Total cells of the characters of `s`.
pub open spec fn cells_of(s: Seq<char>) -> int
    decreases s.len(),
{
    if s.len() == 0 {
        0
    } else {
        cells_of(s.drop_last()) + char_cells(s.last())
    }
}

fn cells(c: char) -> (w: usize)
    ensures
        w == char_cells(c),
        w <= 3,
{
    match char_width(c) {
        Some(w) => w,
        None => 0,
    }
}

/// Hard-break state after the grapheme clusters `gs`: the finished pieces,
/// the piece being built and its cells. A cluster that would push the piece
/// past `width` starts a new piece, unless the piece is still empty.
pub open spec fn split_fold(gs: Seq<Seq<char>>, width: int) -> (Seq<Seq<char>>, Seq<char>, int)
    decreases gs.len(),
{
    if gs.len() == 0 {
        (seq![], seq![], 0)
    } else {
        let prev = split_fold(gs.drop_last(), width);
        let g = gs.last();
        let gw = display_width(g) as int;
        let brk = prev.2 + gw > width && prev.1.len() > 0;
        let out = if brk {
            prev.0.push(prev.1)
        } else {
            prev.0
        };
        let cur = if brk {
            g
        } else {
            prev.1 + g
        };
        let w = if brk {
            gw
        } else if prev.2 + gw > usize::MAX {
            usize::MAX as int
        } else {
            prev.2 + gw
        };
        (out, cur, w)
    }
}

/// The pieces `split_by_width(s, width)` yields.
pub open spec fn split_pieces(s: Seq<char>, width: usize) -> Seq<Seq<char>> {
    let wd: int = if width > 1 {
        width as int
    } else {
        1
    };
    let st = split_fold(grapheme_split(s), wd);
    if st.1.len() > 0 {
        st.0.push(st.1)
    } else {
        st.0
    }
}

proof fn lemma_split_fold(gs: Seq<Seq<char>>, width: int)
    requires
        width >= 1,
    ensures
        split_fold(gs, width).0.flatten() + split_fold(gs, width).1 == gs.flatten(),
        0 <= split_fold(gs, width).2 <= usize::MAX,
        forall|k: int| 0 <= k < split_fold(gs, width).0.len() ==> (#[trigger] split_fold(gs, width).0[k]).len() > 0,
    decreases gs.len(),
{
    broadcast use Seq::lemma_flatten_push;

    if gs.len() > 0 {
        let prev = split_fold(gs.drop_last(), width);
        lemma_split_fold(gs.drop_last(), width);
        let g = gs.last();
        let brk = prev.2 + display_width(g) > width && prev.1.len() > 0;
        assert(gs.drop_last().push(g) =~= gs);
        assert(gs.flatten() == gs.drop_last().flatten() + g);
        if brk {
            assert(prev.0.push(prev.1).flatten() == prev.0.flatten() + prev.1);
            assert(prev.0.flatten() + prev.1 + g =~= prev.0.push(prev.1).flatten() + g);
        } else {
            assert(prev.0.flatten() + (prev.1 + g) =~= prev.0.flatten() + prev.1 + g);
        }
    }
}

/// Split a string into pieces at most `width` cells wide (at least one
/// cell), breaking between grapheme clusters and measuring each cluster by
/// its display width, so a wide cluster (an emoji with its presentation
/// selector) is never split and counts its full width. Used to hard-break
/// tokens too long to wrap on a space.
///
/// The pieces are non-empty and concatenate back to `s`.
pub fn split_by_width(s: &str, width: usize) -> (res: Vec<String>)
    ensures
        res@.map_values(|p: String| p@) == split_pieces(s@, width),
        res@.map_values(|p: String| p@).flatten() == s@,
        forall|k: int| 0 <= k < res@.len() ==> (#[trigger] res@[k])@.len() > 0,
{
    let wd: usize = if width > 1 {
        width
    } else {
        1
    };
    let gs = crate::unicode::graphemes(s);
    let ghost gv = gs@.map_values(|g: String| g@);
    let mut out: Vec<String> = Vec::new();
    let mut cur = String::new();
    let mut w: usize = 0;
    let mut i: usize = 0;
    proof {
        assert(gv.take(0) =~= Seq::<Seq<char>>::empty());
    }
    while i < gs.len()
        invariant
            gv == gs@.map_values(|g: String| g@),
            gv == grapheme_split(s@),
            wd >= 1,
            0 <= w <= usize::MAX,
            i <= gs@.len(),
            out@.map_values(|p: String| p@) == split_fold(gv.take(i as int), wd as int).0,
            cur@ == split_fold(gv.take(i as int), wd as int).1,
            w == split_fold(gv.take(i as int), wd as int).2,
        decreases gs@.len() - i,
    {
        let g = &gs[i];
        let gw = text_width(g.as_str());
        proof {
            assert(gv.take(i + 1).drop_last() =~= gv.take(i as int));
            assert(gv.take(i + 1).last() == g@);
        }
        let over = match w.checked_add(gw) {
            Some(t) => t > wd,
            None => true,
        };
        if over && !cur.as_str().is_empty() {
            let done = cur;
            out.push(done);
            cur = String::new();
            w = 0;
            proof {
                assert(out@.map_values(|p: String| p@) =~= split_fold(gv.take(i as int), wd as int).0.push(
                    done@,
                ));
            }
        }
        cur.append(g.as_str());
        w = match w.checked_add(gw) {
            Some(t) => t,
            None => usize::MAX,
        };
        i = i + 1;
    }
    proof {
        assert(gv.take(gv.len() as int) =~= gv);
        lemma_split_fold(gv, wd as int);
    }
    if !cur.as_str().is_empty() {
        let last = cur;
        out.push(last);
        proof {
            assert(out@.map_values(|p: String| p@) =~= split_fold(gv, wd as int).0.push(last@));
            split_fold(gv, wd as int).0.lemma_flatten_push(last@);
        }
    } else {
        proof {
            assert(split_fold(gv, wd as int).0.flatten() + Seq::<char>::empty() =~= split_fold(gv, wd as int).0.flatten());
        }
    }
    proof {
        let ps = out@.map_values(|p: String| p@);
        assert forall|k: int| 0 <= k < out@.len() implies (#[trigger] out@[k])@.len() > 0 by {
            assert(ps[k] == out@[k]@);
        }
    }
    out
}


/// Merge each span into its predecessor when the two draw the same; the
/// merged span keeps the predecessor's style.
pub open spec fn coalesce_seq(spans: Seq<(Seq<char>, StyleView)>) -> Seq<(Seq<char>, StyleView)>
    decreases spans.len(),
{
    if spans.len() == 0 {
        seq![]
    } else {
        let prev = coalesce_seq(spans.drop_last());
        let s = spans.last();
        if prev.len() > 0 && prev.last().1 == s.1 {
            prev.drop_last().push((prev.last().0 + s.0, prev.last().1))
        } else {
            prev.push(s)
        }
    }
}

/// No two neighbouring spans draw the same.
pub open spec fn styles_alternate(spans: Seq<(Seq<char>, StyleView)>) -> bool {
    forall|i: int| 0 <= i < spans.len() - 1 ==> #[trigger] spans[i].1 != spans[i + 1].1
}

pub proof fn lemma_texts_of_push(spans: Seq<(Seq<char>, StyleView)>, e: (Seq<char>, StyleView))
    ensures
        texts_of(spans.push(e)) == texts_of(spans) + e.0,
{
    assert(spans.push(e).drop_last() =~= spans);
}

#[verifier::rlimit(40)]
#[verifier::spinoff_prover]
proof fn lemma_coalesce(spans: Seq<(Seq<char>, StyleView)>)
    ensures
        texts_of(coalesce_seq(spans)) == texts_of(spans),
        styles_alternate(coalesce_seq(spans)),
        spans.len() > 0 ==> coalesce_seq(spans).len() > 0,
        spans.len() > 0 ==> coalesce_seq(spans)[0].1 == spans[0].1,
        coalesce_seq(spans).len() <= spans.len(),
    decreases spans.len(),
{
    if spans.len() > 0 {
        let prev = coalesce_seq(spans.drop_last());
        lemma_coalesce(spans.drop_last());
        let s = spans.last();
        lemma_texts_of_push(spans.drop_last(), s);
        assert(spans.drop_last().push(s) =~= spans);
        if prev.len() > 0 && prev.last().1 == s.1 {
            let head = prev.drop_last();
            let m = (prev.last().0 + s.0, prev.last().1);
            lemma_texts_of_push(head, m);
            lemma_texts_of_push(head, prev.last());
            assert(head.push(prev.last()) =~= prev);
            assert(texts_of(head) + (prev.last().0 + s.0) =~= texts_of(head) + prev.last().0 + s.0);
            let r = head.push(m);
            assert forall|i: int| 0 <= i < r.len() - 1 implies #[trigger] r[i].1 != r[i + 1].1 by {
                assert(r[i] == prev[i]);
                if i + 1 < r.len() - 1 {
                    assert(r[i + 1] == prev[i + 1]);
                } else {
                    assert(r[i + 1].1 == prev[i + 1].1);
                }
            }
            if spans.drop_last().len() == 0 {
                assert(prev.len() == 0);
            }
        } else {
            lemma_texts_of_push(prev, s);
            let r = prev.push(s);
            assert forall|i: int| 0 <= i < r.len() - 1 implies #[trigger] r[i].1 != r[i + 1].1 by {
                assert(r[i] == prev[i]);
                if i + 1 < r.len() - 1 {
                    assert(r[i + 1] == prev[i + 1]);
                }
            }
            if spans.drop_last().len() == 0 {
                assert(prev.len() == 0);
                assert(r[0] == s);
                assert(spans[0] == s);
            }
        }
    }
}

/// Merge adjacent spans that share a style into one, so a run of same-styled
/// words stays a contiguous string (keeps plain output greppable and cuts
/// redundant escape sequences).
///
/// The line's text is unchanged, and afterwards no two neighbouring spans
/// draw the same.
pub fn coalesce_line(line: &mut StyledLine)
    ensures
        line_view(*final(line)) == coalesce_seq(line_view(*old(line))),
        texts_of(line_view(*final(line))) == texts_of(line_view(*old(line))),
        styles_alternate(line_view(*final(line))),
{
    let ghost before = line_view(*line);
    let mut spans: Vec<StyledSpan> = Vec::new();
    std::mem::swap(&mut spans, &mut line.spans);
    let mut merged: Vec<StyledSpan> = Vec::new();
    let mut i: usize = 0;
    while i < spans.len()
        invariant
            i <= spans@.len(),
            before == spans@.map_values(|s: StyledSpan| span_view(s)),
            merged@.map_values(|s: StyledSpan| span_view(s)) == coalesce_seq(before.take(i as int)),
        decreases spans@.len() - i,
    {
        let ghost prev = coalesce_seq(before.take(i as int));
        proof {
            assert(before.take(i + 1).drop_last() =~= before.take(i as int));
            assert(before.take(i + 1).last() == span_view(spans@[i as int]));
        }
        let n = merged.len();
        if n > 0 && same_style(&merged[n - 1].style, &spans[i].style) {
            let mut last = merged.pop().unwrap();
            last.text.append(spans[i].text.as_str());
            merged.push(last);
            proof {
                assert(merged@.map_values(|s: StyledSpan| span_view(s)) =~= prev.drop_last().push(
                    (prev.last().0 + spans@[i as int].text@, prev.last().1),
                ));
            }
        } else {
            merged.push(spans[i].dup());
            proof {
                assert(merged@.map_values(|s: StyledSpan| span_view(s)) =~= prev.push(
                    span_view(spans@[i as int]),
                ));
            }
        }
        i = i + 1;
    }
    proof {
        assert(before.take(spans@.len() as int) =~= before);
        lemma_coalesce(before);
    }
    line.spans = merged;
}

/// Spans as texts and styles.
pub open spec fn spans_view(spans: Seq<StyledSpan>) -> Seq<(Seq<char>, StyleView)> {
    spans.map_values(|s: StyledSpan| span_view(s))
}

/// All the text of a run of lines, in order.
pub open spec fn all_text(lines: Seq<Seq<(Seq<char>, StyleView)>>) -> Seq<char>
    decreases lines.len(),
{
    if lines.len() == 0 {
        seq![]
    } else {
        all_text(lines.drop_last()) + texts_of(lines.last())
    }
}

/// Code-wrap state after the grapheme clusters `gs` of a span in `style`,
/// starting from `st`: finished lines, the line being built, its cells, and
/// the piece of the current span not yet closed. A cluster that would cross
/// `width` ends the line, unless the line is still empty.
pub open spec fn code_chars(
    st: (Seq<Seq<(Seq<char>, StyleView)>>, Seq<(Seq<char>, StyleView)>, int, Seq<char>),
    gs: Seq<Seq<char>>,
    style: StyleView,
    width: int,
) -> (Seq<Seq<(Seq<char>, StyleView)>>, Seq<(Seq<char>, StyleView)>, int, Seq<char>)
    decreases gs.len(),
{
    if gs.len() == 0 {
        st
    } else {
        let p = code_chars(st, gs.drop_last(), style, width);
        let g = gs.last();
        let cw = display_width(g) as int;
        let brk = p.2 + cw > width && (p.2 > 0 || p.3.len() > 0);
        if brk {
            let cur = if p.3.len() > 0 {
                p.1.push((p.3, style))
            } else {
                p.1
            };
            (p.0.push(cur), seq![], cw, g)
        } else {
            (p.0, p.1, p.2 + cw, p.3 + g)
        }
    }
}

/// Code-wrap state after the spans `spans`.
pub open spec fn code_fold(spans: Seq<(Seq<char>, StyleView)>, width: int) -> (
    Seq<Seq<(Seq<char>, StyleView)>>,
    Seq<(Seq<char>, StyleView)>,
    int,
)
    decreases spans.len(),
{
    if spans.len() == 0 {
        (seq![], seq![], 0)
    } else {
        let prev = code_fold(spans.drop_last(), width);
        let s = spans.last();
        let st = code_chars((prev.0, prev.1, prev.2, seq![]), grapheme_split(s.0), s.1, width);
        (
            st.0,
            if st.3.len() > 0 {
                st.1.push((st.3, s.1))
            } else {
                st.1
            },
            st.2,
        )
    }
}

/// The visual lines `wrap_code_spans(spans, width)` yields.
pub open spec fn code_lines(spans: Seq<(Seq<char>, StyleView)>, width: usize) -> Seq<
    Seq<(Seq<char>, StyleView)>,
> {
    let wd: int = if width > 1 {
        width as int
    } else {
        1
    };
    let st = code_fold(spans, wd);
    st.0.push(st.1)
}

pub proof fn lemma_all_text_push(lines: Seq<Seq<(Seq<char>, StyleView)>>, l: Seq<(Seq<char>, StyleView)>)
    ensures
        all_text(lines.push(l)) == all_text(lines) + texts_of(l),
{
    assert(lines.push(l).drop_last() =~= lines);
}

proof fn lemma_code_chars(
    st: (Seq<Seq<(Seq<char>, StyleView)>>, Seq<(Seq<char>, StyleView)>, int, Seq<char>),
    gs: Seq<Seq<char>>,
    style: StyleView,
    width: int,
)
    ensures
        ({
            let r = code_chars(st, gs, style, width);
            all_text(r.0) + texts_of(r.1) + r.3 == all_text(st.0) + texts_of(st.1) + st.3 + gs.flatten()
        }),
    decreases gs.len(),
{
    if gs.len() == 0 {
        assert(st.3 + gs.flatten() =~= st.3);
        assert(all_text(st.0) + texts_of(st.1) + st.3 + gs.flatten() =~= all_text(st.0) + texts_of(st.1) + st.3);
    } else {
        let p = code_chars(st, gs.drop_last(), style, width);
        lemma_code_chars(st, gs.drop_last(), style, width);
        let g = gs.last();
        gs.drop_last().lemma_flatten_push(g);
        assert(gs.drop_last().push(g) =~= gs);
        let brk = p.2 + display_width(g) as int > width && (p.2 > 0 || p.3.len() > 0);
        if brk {
            let cur = if p.3.len() > 0 {
                p.1.push((p.3, style))
            } else {
                p.1
            };
            lemma_texts_of_push(p.1, (p.3, style));
            lemma_all_text_push(p.0, cur);
            assert(texts_of(Seq::<(Seq<char>, StyleView)>::empty()) == Seq::<char>::empty());
            if p.3.len() == 0 {
                assert(texts_of(p.1) + p.3 =~= texts_of(p.1));
            }
            assert(all_text(p.0.push(cur)) + texts_of(Seq::<(Seq<char>, StyleView)>::empty()) + g
                =~= all_text(p.0) + texts_of(p.1) + p.3 + g);
            assert(all_text(st.0) + texts_of(st.1) + st.3 + gs.flatten() =~= all_text(st.0) + texts_of(st.1)
                + st.3 + gs.drop_last().flatten() + g);
        } else {
            assert(all_text(p.0) + texts_of(p.1) + (p.3 + g) =~= all_text(p.0) + texts_of(p.1) + p.3 + g);
            assert(all_text(st.0) + texts_of(st.1) + st.3 + gs.flatten() =~= all_text(st.0) + texts_of(st.1)
                + st.3 + gs.drop_last().flatten() + g);
        }
    }
}

proof fn lemma_code_fold(spans: Seq<(Seq<char>, StyleView)>, width: int)
    requires
        forall|j: int| 0 <= j < spans.len() ==> (#[trigger] grapheme_split(spans[j].0)).flatten() == spans[j].0,
    ensures
        all_text(code_fold(spans, width).0) + texts_of(code_fold(spans, width).1) == texts_of(spans),
    decreases spans.len(),
{
    if spans.len() == 0 {
        assert(all_text(Seq::<Seq<(Seq<char>, StyleView)>>::empty()) + texts_of(
            Seq::<(Seq<char>, StyleView)>::empty(),
        ) =~= Seq::<char>::empty());
    } else {
        let prev = code_fold(spans.drop_last(), width);
        assert(grapheme_split(spans[spans.len() - 1].0).flatten() == spans[spans.len() - 1].0);
        assert forall|j: int| 0 <= j < spans.drop_last().len() implies (#[trigger] grapheme_split(
            spans.drop_last()[j].0,
        )).flatten() == spans.drop_last()[j].0 by {
            assert(spans.drop_last()[j] == spans[j]);
            assert(grapheme_split(spans[j].0).flatten() == spans[j].0);
        }
        lemma_code_fold(spans.drop_last(), width);
        let s = spans.last();
        let st = code_chars((prev.0, prev.1, prev.2, seq![]), grapheme_split(s.0), s.1, width);
        lemma_code_chars((prev.0, prev.1, prev.2, seq![]), grapheme_split(s.0), s.1, width);
        assert(grapheme_split(s.0).flatten() == s.0);
        lemma_texts_of_push(st.1, (st.3, s.1));
        lemma_texts_of_push(spans.drop_last(), s);
        assert(spans.drop_last().push(s) =~= spans);
        assert(all_text(prev.0) + texts_of(prev.1) + Seq::<char>::empty() + s.0 =~= texts_of(
            spans.drop_last(),
        ) + s.0);
        if st.3.len() == 0 {
            assert(all_text(st.0) + texts_of(st.1) + st.3 =~= all_text(st.0) + texts_of(st.1));
        } else {
            assert(all_text(st.0) + texts_of(st.1.push((st.3, s.1))) =~= all_text(st.0) + texts_of(st.1)
                + st.3);
        }
    }
}

/// Hard-wrap styled code spans to a display width, preserving every character
/// exactly (including leading indentation). Returns one span list per visual
/// line; always at least one (possibly empty) line.
pub fn wrap_code_spans(spans: Vec<StyledSpan>, width: usize) -> (res: Vec<Vec<StyledSpan>>)
    ensures
        res@.map_values(|l: Vec<StyledSpan>| spans_view(l@)) == code_lines(spans_view(spans@), width),
        res@.len() >= 1,
        all_text(res@.map_values(|l: Vec<StyledSpan>| spans_view(l@))) == texts_of(spans_view(spans@)),
{
    let wd: usize = if width > 1 {
        width
    } else {
        1
    };
    let ghost sv = spans_view(spans@);
    let mut lines: Vec<Vec<StyledSpan>> = Vec::new();
    let mut cur: Vec<StyledSpan> = Vec::new();
    let mut col: usize = 0;
    let mut k: usize = 0;
    while k < spans.len()
        invariant
            k <= spans@.len(),
            wd >= 1,
            sv == spans_view(spans@),
            lines@.map_values(|l: Vec<StyledSpan>| spans_view(l@)) == code_fold(sv.take(k as int), wd as int).0,
            spans_view(cur@) == code_fold(sv.take(k as int), wd as int).1,
            col == code_fold(sv.take(k as int), wd as int).2,
            forall|j: int| 0 <= j < k ==> (#[trigger] grapheme_split(sv[j].0)).flatten() == sv[j].0,
        decreases spans@.len() - k,
    {
        let ghost prev = code_fold(sv.take(k as int), wd as int);
        let style = spans[k].style.dup();
        let v = graphemes(spans[k].text.as_str());
        let ghost gv = v@.map_values(|g: String| g@);
        assert(gv.flatten() == spans@[k as int].text@);
        assert(sv[k as int].0 == spans@[k as int].text@);
        let mut piece = String::new();
        let mut i: usize = 0;
        proof {
            assert(gv.take(0) =~= Seq::<Seq<char>>::empty());
        }
        while i < v.len()
            invariant
                i <= v@.len(),
                wd >= 1,
                style == spans@[k as int].style,
                gv == v@.map_values(|g: String| g@),
                gv == grapheme_split(spans@[k as int].text@),
                ({
                    let st = code_chars((prev.0, prev.1, prev.2, seq![]), gv.take(i as int), style_view(style), wd as int);
                    &&& lines@.map_values(|l: Vec<StyledSpan>| spans_view(l@)) == st.0
                    &&& spans_view(cur@) == st.1
                    &&& col == st.2
                    &&& piece@ == st.3
                }),
            decreases v@.len() - i,
        {
            let cw = text_width(v[i].as_str());
            proof {
                assert(gv.take(i + 1).drop_last() =~= gv.take(i as int));
                assert(gv.take(i + 1).last() == v@[i as int]@);
            }
            let over = match col.checked_add(cw) {
                Some(t) => t > wd,
                None => true,
            };
            if over && (col > 0 || !piece.as_str().is_empty()) {
                let ghost cur0 = spans_view(cur@);
                let ghost lines0 = lines@.map_values(|l: Vec<StyledSpan>| spans_view(l@));
                if !piece.as_str().is_empty() {
                    let done = piece;
                    cur.push(StyledSpan { text: done, style: style.dup() });
                    piece = String::new();
                    proof {
                        assert(spans_view(cur@) =~= cur0.push((done@, style_view(style))));
                    }
                }
                let line = cur;
                lines.push(line);
                cur = Vec::new();
                col = 0;
                proof {
                    assert(lines@.map_values(|l: Vec<StyledSpan>| spans_view(l@)) =~= lines0.push(
                        spans_view(line@),
                    ));
                    assert(spans_view(cur@) =~= Seq::<(Seq<char>, StyleView)>::empty());
                }
                piece.append(v[i].as_str());
                assert(piece@ =~= v@[i as int]@);
                col = cw;
            } else {
                piece.append(v[i].as_str());
                col = col + cw;
            }
            i = i + 1;
        }
        proof {
            assert(gv.take(gv.len() as int) =~= gv);
            assert(sv.take(k + 1).drop_last() =~= sv.take(k as int));
            assert(sv.take(k + 1).last() == span_view(spans@[k as int]));
        }
        if !piece.as_str().is_empty() {
            let ghost cur0 = spans_view(cur@);
            let done = piece;
            cur.push(StyledSpan { text: done, style });
            proof {
                assert(spans_view(cur@) =~= cur0.push((done@, style_view(spans@[k as int].style))));
            }
        }
        k = k + 1;
    }
    proof {
        assert(sv.take(spans@.len() as int) =~= sv);
        lemma_code_fold(sv, wd as int);
    }
    let ghost lines0 = lines@.map_values(|l: Vec<StyledSpan>| spans_view(l@));
    let last = cur;
    lines.push(last);
    proof {
        assert(lines@.map_values(|l: Vec<StyledSpan>| spans_view(l@)) =~= lines0.push(spans_view(last@)));
        lemma_all_text_push(lines0, spans_view(last@));
    }
    lines
}

/// The words of a span: each piece between spaces, with its index in the
/// span and the span's style.
pub open spec fn span_words(s: (Seq<char>, StyleView)) -> Seq<(Seq<char>, int, StyleView)> {
    let ws = split_on(s.0, ' ');
    Seq::new(ws.len(), |i: int| (ws[i], i, s.1))
}

/// The words of all spans, in order.
pub open spec fn all_words(spans: Seq<(Seq<char>, StyleView)>) -> Seq<(Seq<char>, int, StyleView)>
    decreases spans.len(),
{
    if spans.len() == 0 {
        seq![]
    } else {
        all_words(spans.drop_last()) + span_words(spans.last())
    }
}

/// The spans every wrapped line starts with: the margin, then the indent,
/// each a run of spaces in the plain style (left out when zero).
pub open spec fn wrap_prefix(margin: usize, indent: usize) -> Seq<(Seq<char>, StyleView)> {
    (if margin > 0 {
        seq![(spaces(margin as nat), default_style())]
    } else {
        seq![]
    }) + (if indent > 0 {
        seq![(spaces(indent as nat), default_style())]
    } else {
        seq![]
    })
}

/// Lines as texts and styles.
pub open spec fn lines_view(ls: Seq<StyledLine>) -> Seq<Seq<(Seq<char>, StyleView)>> {
    ls.map_values(|l: StyledLine| line_view(l))
}

/// Wrap state after placing the chunks of an over-long token: each chunk
/// starts a fresh line unless the line is still empty.
pub open spec fn chunk_fold(
    st: (Seq<Seq<(Seq<char>, StyleView)>>, Seq<(Seq<char>, StyleView)>, int),
    chunks: Seq<Seq<char>>,
    style: StyleView,
    p: Seq<(Seq<char>, StyleView)>,
) -> (Seq<Seq<(Seq<char>, StyleView)>>, Seq<(Seq<char>, StyleView)>, int)
    decreases chunks.len(),
{
    if chunks.len() == 0 {
        st
    } else {
        let q = chunk_fold(st, chunks.drop_last(), style, p);
        let c = chunks.last();
        let q1 = if q.2 > 0 {
            (q.0.push(q.1), p, 0int)
        } else {
            q
        };
        (q1.0, q1.1.push((c, style)), q1.2 + display_width(c))
    }
}

/// One step of the greedy wrap: place a word (its text, index in its span,
/// style) on the line being built (`st`: finished lines, current line, its
/// cells), `eff` cells wide, fresh lines starting with `p`.
///
/// A zero-width piece after the first of its span stands for a space and
/// adds one, if the line has begun and has room. A word wider than the line
/// is hard-broken into chunks. Any other word goes on the current line,
/// preceded by a space when it is not the first of its span and the line has
/// begun, or starts a new line when it would not fit.
pub open spec fn wrap_step(
    st: (Seq<Seq<(Seq<char>, StyleView)>>, Seq<(Seq<char>, StyleView)>, int),
    wd: (Seq<char>, int, StyleView),
    eff: usize,
    p: Seq<(Seq<char>, StyleView)>,
) -> (Seq<Seq<(Seq<char>, StyleView)>>, Seq<(Seq<char>, StyleView)>, int) {
    let w = display_width(wd.0) as int;
    if w == 0 && wd.1 > 0 {
        if st.2 > 0 && st.2 < eff {
            (st.0, st.1.push((seq![' '], wd.2)), st.2 + 1)
        } else {
            st
        }
    } else if w > eff {
        let st1 = if st.2 > 0 {
            (st.0.push(st.1), p, 0int)
        } else {
            st
        };
        chunk_fold(st1, split_pieces(wd.0, eff), wd.2, p)
    } else {
        let need_space = st.2 > 0 && wd.1 > 0;
        let total = st.2 + w + if need_space {
            1int
        } else {
            0int
        };
        let st1 = if total > eff && st.2 > 0 {
            (st.0.push(st.1), p, 0int)
        } else {
            st
        };
        let st2 = if st1.2 > 0 && need_space {
            (st1.0, st1.1.push((seq![' '], wd.2)), st1.2 + 1)
        } else {
            st1
        };
        (st2.0, st2.1.push((wd.0, wd.2)), st2.2 + w)
    }
}

/// Wrap state after the words `words`.
pub open spec fn wrap_fold(
    words: Seq<(Seq<char>, int, StyleView)>,
    eff: usize,
    p: Seq<(Seq<char>, StyleView)>,
) -> (Seq<Seq<(Seq<char>, StyleView)>>, Seq<(Seq<char>, StyleView)>, int)
    decreases words.len(),
{
    if words.len() == 0 {
        (seq![], p, 0int)
    } else {
        wrap_step(wrap_fold(words.drop_last(), eff, p), words.last(), eff, p)
    }
}

/// The lines `wrap_spans(spans, max_width, indent, margin)` yields. With no
/// room (`max_width <= indent`) or no spans: one line, the spans behind the
/// margin. Otherwise the greedy wrap at `max_width - indent` cells, every
/// line starting with the margin and indent, at least one line, and each
/// line's same-styled neighbours merged.
pub open spec fn wrapped_lines(
    spans: Seq<(Seq<char>, StyleView)>,
    max_width: usize,
    indent: usize,
    margin: usize,
) -> Seq<Seq<(Seq<char>, StyleView)>> {
    if max_width <= indent || spans.len() == 0 {
        seq![
            if margin > 0 {
                seq![(spaces(margin as nat), default_style())] + spans
            } else {
                spans
            },
        ]
    } else {
        let st = wrap_fold(all_words(spans), (max_width - indent) as usize, wrap_prefix(margin, indent));
        let ls = if st.1.len() > 0 {
            st.0.push(st.1)
        } else {
            st.0
        };
        let ls2 = if ls.len() == 0 {
            seq![seq![]]
        } else {
            ls
        };
        Seq::new(ls2.len(), |k: int| coalesce_seq(ls2[k]))
    }
}

/// Coalesce `line` and append it to `lines`.
fn flush_line(lines: &mut Vec<StyledLine>, line: StyledLine)
    ensures
        lines_view(final(lines)@) == lines_view(old(lines)@).push(coalesce_seq(line_view(line))),
{
    let mut l = line;
    coalesce_line(&mut l);
    lines.push(l);
    proof {
        assert(lines_view(lines@) =~= lines_view(old(lines)@).push(line_view(l)));
    }
}

/// A fresh line holding the margin and indent.
fn prefixed_line(margin: usize, indent: usize) -> (l: StyledLine)
    ensures
        line_view(l) == wrap_prefix(margin, indent),
{
    let mut l = StyledLine::new();
    if margin > 0 {
        l.push(super::pad_span(margin));
    }
    if indent > 0 {
        l.push(super::pad_span(indent));
    }
    assert(line_view(l) =~= wrap_prefix(margin, indent));
    l
}

/// A one-space span in `style`.
fn space_span(style: &SpanStyle) -> (s: StyledSpan)
    ensures
        span_view(s) == (seq![' '], style_view(*style)),
{
    let mut t = String::new();
    crate::text::push_char(&mut t, ' ');
    assert(t@ =~= seq![' ']);
    StyledSpan { text: t, style: style.dup() }
}

/// Appends `span` to `line`.
fn push_span(line: &mut StyledLine, span: StyledSpan)
    ensures
        line_view(*final(line)) == line_view(*old(line)).push(span_view(span)),
{
    line.push(span);
    assert(line_view(*line) =~= line_view(*old(line)).push(span_view(span)));
}

/// The coalesced form of each line.
pub open spec fn coalesced_all(ls: Seq<Seq<(Seq<char>, StyleView)>>) -> Seq<Seq<(Seq<char>, StyleView)>> {
    ls.map_values(|l: Seq<(Seq<char>, StyleView)>| coalesce_seq(l))
}

/// Finish the current line (coalesced into `lines`) and start a fresh one.
fn break_line(
    lines: &mut Vec<StyledLine>,
    current: &mut StyledLine,
    col: &mut usize,
    Ghost(abs): Ghost<Seq<Seq<(Seq<char>, StyleView)>>>,
    margin: usize,
    indent: usize,
)
    requires
        lines_view(old(lines)@) == coalesced_all(abs),
    ensures
        lines_view(final(lines)@) == coalesced_all(abs.push(line_view(*old(current)))),
        line_view(*final(current)) == wrap_prefix(margin, indent),
        *final(col) == 0,
{
    let mut fresh = prefixed_line(margin, indent);
    std::mem::swap(&mut fresh, current);
    flush_line(lines, fresh);
    *col = 0;
    assert(coalesced_all(abs.push(line_view(fresh))) =~= coalesced_all(abs).push(coalesce_seq(line_view(fresh))));
}

/// Place one word on the line being built: the executable form of
/// `wrap_step`.
fn place_word(
    lines: &mut Vec<StyledLine>,
    current: &mut StyledLine,
    col: &mut usize,
    Ghost(abs): Ghost<Seq<Seq<(Seq<char>, StyleView)>>>,
    word: &String,
    idx: usize,
    style: &SpanStyle,
    eff: usize,
    margin: usize,
    indent: usize,
)
    requires
        eff > 0,
        lines_view(old(lines)@) == coalesced_all(abs),
    ensures
        ({
            let st = wrap_step(
                (abs, line_view(*old(current)), *old(col) as int),
                (word@, idx as int, style_view(*style)),
                eff,
                wrap_prefix(margin, indent),
            );
            &&& lines_view(final(lines)@) == coalesced_all(st.0)
            &&& line_view(*final(current)) == st.1
            &&& *final(col) == st.2
        }),
{
    let ghost p = wrap_prefix(margin, indent);
    let ghost st0 = (abs, line_view(*current), *col as int);
    let w = text_width(word.as_str());
    if w == 0 && idx > 0 {
        if *col > 0 && *col < eff {
            push_span(current, space_span(style));
            *col = *col + 1;
        }
    } else if w > eff {
        let ghost mut a = abs;
        if *col > 0 {
            break_line(lines, current, col, Ghost(a), margin, indent);
            proof {
                a = a.push(st0.1);
            }
        }
        let ghost st1 = (a, line_view(*current), *col as int);
        let chunks = split_by_width(word.as_str(), eff);
        let ghost cv = chunks@.map_values(|c: String| c@);
        let mut j: usize = 0;
        proof {
            assert(cv.take(0) =~= Seq::<Seq<char>>::empty());
        }
        while j < chunks.len()
            invariant
                j <= chunks@.len(),
                cv == chunks@.map_values(|c: String| c@),
                p == wrap_prefix(margin, indent),
                ({
                    let q = chunk_fold(st1, cv.take(j as int), style_view(*style), p);
                    &&& lines_view(lines@) == coalesced_all(q.0)
                    &&& line_view(*current) == q.1
                    &&& *col == q.2
                }),
            decreases chunks@.len() - j,
        {
            let ghost q = chunk_fold(st1, cv.take(j as int), style_view(*style), p);
            proof {
                assert(cv.take(j + 1).drop_last() =~= cv.take(j as int));
                assert(cv.take(j + 1).last() == chunks@[j as int]@);
            }
            if *col > 0 {
                break_line(lines, current, col, Ghost(q.0), margin, indent);
            }
            let cw = text_width(chunks[j].as_str());
            push_span(current, StyledSpan { text: chunks[j].clone(), style: style.dup() });
            *col = cw;
            j = j + 1;
        }
        proof {
            assert(cv.take(chunks@.len() as int) =~= cv);
        }
    } else {
        let need_space = *col > 0 && idx > 0;
        let extra: usize = if need_space {
            1
        } else {
            0
        };
        let too_long = match (*col).checked_add(w) {
            Some(t) => match t.checked_add(extra) {
                Some(t2) => t2 > eff,
                None => true,
            },
            None => true,
        };
        let ghost mut a = abs;
        if too_long && *col > 0 {
            break_line(lines, current, col, Ghost(a), margin, indent);
            proof {
                a = a.push(st0.1);
            }
        }
        if *col > 0 && need_space {
            push_span(current, space_span(style));
            *col = *col + 1;
        }
        push_span(current, StyledSpan { text: word.clone(), style: style.dup() });
        *col = *col + w;
    }
}

/// Greedy word wrap of styled spans to `max_width - indent` cells, each line
/// starting with `margin` and then `indent` spaces. Spaces between words are
/// kept in the style of the span they belong to, so `word **bold**` does not
/// collapse to `wordbold`; a token wider than the line is hard-broken so it
/// never overflows; neighbouring spans of one style are merged.
pub fn wrap_spans(spans: Vec<StyledSpan>, max_width: usize, indent: usize, margin: usize) -> (res: Vec<
    StyledLine,
>)
    ensures
        lines_view(res@) == wrapped_lines(spans_view(spans@), max_width, indent, margin),
        res@.len() >= 1,
{
    let ghost sv = spans_view(spans@);
    if max_width <= indent || spans.len() == 0 {
        let mut line = StyledLine::new();
        if margin > 0 {
            push_span(&mut line, super::pad_span(margin));
        }
        let ghost head = line_view(line);
        let mut k: usize = 0;
        while k < spans.len()
            invariant
                k <= spans@.len(),
                sv == spans_view(spans@),
                line_view(line) == head + sv.take(k as int),
            decreases spans@.len() - k,
        {
            push_span(&mut line, spans[k].dup());
            proof {
                assert(head + sv.take(k + 1) =~= (head + sv.take(k as int)).push(sv[k as int]));
            }
            k = k + 1;
        }
        proof {
            assert(sv.take(spans@.len() as int) =~= sv);
            if margin > 0 {
                assert(head =~= seq![(spaces(margin as nat), default_style())]);
            } else {
                assert(head + sv =~= sv);
            }
        }
        let mut out: Vec<StyledLine> = Vec::new();
        out.push(line);
        proof {
            assert(lines_view(out@) =~= seq![line_view(line)]);
        }
        return out;
    }
    let eff = max_width - indent;
    let ghost p = wrap_prefix(margin, indent);
    let mut lines: Vec<StyledLine> = Vec::new();
    let mut current = prefixed_line(margin, indent);
    let mut col: usize = 0;
    let ghost mut abs: Seq<Seq<(Seq<char>, StyleView)>> = seq![];
    let mut s: usize = 0;
    proof {
        assert(sv.take(0) =~= Seq::<(Seq<char>, StyleView)>::empty());
        assert(lines_view(lines@) =~= coalesced_all(abs));
    }
    while s < spans.len()
        invariant
            s <= spans@.len(),
            eff > 0,
            eff == max_width - indent,
            sv == spans_view(spans@),
            p == wrap_prefix(margin, indent),
            abs == wrap_fold(all_words(sv.take(s as int)), eff, p).0,
            lines_view(lines@) == coalesced_all(abs),
            line_view(current) == wrap_fold(all_words(sv.take(s as int)), eff, p).1,
            col == wrap_fold(all_words(sv.take(s as int)), eff, p).2,
        decreases spans@.len() - s,
    {
        let ghost base = all_words(sv.take(s as int));
        let ghost sw = span_words(sv[s as int]);
        let words = crate::text::split_by(spans[s].text.as_str(), ' ');
        proof {
            assert(sv.take(s + 1).drop_last() =~= sv.take(s as int));
            assert(sv.take(s + 1).last() == sv[s as int]);
            assert(base + sw.take(0) =~= base);
        }
        let mut i: usize = 0;
        while i < words.len()
            invariant
                i <= words@.len(),
                s < spans@.len(),
                eff > 0,
                sv == spans_view(spans@),
                p == wrap_prefix(margin, indent),
                words@.map_values(|w: String| w@) == split_on(spans@[s as int].text@, ' '),
                sw == span_words(sv[s as int]),
                sv[s as int] == span_view(spans@[s as int]),
                abs == wrap_fold(base + sw.take(i as int), eff, p).0,
                lines_view(lines@) == coalesced_all(abs),
                line_view(current) == wrap_fold(base + sw.take(i as int), eff, p).1,
                col == wrap_fold(base + sw.take(i as int), eff, p).2,
            decreases words@.len() - i,
        {
            proof {
                assert((base + sw.take(i + 1)).drop_last() =~= base + sw.take(i as int));
                assert((base + sw.take(i + 1)).last() == sw[i as int]);
                assert(sw[i as int] == (words@[i as int]@, i as int, style_view(spans@[s as int].style)));
            }
            place_word(
                &mut lines,
                &mut current,
                &mut col,
                Ghost(abs),
                &words[i],
                i,
                &spans[s].style,
                eff,
                margin,
                indent,
            );
            proof {
                abs = wrap_fold(base + sw.take(i + 1), eff, p).0;
            }
            i = i + 1;
        }
        proof {
            assert(sw.take(words@.len() as int) =~= sw);
        }
        s = s + 1;
    }
    proof {
        assert(sv.take(spans@.len() as int) =~= sv);
    }
    let ghost st = wrap_fold(all_words(sv), eff, p);
    let ghost ls = if st.1.len() > 0 {
        st.0.push(st.1)
    } else {
        st.0
    };
    if current.spans.len() > 0 {
        let done = current;
        flush_line(&mut lines, done);
        proof {
            assert(coalesced_all(st.0.push(st.1)) =~= coalesced_all(st.0).push(coalesce_seq(st.1)));
        }
    }
    if lines.len() == 0 {
        let e = StyledLine::empty();
        proof {
            assert(line_view(e) =~= Seq::<(Seq<char>, StyleView)>::empty());
        }
        lines.push(e);
        proof {
            assert(lines_view(lines@) =~= seq![Seq::<(Seq<char>, StyleView)>::empty()]);
            assert(coalesce_seq(Seq::<(Seq<char>, StyleView)>::empty()) =~= Seq::<(Seq<char>, StyleView)>::empty());
        }
    }
    proof {
        let ls2 = if ls.len() == 0 {
            seq![Seq::<(Seq<char>, StyleView)>::empty()]
        } else {
            ls
        };
        assert(lines_view(lines@) =~= Seq::new(ls2.len(), |k: int| coalesce_seq(ls2[k])));
    }
    lines
}

/// Every finished line and the line being built start with `p`.
pub open spec fn lines_start_with(
    st: (Seq<Seq<(Seq<char>, StyleView)>>, Seq<(Seq<char>, StyleView)>, int),
    p: Seq<(Seq<char>, StyleView)>,
) -> bool {
    &&& p.is_prefix_of(st.1)
    &&& forall|k: int| 0 <= k < st.0.len() ==> p.is_prefix_of(#[trigger] st.0[k])
}

proof fn lemma_prefix_push(p: Seq<(Seq<char>, StyleView)>, l: Seq<(Seq<char>, StyleView)>, e: (Seq<char>, StyleView))
    requires
        p.is_prefix_of(l),
    ensures
        p.is_prefix_of(l.push(e)),
{
    assert(l.push(e).subrange(0, p.len() as int) =~= l.subrange(0, p.len() as int));
}

proof fn lemma_prefix_lines_push(
    ls: Seq<Seq<(Seq<char>, StyleView)>>,
    l: Seq<(Seq<char>, StyleView)>,
    p: Seq<(Seq<char>, StyleView)>,
)
    requires
        forall|k: int| 0 <= k < ls.len() ==> p.is_prefix_of(#[trigger] ls[k]),
        p.is_prefix_of(l),
    ensures
        forall|k: int| 0 <= k < ls.push(l).len() ==> p.is_prefix_of(#[trigger] ls.push(l)[k]),
{
    assert forall|k: int| 0 <= k < ls.push(l).len() implies p.is_prefix_of(#[trigger] ls.push(l)[k]) by {
        if k < ls.len() {
            assert(ls.push(l)[k] == ls[k]);
        }
    }
}

proof fn lemma_chunk_fold_prefix(
    st: (Seq<Seq<(Seq<char>, StyleView)>>, Seq<(Seq<char>, StyleView)>, int),
    chunks: Seq<Seq<char>>,
    style: StyleView,
    p: Seq<(Seq<char>, StyleView)>,
)
    requires
        lines_start_with(st, p),
    ensures
        lines_start_with(chunk_fold(st, chunks, style, p), p),
    decreases chunks.len(),
{
    if chunks.len() > 0 {
        let q = chunk_fold(st, chunks.drop_last(), style, p);
        lemma_chunk_fold_prefix(st, chunks.drop_last(), style, p);
        if q.2 > 0 {
            lemma_prefix_lines_push(q.0, q.1, p);
            assert(p.is_prefix_of(p));
            lemma_prefix_push(p, p, (chunks.last(), style));
        } else {
            lemma_prefix_push(p, q.1, (chunks.last(), style));
        }
    }
}

proof fn lemma_wrap_fold_prefix(words: Seq<(Seq<char>, int, StyleView)>, eff: usize, p: Seq<(Seq<char>, StyleView)>)
    ensures
        lines_start_with(wrap_fold(words, eff, p), p),
    decreases words.len(),
{
    if words.len() == 0 {
        assert(p.is_prefix_of(p));
    } else {
        let st = wrap_fold(words.drop_last(), eff, p);
        lemma_wrap_fold_prefix(words.drop_last(), eff, p);
        let wd = words.last();
        let w = display_width(wd.0) as int;
        assert(p.is_prefix_of(p));
        if w == 0 && wd.1 > 0 {
            if st.2 > 0 && st.2 < eff {
                lemma_prefix_push(p, st.1, (seq![' '], wd.2));
            }
        } else if w > eff {
            let st1 = if st.2 > 0 {
                (st.0.push(st.1), p, 0int)
            } else {
                st
            };
            if st.2 > 0 {
                lemma_prefix_lines_push(st.0, st.1, p);
            }
            lemma_chunk_fold_prefix(st1, split_pieces(wd.0, eff), wd.2, p);
        } else {
            let need_space = st.2 > 0 && wd.1 > 0;
            let total = st.2 + w + if need_space {
                1int
            } else {
                0int
            };
            let st1 = if total > eff && st.2 > 0 {
                (st.0.push(st.1), p, 0int)
            } else {
                st
            };
            if total > eff && st.2 > 0 {
                lemma_prefix_lines_push(st.0, st.1, p);
            }
            let st2 = if st1.2 > 0 && need_space {
                (st1.0, st1.1.push((seq![' '], wd.2)), st1.2 + 1)
            } else {
                st1
            };
            if st1.2 > 0 && need_space {
                lemma_prefix_push(p, st1.1, (seq![' '], wd.2));
            }
            lemma_prefix_push(p, st2.1, (wd.0, wd.2));
        }
    }
}

pub proof fn lemma_texts_of_concat(a: Seq<(Seq<char>, StyleView)>, b: Seq<(Seq<char>, StyleView)>)
    ensures
        texts_of(a + b) == texts_of(a) + texts_of(b),
    decreases b.len(),
{
    if b.len() == 0 {
        assert(a + b =~= a);
        assert(texts_of(a) + texts_of(b) =~= texts_of(a));
    } else {
        lemma_texts_of_concat(a, b.drop_last());
        assert((a + b).drop_last() =~= a + b.drop_last());
        assert((a + b).last() == b.last());
        assert(texts_of(a) + texts_of(b) =~= texts_of(a) + texts_of(b.drop_last()) + b.last().0);
    }
}

proof fn lemma_prefix_text(p: Seq<(Seq<char>, StyleView)>, l: Seq<(Seq<char>, StyleView)>)
    requires
        p.is_prefix_of(l),
    ensures
        texts_of(p).is_prefix_of(texts_of(l)),
{
    let rest = l.subrange(p.len() as int, l.len() as int);
    assert(p + rest =~= l);
    lemma_texts_of_concat(p, rest);
    assert((texts_of(p) + texts_of(rest)).subrange(0, texts_of(p).len() as int) =~= texts_of(p));
}

/// Every line `wrap_spans` lays out begins with the margin and then the
/// indent, as spaces; when nothing is wrapped (no room or no spans), the one
/// line begins with the margin.
pub proof fn law_wrapped_lines_keep_prefix(
    spans: Seq<(Seq<char>, StyleView)>,
    max_width: usize,
    indent: usize,
    margin: usize,
)
    ensures
        forall|k: int|
            0 <= k < wrapped_lines(spans, max_width, indent, margin).len() ==> (if max_width <= indent
                || spans.len() == 0 {
                spaces(margin as nat)
            } else {
                spaces(margin as nat) + spaces(indent as nat)
            }).is_prefix_of(texts_of(#[trigger] wrapped_lines(spans, max_width, indent, margin)[k])),
{
    let res = wrapped_lines(spans, max_width, indent, margin);
    let head = seq![(spaces(margin as nat), default_style())];
    lemma_texts_of_push(Seq::<(Seq<char>, StyleView)>::empty(), (spaces(margin as nat), default_style()));
    assert(Seq::<(Seq<char>, StyleView)>::empty().push((spaces(margin as nat), default_style())) =~= head);
    assert(texts_of(head) =~= spaces(margin as nat));
    if max_width <= indent || spans.len() == 0 {
        if margin > 0 {
            assert(head.is_prefix_of(head + spans)) by {
                assert((head + spans).subrange(0, head.len() as int) =~= head);
            }
            lemma_prefix_text(head, head + spans);
        } else {
            assert(spaces(0) =~= Seq::<char>::empty());
            assert(spaces(margin as nat).is_prefix_of(texts_of(spans)));
        }
    } else {
        let eff = (max_width - indent) as usize;
        let p = wrap_prefix(margin, indent);
        let ptext = spaces(margin as nat) + spaces(indent as nat);
        let ihead = seq![(spaces(indent as nat), default_style())];
        lemma_texts_of_push(Seq::<(Seq<char>, StyleView)>::empty(), (spaces(indent as nat), default_style()));
        assert(Seq::<(Seq<char>, StyleView)>::empty().push((spaces(indent as nat), default_style())) =~= ihead);
        lemma_texts_of_concat(
            if margin > 0 {
                head
            } else {
                seq![]
            },
            if indent > 0 {
                ihead
            } else {
                seq![]
            },
        );
        assert(spaces(0) =~= Seq::<char>::empty());
        assert(texts_of(p) =~= ptext);
        let st = wrap_fold(all_words(spans), eff, p);
        lemma_wrap_fold_prefix(all_words(spans), eff, p);
        let ls = if st.1.len() > 0 {
            st.0.push(st.1)
        } else {
            st.0
        };
        if st.1.len() > 0 {
            lemma_prefix_lines_push(st.0, st.1, p);
        }
        let ls2 = if ls.len() == 0 {
            seq![seq![]]
        } else {
            ls
        };
        if ls.len() == 0 {
            assert(p.len() == 0);
            assert(ptext.len() == 0);
        }
        assert forall|k: int| 0 <= k < res.len() implies ptext.is_prefix_of(texts_of(#[trigger] res[k])) by {
            assert(res[k] == coalesce_seq(ls2[k]));
            lemma_coalesce(ls2[k]);
            if ls.len() == 0 {
                assert(ptext =~= Seq::<char>::empty());
            } else {
                assert(p.is_prefix_of(ls2[k]));
                lemma_prefix_text(p, ls2[k]);
            }
        }
    }
}

/// The cells a piece of a wrapped line takes, as the wrap counts them: a
/// separating space one cell, any other piece its display width.
pub open spec fn piece_cells(t: Seq<char>) -> int {
    if t == seq![' '] {
        1
    } else {
        display_width(t) as int
    }
}

/// The cells of the pieces `ps`, as the wrap counts them.
pub open spec fn cells_sum(ps: Seq<(Seq<char>, StyleView)>) -> int
    decreases ps.len(),
{
    if ps.len() == 0 {
        0
    } else {
        cells_sum(ps.drop_last()) + piece_cells(ps.last().0)
    }
}

/// The pieces of a line after its prefix `p`.
pub open spec fn body(l: Seq<(Seq<char>, StyleView)>, p: Seq<(Seq<char>, StyleView)>) -> Seq<(Seq<char>, StyleView)> {
    l.subrange(p.len() as int, l.len() as int)
}

/// Every piece the hard break cuts from a word wider than `eff` is at most
/// `eff` cells wide and is not a lone space (the pieces of a word hold none
/// of the spaces that separate words).
pub open spec fn hard_breaks_fit(words: Seq<(Seq<char>, int, StyleView)>, eff: usize) -> bool {
    forall|i: int, k: int|
        0 <= i < words.len() && display_width(words[i].0) > eff && 0 <= k < split_pieces(words[i].0, eff).len()
            ==> display_width(#[trigger] split_pieces(words[i].0, eff)[k]) <= eff && split_pieces(
            words[i].0,
            eff,
        )[k] != seq![' ']
}

/// A wrap state whose lines all start with `p`, whose finished lines hold at
/// most `eff` cells after it, and whose current line holds at most as many
/// cells after it as the column count, which is at most `eff`.
pub open spec fn state_fits(
    st: (Seq<Seq<(Seq<char>, StyleView)>>, Seq<(Seq<char>, StyleView)>, int),
    eff: usize,
    p: Seq<(Seq<char>, StyleView)>,
) -> bool {
    &&& 0 <= st.2 <= eff
    &&& p.is_prefix_of(st.1)
    &&& cells_sum(body(st.1, p)) <= st.2
    &&& forall|k: int| 0 <= k < st.0.len() ==> p.is_prefix_of(#[trigger] st.0[k]) && cells_sum(body(st.0[k], p)) <= eff
}

proof fn lemma_fits_fresh(p: Seq<(Seq<char>, StyleView)>)
    ensures
        p.is_prefix_of(p),
        cells_sum(body(p, p)) == 0,
{
    assert(body(p, p) =~= Seq::<(Seq<char>, StyleView)>::empty());
}

proof fn lemma_body_push(l: Seq<(Seq<char>, StyleView)>, p: Seq<(Seq<char>, StyleView)>, e: (Seq<char>, StyleView))
    requires
        p.is_prefix_of(l),
    ensures
        p.is_prefix_of(l.push(e)),
        cells_sum(body(l.push(e), p)) == cells_sum(body(l, p)) + piece_cells(e.0),
{
    lemma_prefix_push(p, l, e);
    assert(body(l.push(e), p) =~= body(l, p).push(e));
    assert(body(l.push(e), p).drop_last() =~= body(l, p));
}

/// Finishing the current line and starting a fresh one keeps the state fit.
proof fn lemma_fits_break(
    st: (Seq<Seq<(Seq<char>, StyleView)>>, Seq<(Seq<char>, StyleView)>, int),
    eff: usize,
    p: Seq<(Seq<char>, StyleView)>,
)
    requires
        state_fits(st, eff, p),
    ensures
        state_fits((st.0.push(st.1), p, 0int), eff, p),
{
    lemma_fits_fresh(p);
    let ls = st.0.push(st.1);
    assert forall|k: int| 0 <= k < ls.len() implies p.is_prefix_of(#[trigger] ls[k]) && cells_sum(body(ls[k], p))
        <= eff by {
        if k < st.0.len() {
            assert(ls[k] == st.0[k]);
        }
    }
}

proof fn lemma_chunk_fold_fits(
    st: (Seq<Seq<(Seq<char>, StyleView)>>, Seq<(Seq<char>, StyleView)>, int),
    chunks: Seq<Seq<char>>,
    style: StyleView,
    eff: usize,
    p: Seq<(Seq<char>, StyleView)>,
)
    requires
        state_fits(st, eff, p),
        forall|k: int| 0 <= k < chunks.len() ==> display_width(#[trigger] chunks[k]) <= eff && chunks[k] != seq![' '],
    ensures
        state_fits(chunk_fold(st, chunks, style, p), eff, p),
    decreases chunks.len(),
{
    if chunks.len() > 0 {
        let q = chunk_fold(st, chunks.drop_last(), style, p);
        assert forall|k: int| 0 <= k < chunks.drop_last().len() implies display_width(
            #[trigger] chunks.drop_last()[k],
        ) <= eff && chunks.drop_last()[k] != seq![' '] by {
            assert(chunks.drop_last()[k] == chunks[k]);
        }
        lemma_chunk_fold_fits(st, chunks.drop_last(), style, eff, p);
        let c = chunks.last();
        assert(display_width(c) <= eff && c != seq![' ']);
        let q1 = if q.2 > 0 {
            (q.0.push(q.1), p, 0int)
        } else {
            q
        };
        if q.2 > 0 {
            lemma_fits_break(q, eff, p);
        }
        lemma_body_push(q1.1, p, (c, style));
    }
}

/// A piece of `split_on` never holds the separator.
proof fn lemma_split_on_clean(s: Seq<char>, c: char)
    ensures
        forall|k: int| 0 <= k < split_on(s, c).len() ==> !(#[trigger] split_on(s, c)[k]).contains(c),
    decreases s.len(),
{
    if s.len() > 0 {
        lemma_split_on_clean(s.drop_last(), c);
        lemma_split_on_len(s.drop_last(), c);
        let p = split_on(s.drop_last(), c);
        if s.last() != c {
            let l = p.last().push(s.last());
            let r = p.drop_last().push(l);
            assert forall|k: int| 0 <= k < r.len() implies !(#[trigger] r[k]).contains(c) by {
                if k < r.len() - 1 {
                    assert(r[k] == p[k]);
                } else {
                    assert(!p[p.len() - 1].contains(c));
                    if l.contains(c) {
                        let j = choose|j: int| 0 <= j < l.len() && l[j] == c;
                        if j < l.len() - 1 {
                            assert(p.last()[j] == c);
                        }
                    }
                }
            }
        } else {
            let r = p.push(seq![]);
            assert forall|k: int| 0 <= k < r.len() implies !(#[trigger] r[k]).contains(c) by {
                if k < p.len() {
                    assert(r[k] == p[k]);
                }
            }
        }
    }
}

/// No word of `spans` is a lone space.
proof fn lemma_words_clean(spans: Seq<(Seq<char>, StyleView)>)
    ensures
        forall|i: int| 0 <= i < all_words(spans).len() ==> (#[trigger] all_words(spans)[i]).0 != seq![' '],
    decreases spans.len(),
{
    if spans.len() > 0 {
        lemma_words_clean(spans.drop_last());
        let a = all_words(spans.drop_last());
        let b = span_words(spans.last());
        lemma_split_on_clean(spans.last().0, ' ');
        assert forall|i: int| 0 <= i < all_words(spans).len() implies (#[trigger] all_words(spans)[i]).0 != seq![' '] by {
            if i < a.len() {
                assert(all_words(spans)[i] == a[i]);
            } else {
                let j = i - a.len();
                assert(all_words(spans)[i] == b[j]);
                let w = split_on(spans.last().0, ' ')[j];
                assert(b[j].0 == w);
                if w == seq![' '] {
                    assert(w[0] == ' ');
                    assert(w.contains(' '));
                }
            }
        }
    }
}

proof fn lemma_wrap_fold_fits(words: Seq<(Seq<char>, int, StyleView)>, eff: usize, p: Seq<(Seq<char>, StyleView)>)
    requires
        eff >= 1,
        hard_breaks_fit(words, eff),
        forall|i: int| 0 <= i < words.len() ==> (#[trigger] words[i]).0 != seq![' '],
    ensures
        state_fits(wrap_fold(words, eff, p), eff, p),
    decreases words.len(),
{
    if words.len() == 0 {
        lemma_fits_fresh(p);
        assert(state_fits((seq![], p, 0int), eff, p));
    } else {
        let ws = words.drop_last();
        assert(hard_breaks_fit(ws, eff)) by {
            assert forall|i: int, k: int|
                0 <= i < ws.len() && display_width(ws[i].0) > eff && 0 <= k < split_pieces(ws[i].0, eff).len()
                    implies display_width(#[trigger] split_pieces(ws[i].0, eff)[k]) <= eff && split_pieces(
                    ws[i].0,
                    eff,
                )[k] != seq![' '] by {
                assert(ws[i] == words[i]);
            }
        }
        assert forall|i: int| 0 <= i < ws.len() implies (#[trigger] ws[i]).0 != seq![' '] by {
            assert(ws[i] == words[i]);
        }
        lemma_wrap_fold_fits(ws, eff, p);
        let st = wrap_fold(ws, eff, p);
        let wd = words.last();
        assert(wd == words[words.len() - 1]);
        let w = display_width(wd.0) as int;
        if w == 0 && wd.1 > 0 {
            if st.2 > 0 && st.2 < eff {
                lemma_body_push(st.1, p, (seq![' '], wd.2));
            }
        } else if w > eff {
            let st1 = if st.2 > 0 {
                (st.0.push(st.1), p, 0int)
            } else {
                st
            };
            if st.2 > 0 {
                lemma_fits_break(st, eff, p);
            }
            let chunks = split_pieces(wd.0, eff);
            assert forall|k: int| 0 <= k < chunks.len() implies display_width(#[trigger] chunks[k]) <= eff
                && chunks[k] != seq![' '] by {
                let i = words.len() - 1;
                assert(split_pieces(words[i].0, eff)[k] == chunks[k]);
            }
            lemma_chunk_fold_fits(st1, chunks, wd.2, eff, p);
        } else {
            let need_space = st.2 > 0 && wd.1 > 0;
            let total = st.2 + w + if need_space {
                1int
            } else {
                0int
            };
            let st1 = if total > eff && st.2 > 0 {
                (st.0.push(st.1), p, 0int)
            } else {
                st
            };
            if total > eff && st.2 > 0 {
                lemma_fits_break(st, eff, p);
            }
            let st2 = if st1.2 > 0 && need_space {
                (st1.0, st1.1.push((seq![' '], wd.2)), st1.2 + 1)
            } else {
                st1
            };
            if st1.2 > 0 && need_space {
                lemma_body_push(st1.1, p, (seq![' '], wd.2));
            }
            lemma_body_push(st2.1, p, (wd.0, wd.2));
            assert(piece_cells(wd.0) == w);
        }
    }
}

/// The lines the wrap builds, before same-styled neighbours are merged
/// (for the case where `wrapped_lines` wraps).
pub open spec fn built_lines(
    spans: Seq<(Seq<char>, StyleView)>,
    max_width: usize,
    indent: usize,
    margin: usize,
) -> Seq<Seq<(Seq<char>, StyleView)>> {
    let st = wrap_fold(all_words(spans), (max_width - indent) as usize, wrap_prefix(margin, indent));
    let ls = if st.1.len() > 0 {
        st.0.push(st.1)
    } else {
        st.0
    };
    if ls.len() == 0 {
        seq![seq![]]
    } else {
        ls
    }
}

/// No wrapped line overflows: when there is room to wrap, each line
/// `wrap_spans` lays out is a built line with same-styled neighbours merged,
/// and every built line is the margin and indent (that many spaces) followed
/// by pieces of at most `max_width - indent` cells, counting a separating
/// space as one cell and any other piece by its display width. This holds
/// for every text whose hard-broken pieces fit the line (which
/// `split_by_width` gives whenever a grapheme cluster is no wider than the
/// line and cluster widths add up).
pub proof fn law_wrapped_lines_fit(
    spans: Seq<(Seq<char>, StyleView)>,
    max_width: usize,
    indent: usize,
    margin: usize,
)
    requires
        max_width > indent,
        spans.len() > 0,
        hard_breaks_fit(all_words(spans), (max_width - indent) as usize),
    ensures
        wrapped_lines(spans, max_width, indent, margin).len() == built_lines(spans, max_width, indent, margin).len(),
        forall|k: int|
            0 <= k < built_lines(spans, max_width, indent, margin).len() ==> {
                let l = #[trigger] built_lines(spans, max_width, indent, margin)[k];
                &&& wrapped_lines(spans, max_width, indent, margin)[k] == coalesce_seq(l)
                &&& wrap_prefix(margin, indent).is_prefix_of(l)
                &&& cells_sum(body(l, wrap_prefix(margin, indent))) <= max_width - indent
            },
{
    let eff = (max_width - indent) as usize;
    let p = wrap_prefix(margin, indent);
    lemma_words_clean(spans);
    lemma_wrap_fold_fits(all_words(spans), eff, p);
    let st = wrap_fold(all_words(spans), eff, p);
    let ls = if st.1.len() > 0 {
        st.0.push(st.1)
    } else {
        st.0
    };
    let bl = built_lines(spans, max_width, indent, margin);
    assert forall|k: int| 0 <= k < bl.len() implies p.is_prefix_of(#[trigger] bl[k]) && cells_sum(body(bl[k], p))
        <= eff by {
        if ls.len() == 0 {
            assert(p.len() == 0);
            assert(body(bl[k], p) =~= Seq::<(Seq<char>, StyleView)>::empty());
        } else if st.1.len() > 0 && k == st.0.len() {
            assert(bl[k] == st.1);
        } else {
            assert(bl[k] == st.0[k]);
        }
    }
}

/// `s` without its spaces (U+0020).
pub open spec fn nonspace(s: Seq<char>) -> Seq<char>
    decreases s.len(),
{
    if s.len() == 0 {
        seq![]
    } else {
        nonspace(s.drop_last()) + if s.last() == ' ' {
            Seq::<char>::empty()
        } else {
            seq![s.last()]
        }
    }
}

pub proof fn lemma_nonspace_concat(a: Seq<char>, b: Seq<char>)
    ensures
        nonspace(a + b) == nonspace(a) + nonspace(b),
    decreases b.len(),
{
    if b.len() == 0 {
        assert(a + b =~= a);
        assert(nonspace(a) + nonspace(b) =~= nonspace(a));
    } else {
        lemma_nonspace_concat(a, b.drop_last());
        assert((a + b).drop_last() =~= a + b.drop_last());
        assert((a + b).last() == b.last());
        let t = if b.last() == ' ' {
            Seq::<char>::empty()
        } else {
            seq![b.last()]
        };
        assert(nonspace(a) + nonspace(b.drop_last()) + t =~= nonspace(a) + (nonspace(b.drop_last()) + t));
    }
}

proof fn lemma_nonspace_blank(s: Seq<char>)
    requires
        forall|i: int| 0 <= i < s.len() ==> s[i] == ' ',
    ensures
        nonspace(s) == Seq::<char>::empty(),
    decreases s.len(),
{
    if s.len() > 0 {
        lemma_nonspace_blank(s.drop_last());
    }
}

proof fn lemma_nonspace_twice(s: Seq<char>)
    ensures
        nonspace(nonspace(s)) == nonspace(s),
    decreases s.len(),
{
    if s.len() > 0 {
        lemma_nonspace_twice(s.drop_last());
        let t = if s.last() == ' ' {
            Seq::<char>::empty()
        } else {
            seq![s.last()]
        };
        lemma_nonspace_concat(nonspace(s.drop_last()), t);
        if s.last() != ' ' {
            assert(t.drop_last() =~= Seq::<char>::empty());
            assert(nonspace(Seq::<char>::empty()) == Seq::<char>::empty());
            assert(t.last() == s.last());
            assert(nonspace(t) =~= t);
        }
    }
}

/// The text of the words `words`, joined.
pub open spec fn words_text(words: Seq<(Seq<char>, int, StyleView)>) -> Seq<char>
    decreases words.len(),
{
    if words.len() == 0 {
        seq![]
    } else {
        words_text(words.drop_last()) + words.last().0
    }
}

proof fn lemma_words_text_concat(a: Seq<(Seq<char>, int, StyleView)>, b: Seq<(Seq<char>, int, StyleView)>)
    ensures
        words_text(a + b) == words_text(a) + words_text(b),
    decreases b.len(),
{
    if b.len() == 0 {
        assert(a + b =~= a);
        assert(words_text(a) + words_text(b) =~= words_text(a));
    } else {
        lemma_words_text_concat(a, b.drop_last());
        assert((a + b).drop_last() =~= a + b.drop_last());
        assert((a + b).last() == b.last());
        assert(words_text(a) + words_text(b.drop_last()) + b.last().0 =~= words_text(a) + (words_text(
            b.drop_last(),
        ) + b.last().0));
    }
}

/// The words of one span join back into its pieces between spaces.
proof fn lemma_span_words_text(ws: Seq<Seq<char>>, style: StyleView, n: int)
    requires
        0 <= n <= ws.len(),
    ensures
        words_text(Seq::new(n as nat, |i: int| (ws[i], i, style))) == ws.take(n).flatten(),
    decreases n,
{
    broadcast use Seq::lemma_flatten_push;

    if n == 0 {
        assert(ws.take(0) =~= Seq::<Seq<char>>::empty());
    } else {
        lemma_span_words_text(ws, style, n - 1);
        let sq = Seq::new(n as nat, |i: int| (ws[i], i, style));
        assert(sq.drop_last() =~= Seq::new((n - 1) as nat, |i: int| (ws[i], i, style)));
        assert(ws.take(n) =~= ws.take(n - 1).push(ws[n - 1]));
    }
}

/// The pieces of `s` between spaces join into `s` without its spaces.
proof fn lemma_split_on_nonspace(s: Seq<char>)
    ensures
        split_on(s, ' ').flatten() == nonspace(s),
    decreases s.len(),
{
    broadcast use Seq::lemma_flatten_push;

    if s.len() > 0 {
        lemma_split_on_nonspace(s.drop_last());
        lemma_split_on_len(s.drop_last(), ' ');
        let p = split_on(s.drop_last(), ' ');
        if s.last() == ' ' {
            assert(nonspace(s) =~= nonspace(s.drop_last()));
        } else {
            assert(p.drop_last().push(p.last()) =~= p);
            assert(p.flatten() == p.drop_last().flatten() + p.last());
            assert(p.drop_last().push(p.last().push(s.last())).flatten() =~= p.drop_last().flatten() + p.last().push(
                s.last(),
            ));
            assert(p.drop_last().flatten() + p.last().push(s.last()) =~= p.flatten() + seq![s.last()]);
        }
    }
}

/// The words of all spans, joined, are the spans' text without its spaces.
proof fn lemma_all_words_text(spans: Seq<(Seq<char>, StyleView)>)
    ensures
        words_text(all_words(spans)) == nonspace(texts_of(spans)),
    decreases spans.len(),
{
    if spans.len() > 0 {
        lemma_all_words_text(spans.drop_last());
        let sp = spans.last();
        let ws = split_on(sp.0, ' ');
        lemma_words_text_concat(all_words(spans.drop_last()), span_words(sp));
        lemma_span_words_text(ws, sp.1, ws.len() as int);
        assert(ws.take(ws.len() as int) =~= ws);
        assert(span_words(sp) =~= Seq::new(ws.len(), |i: int| (ws[i], i, sp.1)));
        lemma_split_on_nonspace(sp.0);
        lemma_nonspace_concat(texts_of(spans.drop_last()), sp.0);
    }
}

/// The non-space text of a wrap state: its lines, then its current line.
pub open spec fn state_text(st: (Seq<Seq<(Seq<char>, StyleView)>>, Seq<(Seq<char>, StyleView)>, int)) -> Seq<char> {
    nonspace(all_text(st.0) + texts_of(st.1))
}

proof fn lemma_state_push(
    st: (Seq<Seq<(Seq<char>, StyleView)>>, Seq<(Seq<char>, StyleView)>, int),
    e: (Seq<char>, StyleView),
    w: int,
)
    ensures
        state_text((st.0, st.1.push(e), w)) == state_text(st) + nonspace(e.0),
{
    lemma_texts_of_push(st.1, e);
    assert(all_text(st.0) + texts_of(st.1.push(e)) =~= (all_text(st.0) + texts_of(st.1)) + e.0);
    lemma_nonspace_concat(all_text(st.0) + texts_of(st.1), e.0);
}

proof fn lemma_state_break(
    st: (Seq<Seq<(Seq<char>, StyleView)>>, Seq<(Seq<char>, StyleView)>, int),
    p: Seq<(Seq<char>, StyleView)>,
)
    requires
        nonspace(texts_of(p)) == Seq::<char>::empty(),
    ensures
        state_text((st.0.push(st.1), p, 0int)) == state_text(st),
{
    lemma_all_text_push(st.0, st.1);
    lemma_nonspace_concat(all_text(st.0) + texts_of(st.1), texts_of(p));
    assert(all_text(st.0.push(st.1)) + texts_of(p) =~= (all_text(st.0) + texts_of(st.1)) + texts_of(p));
    assert(state_text(st) + Seq::<char>::empty() =~= state_text(st));
}

proof fn lemma_chunk_fold_text(
    st: (Seq<Seq<(Seq<char>, StyleView)>>, Seq<(Seq<char>, StyleView)>, int),
    chunks: Seq<Seq<char>>,
    style: StyleView,
    p: Seq<(Seq<char>, StyleView)>,
)
    requires
        nonspace(texts_of(p)) == Seq::<char>::empty(),
    ensures
        state_text(chunk_fold(st, chunks, style, p)) == state_text(st) + nonspace(chunks.flatten()),
    decreases chunks.len(),
{
    broadcast use Seq::lemma_flatten_push;

    if chunks.len() == 0 {
        assert(state_text(st) + nonspace(chunks.flatten()) =~= state_text(st));
    } else {
        lemma_chunk_fold_text(st, chunks.drop_last(), style, p);
        let q = chunk_fold(st, chunks.drop_last(), style, p);
        let c = chunks.last();
        let q1 = if q.2 > 0 {
            (q.0.push(q.1), p, 0int)
        } else {
            q
        };
        if q.2 > 0 {
            lemma_state_break(q, p);
        }
        lemma_state_push(q1, (c, style), q1.2 + display_width(c));
        assert(chunks.drop_last().push(c) =~= chunks);
        lemma_nonspace_concat(chunks.drop_last().flatten(), c);
    }
}

/// The words keep their text: each breaks into grapheme clusters that join
/// back into it, and a zero-width piece after the first of its span (which
/// the wrap turns into a space) is empty.
pub open spec fn words_whole(words: Seq<(Seq<char>, int, StyleView)>) -> bool {
    forall|i: int|
        0 <= i < words.len() ==> (#[trigger] grapheme_split(words[i].0)).flatten() == words[i].0 && (display_width(
            words[i].0,
        ) == 0 && words[i].1 > 0 ==> words[i].0.len() == 0)
}

proof fn lemma_wrap_fold_text(words: Seq<(Seq<char>, int, StyleView)>, eff: usize, p: Seq<(Seq<char>, StyleView)>)
    requires
        eff >= 1,
        nonspace(texts_of(p)) == Seq::<char>::empty(),
        words_whole(words),
    ensures
        state_text(wrap_fold(words, eff, p)) == nonspace(words_text(words)),
    decreases words.len(),
{
    if words.len() == 0 {
        assert(all_text(Seq::<Seq<(Seq<char>, StyleView)>>::empty()) + texts_of(p) =~= texts_of(p));
    } else {
        let ws = words.drop_last();
        assert forall|i: int| 0 <= i < ws.len() implies (#[trigger] grapheme_split(ws[i].0)).flatten() == ws[i].0 && (
        display_width(ws[i].0) == 0 && ws[i].1 > 0 ==> ws[i].0.len() == 0) by {
            assert(ws[i] == words[i]);
        }
        lemma_wrap_fold_text(ws, eff, p);
        let st = wrap_fold(ws, eff, p);
        let wd = words.last();
        assert(wd == words[words.len() - 1]);
        assert(grapheme_split(wd.0).flatten() == wd.0);
        lemma_nonspace_concat(words_text(ws), wd.0);
        let w = display_width(wd.0) as int;
        if w == 0 && wd.1 > 0 {
            assert(wd.0 =~= Seq::<char>::empty());
            assert(nonspace(wd.0) == Seq::<char>::empty());
            if st.2 > 0 && st.2 < eff {
                lemma_state_push(st, (seq![' '], wd.2), st.2 + 1);
                lemma_nonspace_blank(seq![' ']);
            }
            assert(nonspace(words_text(ws)) + nonspace(wd.0) =~= nonspace(words_text(ws)));
        } else if w > eff {
            let st1 = if st.2 > 0 {
                (st.0.push(st.1), p, 0int)
            } else {
                st
            };
            if st.2 > 0 {
                lemma_state_break(st, p);
            }
            let chunks = split_pieces(wd.0, eff);
            lemma_chunk_fold_text(st1, chunks, wd.2, p);
            let wdd: int = if eff > 1 {
                eff as int
            } else {
                1
            };
            let gs = grapheme_split(wd.0);
            lemma_split_fold(gs, wdd);
            let sf = split_fold(gs, wdd);
            if sf.1.len() > 0 {
                sf.0.lemma_flatten_push(sf.1);
            } else {
                assert(sf.0.flatten() + sf.1 =~= sf.0.flatten());
            }
            assert(chunks.flatten() == wd.0);
        } else {
            let need_space = st.2 > 0 && wd.1 > 0;
            let total = st.2 + w + if need_space {
                1int
            } else {
                0int
            };
            let st1 = if total > eff && st.2 > 0 {
                (st.0.push(st.1), p, 0int)
            } else {
                st
            };
            if total > eff && st.2 > 0 {
                lemma_state_break(st, p);
            }
            let st2 = if st1.2 > 0 && need_space {
                (st1.0, st1.1.push((seq![' '], wd.2)), st1.2 + 1)
            } else {
                st1
            };
            if st1.2 > 0 && need_space {
                lemma_state_push(st1, (seq![' '], wd.2), st1.2 + 1);
                lemma_nonspace_blank(seq![' ']);
                assert(state_text(st1) + Seq::<char>::empty() =~= state_text(st1));
            }
            lemma_state_push(st2, (wd.0, wd.2), st2.2 + w);
        }
    }
}

/// Merging same-styled neighbours keeps every line's text.
proof fn lemma_all_text_coalesced(ls: Seq<Seq<(Seq<char>, StyleView)>>)
    ensures
        all_text(Seq::new(ls.len(), |k: int| coalesce_seq(ls[k]))) == all_text(ls),
    decreases ls.len(),
{
    if ls.len() > 0 {
        lemma_all_text_coalesced(ls.drop_last());
        let c = Seq::new(ls.len(), |k: int| coalesce_seq(ls[k]));
        assert(c.drop_last() =~= Seq::new(ls.drop_last().len(), |k: int| coalesce_seq(ls.drop_last()[k])));
        lemma_coalesce(ls.last());
    }
}

/// Wrapping only adds or drops spaces: the text of the lines `wrap_spans`
/// lays out, without its spaces, is the text of the spans without its
/// spaces, for every text whose words join back from their grapheme
/// clusters and have no zero-width piece after a space (such a piece is
/// laid out as a space).
pub proof fn law_wrapping_keeps_text(
    spans: Seq<(Seq<char>, StyleView)>,
    max_width: usize,
    indent: usize,
    margin: usize,
)
    requires
        words_whole(all_words(spans)),
    ensures
        wrapped_lines(spans, max_width, indent, margin).len() >= 1,
        nonspace(all_text(wrapped_lines(spans, max_width, indent, margin))) == nonspace(texts_of(spans)),
{
    let res = wrapped_lines(spans, max_width, indent, margin);
    let head = seq![(spaces(margin as nat), default_style())];
    lemma_texts_of_push(Seq::<(Seq<char>, StyleView)>::empty(), (spaces(margin as nat), default_style()));
    assert(Seq::<(Seq<char>, StyleView)>::empty().push((spaces(margin as nat), default_style())) =~= head);
    lemma_nonspace_blank(spaces(margin as nat));
    lemma_nonspace_blank(spaces(indent as nat));
    if max_width <= indent || spans.len() == 0 {
        let l = if margin > 0 {
            head + spans
        } else {
            spans
        };
        assert(res =~= seq![l]);
        assert(res.drop_last() =~= Seq::<Seq<(Seq<char>, StyleView)>>::empty());
        assert(all_text(Seq::<Seq<(Seq<char>, StyleView)>>::empty()) == Seq::<char>::empty());
        assert(res.last() == l);
        assert(all_text(res) =~= texts_of(l));
        if margin > 0 {
            lemma_texts_of_concat(head, spans);
            lemma_nonspace_concat(spaces(margin as nat), texts_of(spans));
            assert(Seq::<char>::empty() + nonspace(texts_of(spans)) =~= nonspace(texts_of(spans)));
        }
    } else {
        let eff = (max_width - indent) as usize;
        let p = wrap_prefix(margin, indent);
        let ihead = seq![(spaces(indent as nat), default_style())];
        lemma_texts_of_push(Seq::<(Seq<char>, StyleView)>::empty(), (spaces(indent as nat), default_style()));
        assert(Seq::<(Seq<char>, StyleView)>::empty().push((spaces(indent as nat), default_style())) =~= ihead);
        let mh = if margin > 0 {
            head
        } else {
            seq![]
        };
        let ih = if indent > 0 {
            ihead
        } else {
            seq![]
        };
        lemma_texts_of_concat(mh, ih);
        assert(p == mh + ih);
        assert(texts_of(Seq::<(Seq<char>, StyleView)>::empty()) == Seq::<char>::empty());
        lemma_nonspace_concat(texts_of(mh), texts_of(ih));
        assert(nonspace(texts_of(mh)) == Seq::<char>::empty());
        assert(nonspace(texts_of(ih)) == Seq::<char>::empty());
        assert(nonspace(texts_of(p)) =~= Seq::<char>::empty());
        lemma_wrap_fold_text(all_words(spans), eff, p);
        lemma_all_words_text(spans);
        let st = wrap_fold(all_words(spans), eff, p);
        let ls = if st.1.len() > 0 {
            st.0.push(st.1)
        } else {
            st.0
        };
        if st.1.len() > 0 {
            lemma_all_text_push(st.0, st.1);
        } else {
            assert(texts_of(st.1) == Seq::<char>::empty());
            assert(all_text(st.0) + texts_of(st.1) =~= all_text(st.0));
        }
        let ls2 = if ls.len() == 0 {
            seq![seq![]]
        } else {
            ls
        };
        if ls.len() == 0 {
            assert(ls2.drop_last() =~= Seq::<Seq<(Seq<char>, StyleView)>>::empty());
            assert(all_text(Seq::<Seq<(Seq<char>, StyleView)>>::empty()) == Seq::<char>::empty());
            assert(texts_of(Seq::<(Seq<char>, StyleView)>::empty()) == Seq::<char>::empty());
            assert(all_text(ls2) =~= Seq::<char>::empty());
            assert(all_text(ls) == Seq::<char>::empty());
        }
        lemma_all_text_coalesced(ls2);
        lemma_nonspace_twice(texts_of(spans));
        assert(res =~= Seq::new(ls2.len(), |k: int| coalesce_seq(ls2[k])));
        assert(all_text(ls2) == all_text(st.0) + texts_of(st.1));
    }
}
} // verus!
