//! Painting search matches and the selection over a displayed line. A line
//! is its spans' texts; painting cuts them into pieces, each from one span
//! (or the cell that stands for a selected line break) and painted or not,
//! and the display gives a painted piece its span's style with the paint on
//! top.
use crate::text::{char_lower, find_from, lemma_find_from, unicode_lower};
use crate::unicode::{display_width, grapheme_split};
use vstd::prelude::*;

verus! {

/// A piece of a painted line: its text, the index of the span it comes from
/// (`None` for the trailing cell of a selected line break), and whether the
/// paint covers it.
#[derive(Debug, Clone, PartialEq, Eq)]
pub struct Piece {
    pub text: String,
    pub span: Option<usize>,
    pub painted: bool,
}

/// A piece as plain values.
pub open spec fn piece_view(p: Piece) -> (Seq<char>, Option<usize>, bool) {
    (p.text@, p.span, p.painted)
}

/// Pieces as plain values.
pub open spec fn pieces_view(ps: Seq<Piece>) -> Seq<(Seq<char>, Option<usize>, bool)> {
    ps.map_values(|p: Piece| piece_view(p))
}

/// The texts of spans.
pub open spec fn texts_view(spans: Seq<String>) -> Seq<Seq<char>> {
    spans.map_values(|s: String| s@)
}

/// `text` lowercased character by character, and for each character of the
/// result the index of the character of `text` it came from; one more entry
/// closes the list with the length of `text`.
pub open spec fn lowered(text: Seq<char>) -> (Seq<char>, Seq<int>)
    decreases text.len(),
{
    if text.len() == 0 {
        (seq![], seq![])
    } else {
        let p = lowered(text.drop_last());
        let l = char_lower(text.last());
        (p.0 + l, p.1 + Seq::new(l.len(), |j: int| text.len() - 1))
    }
}

/// The origins with the closing entry.
pub open spec fn origins(text: Seq<char>) -> Seq<int> {
    lowered(text).1.push(text.len() as int)
}

/// The pieces of `text` from lowered position `lpos` (source position
/// `opos`) on: each match of `q` in the lowered text is painted (over the
/// source characters it came from), the text between is not.
pub open spec fn match_pieces(text: Seq<char>, q: Seq<char>, lpos: int, opos: int) -> Seq<(Seq<char>, bool)>
    decreases lowered(text).0.len() - lpos,
{
    let low = lowered(text).0;
    let org = origins(text);
    if q.len() == 0 || lpos < 0 || lpos > low.len() {
        seq![]
    } else {
        match find_from(low.subrange(lpos, low.len() as int), q, 0) {
            Some(found) => {
                proof {
                    lemma_find_from(low.subrange(lpos, low.len() as int), q, 0);
                }
                let ls = lpos + found;
                let le = ls + q.len();
                let os = org[ls];
                let oe = org[le];
                (if os > opos {
                    seq![(text.subrange(opos, os), false)]
                } else {
                    seq![]
                }) + (if oe > os {
                    seq![(text.subrange(os, oe), true)]
                } else {
                    seq![]
                }) + match_pieces(text, q, le, oe)
            },
            None => if opos < text.len() {
                seq![(text.subrange(opos, text.len() as int), false)]
            } else {
                seq![]
            },
        }
    }
}

/// Pieces of one span, tagged with its index.
pub open spec fn tagged(ps: Seq<(Seq<char>, bool)>, k: int) -> Seq<(Seq<char>, Option<usize>, bool)> {
    ps.map_values(|p: (Seq<char>, bool)| (p.0, Some(k as usize), p.1))
}

/// The pieces of the first `n` spans with the matches of `query` painted:
/// the query is lowercased, each span is matched in its lowercased text; an
/// empty query paints nothing and leaves the spans whole.
pub open spec fn search_pieces(spans: Seq<Seq<char>>, query: Seq<char>, n: int) -> Seq<(Seq<char>, Option<usize>, bool)>
    decreases n,
{
    if n <= 0 || n > spans.len() {
        seq![]
    } else {
        let q = unicode_lower(query);
        search_pieces(spans, query, n - 1) + if q.len() == 0 {
            seq![(spans[n - 1], Some((n - 1) as usize), false)]
        } else {
            tagged(match_pieces(spans[n - 1], q, 0, 0), n - 1)
        }
    }
}

proof fn lemma_lowered(text: Seq<char>)
    ensures
        lowered(text).1.len() == lowered(text).0.len(),
        forall|i: int| 0 <= i < lowered(text).1.len() ==> 0 <= #[trigger] lowered(text).1[i] < text.len(),
        forall|i: int, j: int| 0 <= i <= j < lowered(text).1.len() ==> lowered(text).1[i] <= lowered(text).1[j],
    decreases text.len(),
{
    if text.len() > 0 {
        lemma_lowered(text.drop_last());
    }
}

proof fn lemma_origins(text: Seq<char>)
    ensures
        origins(text).len() == lowered(text).0.len() + 1,
        forall|i: int| 0 <= i < origins(text).len() ==> 0 <= #[trigger] origins(text)[i] <= text.len(),
        forall|i: int, j: int| 0 <= i <= j < origins(text).len() ==> origins(text)[i] <= origins(text)[j],
{
    lemma_lowered(text);
    let o = origins(text);
    let l = lowered(text).1;
    assert forall|i: int, j: int| 0 <= i <= j < o.len() implies o[i] <= o[j] by {
        if j < l.len() {
            assert(o[i] == l[i] && o[j] == l[j]);
        } else if i < l.len() {
            assert(o[i] == l[i]);
        }
    }
}

/// `text` lowercased character by character, and where each character of
/// the result came from (with the closing entry).
fn lower_with_origins(text: &Vec<char>) -> (r: (Vec<char>, Vec<usize>))
    ensures
        r.0@ == lowered(text@).0,
        r.1@.len() == origins(text@).len(),
        forall|i: int| 0 <= i < r.1@.len() ==> #[trigger] r.1@[i] as int == origins(text@)[i],
{
    let mut low: Vec<char> = Vec::new();
    let mut org: Vec<usize> = Vec::new();
    let mut i: usize = 0;
    while i < text.len()
        invariant
            i <= text@.len(),
            low@ == lowered(text@.take(i as int)).0,
            org@.len() == lowered(text@.take(i as int)).1.len(),
            forall|j: int| 0 <= j < org@.len() ==> #[trigger] org@[j] as int == lowered(text@.take(i as int)).1[j],
        decreases text@.len() - i,
    {
        proof {
            assert(text@.take(i + 1).drop_last() =~= text@.take(i as int));
            assert(text@.take(i + 1).last() == text@[i as int]);
        }
        let l = crate::text::char_lowercase(text[i]);
        let lv = crate::text::chars_of(l.as_str());
        let ghost org0 = org@;
        let mut j: usize = 0;
        while j < lv.len()
            invariant
                j <= lv@.len(),
                lv@ == char_lower(text@[i as int]),
                low@ == lowered(text@.take(i as int)).0 + lv@.take(j as int),
                org@.len() == org0.len() + j,
                forall|t: int| 0 <= t < org0.len() ==> #[trigger] org@[t] == org0[t],
                forall|t: int| org0.len() <= t < org@.len() ==> #[trigger] org@[t] == i,
            decreases lv@.len() - j,
        {
            low.push(lv[j]);
            org.push(i);
            assert(lv@.take(j + 1) =~= lv@.take(j as int).push(lv@[j as int]));
            j = j + 1;
        }
        assert(lv@.take(lv@.len() as int) =~= lv@);
        assert forall|t: int| 0 <= t < org@.len() implies #[trigger] org@[t] as int == lowered(text@.take(i + 1)).1[t] by {
            if t < org0.len() {
                assert(org@[t] == org0[t]);
            }
        }
        i = i + 1;
    }
    assert(text@.take(text@.len() as int) =~= text@);
    let n = text.len();
    org.push(n);
    proof {
        assert forall|t: int| 0 <= t < org@.len() implies #[trigger] org@[t] as int == origins(text@)[t] by {}
    }
    (low, org)
}

/// Appends a piece.
fn push_piece(out: &mut Vec<Piece>, p: Piece)
    ensures
        pieces_view(final(out)@) == pieces_view(old(out)@).push(piece_view(p)),
{
    out.push(p);
    assert(pieces_view(out@) =~= pieces_view(old(out)@).push(piece_view(p)));
}

/// The pieces of span `k`, whose text is `text`, with the matches of the
/// non-empty lowercased query `q` painted.
fn push_match_pieces(text: &Vec<char>, q: &Vec<char>, k: usize, out: &mut Vec<Piece>)
    requires
        q@.len() > 0,
    ensures
        pieces_view(final(out)@) == pieces_view(old(out)@) + tagged(match_pieces(text@, q@, 0, 0), k as int),
{
    let (low, org) = lower_with_origins(text);
    proof {
        lemma_origins(text@);
    }
    let ghost target = pieces_view(out@) + tagged(match_pieces(text@, q@, 0, 0), k as int);
    let n = low.len();
    let mut lpos: usize = 0;
    let mut opos: usize = 0;
    loop
        invariant
            n == low@.len(),
            low@ == lowered(text@).0,
            org@.len() == n + 1,
            forall|i: int| 0 <= i < org@.len() ==> #[trigger] org@[i] as int == origins(text@)[i],
            forall|i: int| 0 <= i < origins(text@).len() ==> 0 <= #[trigger] origins(text@)[i] <= text@.len(),
            forall|i: int, j: int| 0 <= i <= j < origins(text@).len() ==> origins(text@)[i] <= origins(text@)[j],
            origins(text@).len() == n + 1,
            q@.len() > 0,
            lpos <= n,
            opos <= text@.len(),
            opos == origins(text@)[lpos as int] || lpos == 0 && opos == 0,
            target == pieces_view(old(out)@) + tagged(match_pieces(text@, q@, 0, 0), k as int),
            pieces_view(out@) + tagged(match_pieces(text@, q@, lpos as int, opos as int), k as int) == target,
        decreases n - lpos,
    {
        let found = crate::text::find_at(&low, lpos, q);
        match found {
            Some(ls) => {
                proof {
                    lemma_find_from(low@.subrange(lpos as int, n as int), q@, 0);
                }
                let le = ls + q.len();
                let os = org[ls];
                let oe = org[le];
                proof {
                    assert(origins(text@)[lpos as int] <= origins(text@)[ls as int]);
                    assert(os >= opos);
                }
                let ghost before = pieces_view(out@);
                if os > opos {
                    push_piece(out, Piece { text: crate::text::string_from(text, opos, os), span: Some(k), painted: false });
                }
                if oe > os {
                    push_piece(out, Piece { text: crate::text::string_from(text, os, oe), span: Some(k), painted: true });
                }
                proof {
                    let head = (if os > opos {
                        seq![(text@.subrange(opos as int, os as int), false)]
                    } else {
                        Seq::<(Seq<char>, bool)>::empty()
                    }) + (if oe > os {
                        seq![(text@.subrange(os as int, oe as int), true)]
                    } else {
                        Seq::<(Seq<char>, bool)>::empty()
                    });
                    assert(match_pieces(text@, q@, lpos as int, opos as int) == head + match_pieces(text@, q@, le as int, oe as int));
                    assert(pieces_view(out@) =~= before + tagged(head, k as int));
                    assert(tagged(head + match_pieces(text@, q@, le as int, oe as int), k as int) =~= tagged(head, k as int) + tagged(match_pieces(text@, q@, le as int, oe as int), k as int));
                }
                lpos = le;
                opos = oe;
            },
            None => {
                let ghost before = pieces_view(out@);
                if opos < text.len() {
                    push_piece(out, Piece { text: crate::text::string_from(text, opos, text.len()), span: Some(k), painted: false });
                }
                proof {
                    assert(pieces_view(out@) =~= before + tagged(match_pieces(text@, q@, lpos as int, opos as int), k as int));
                }
                return;
            },
        }
    }
}

/// Cut a line's spans (their texts) into pieces with every occurrence of
/// `query` painted, matching without regard to case. Case folding is not
/// length-preserving (`İ` lowercases to two characters), so each match
/// found in the lowercased text is mapped back to the characters of the
/// span it came from: no piece ever splits a character, and a match inside
/// one character's expansion paints nothing. An empty query leaves the
/// spans as they are.
pub fn highlight_query_in_line(spans: &Vec<String>, query: &str) -> (r: Vec<Piece>)
    ensures
        pieces_view(r@) == search_pieces(texts_view(spans@), query@, spans@.len() as int),
{
    let ql = crate::text::lowercase(query);
    let q = crate::text::chars_of(ql.as_str());
    let mut out: Vec<Piece> = Vec::new();
    let mut k: usize = 0;
    while k < spans.len()
        invariant
            k <= spans@.len(),
            q@ == unicode_lower(query@),
            pieces_view(out@) == search_pieces(texts_view(spans@), query@, k as int),
        decreases spans@.len() - k,
    {
        let ghost before = pieces_view(out@);
        if q.len() == 0 {
            push_piece(&mut out, Piece { text: spans[k].clone(), span: Some(k), painted: false });
        } else {
            let v = crate::text::chars_of(spans[k].as_str());
            push_match_pieces(&v, &q, k, &mut out);
        }
        assert(pieces_view(out@) =~= search_pieces(texts_view(spans@), query@, k + 1));
        k = k + 1;
    }
    out
}

/// The cells a grapheme takes when painting: its width, at least one.
pub open spec fn cells(g: Seq<char>) -> int {
    if display_width(g) >= 1 {
        display_width(g) as int
    } else {
        1
    }
}

/// `a + b`, stopping at the largest `usize`.
pub open spec fn sat_add(a: int, b: int) -> int {
    if a + b > usize::MAX {
        usize::MAX as int
    } else {
        a + b
    }
}

/// Painting the graphemes `gs` of a span from column `col0`: the pieces
/// closed so far, the open piece's text, whether it is painted, and the
/// column reached. A grapheme is painted when any of its cells lies in
/// `[from, to)`; a piece closes where that changes.
pub open spec fn grapheme_fold(gs: Seq<Seq<char>>, from: int, to: int, col0: int) -> (Seq<(Seq<char>, bool)>, Seq<char>, bool, int)
    decreases gs.len(),
{
    if gs.len() == 0 {
        (seq![], seq![], false, col0)
    } else {
        let p = grapheme_fold(gs.drop_last(), from, to, col0);
        let g = gs.last();
        let w = cells(g);
        let sel = p.3 + w > from && p.3 < to;
        let split = p.1.len() > 0 && sel != p.2;
        (if split {
            p.0.push((p.1, p.2))
        } else {
            p.0
        }, if split {
            g
        } else {
            p.1 + g
        }, sel, sat_add(p.3, w))
    }
}

/// The pieces of one span starting at column `col`, and the column after
/// it. A span wholly outside `[from, to)` stays one unpainted piece;
/// otherwise it is cut between graphemes where the painting changes.
pub open spec fn span_paint(text: Seq<char>, from: int, to: int, col: int) -> (Seq<(Seq<char>, bool)>, int) {
    let w = display_width(text) as int;
    if col >= to || col + w <= from {
        (seq![(text, false)], sat_add(col, w))
    } else {
        let f = grapheme_fold(grapheme_split(text), from, to, col);
        (f.0 + if f.1.len() > 0 {
            seq![(f.1, f.2)]
        } else {
            seq![]
        }, f.3)
    }
}

/// The pieces of the first `n` spans painted over `[from, to)`, and the
/// column after them.
pub open spec fn paint_fold(spans: Seq<Seq<char>>, n: int, from: int, to: int) -> (Seq<(Seq<char>, Option<usize>, bool)>, int)
    decreases n,
{
    if n <= 0 || n > spans.len() {
        (seq![], 0)
    } else {
        let p = paint_fold(spans, n - 1, from, to);
        let sp = span_paint(spans[n - 1], from, to, p.1);
        (p.0 + tagged(sp.0, n - 1), sp.1)
    }
}

/// The pieces of a line with display columns `[from, to)` painted; a range
/// past the end of the text (the line break a selection swallows) adds one
/// painted cell.
pub open spec fn selection_pieces(spans: Seq<Seq<char>>, from: int, to: int) -> Seq<(Seq<char>, Option<usize>, bool)> {
    let p = paint_fold(spans, spans.len() as int, from, to);
    p.0 + if to > p.1 {
        seq![(seq![' '], None::<usize>, true)]
    } else {
        seq![]
    }
}

/// Paint the display columns `[from, to)` of a line given as its spans'
/// texts. Works in terminal cells rather than characters, grapheme by
/// grapheme, so a wide glyph is painted whole or not at all — a selection
/// edge never splits one in half.
pub fn restyle_columns(spans: &Vec<String>, from: usize, to: usize) -> (r: Vec<Piece>)
    ensures
        pieces_view(r@) == selection_pieces(texts_view(spans@), from as int, to as int),
{
    let ghost tv = texts_view(spans@);
    let mut out: Vec<Piece> = Vec::new();
    let mut col: usize = 0;
    let mut k: usize = 0;
    while k < spans.len()
        invariant
            k <= spans@.len(),
            tv == texts_view(spans@),
            (pieces_view(out@), col as int) == paint_fold(tv, k as int, from as int, to as int),
        decreases spans@.len() - k,
    {
        let ghost before = pieces_view(out@);
        let ghost c0 = col as int;
        let text = &spans[k];
        let w = crate::unicode::text_width(text.as_str());
        if col >= to || (col <= from && w <= from - col) {
            push_piece(&mut out, Piece { text: text.clone(), span: Some(k), painted: false });
            col = col.saturating_add(w);
        } else {
            let gs = crate::unicode::graphemes(text.as_str());
            let ghost gv = gs@.map_values(|g: String| g@);
            let mut closed: Vec<Piece> = Vec::new();
            let mut pending = String::new();
            let mut painted = false;
            let mut j: usize = 0;
            while j < gs.len()
                invariant
                    j <= gs@.len(),
                    gv == gs@.map_values(|g: String| g@),
                    gv == grapheme_split(text@),
                    ({
                        let f = grapheme_fold(gv.take(j as int), from as int, to as int, c0);
                        &&& pieces_view(closed@) == tagged(f.0, k as int)
                        &&& pending@ == f.1
                        &&& painted == f.2
                        &&& col as int == f.3
                    }),
                decreases gs@.len() - j,
            {
                proof {
                    assert(gv.take(j + 1).drop_last() =~= gv.take(j as int));
                    assert(gv.take(j + 1).last() == gs@[j as int]@);
                }
                let gw = crate::unicode::text_width(gs[j].as_str());
                let cw = if gw >= 1 { gw } else { 1 };
                let sel = (col < to) && (cw > from || col > from - cw);
                assert(sel == (col + cw > from && col < to));
                if !pending.as_str().is_empty() && sel != painted {
                    let mut done = String::new();
                    std::mem::swap(&mut done, &mut pending);
                    push_piece(&mut closed, Piece { text: done, span: Some(k), painted });
                }
                painted = sel;
                pending.append(gs[j].as_str());
                col = col.saturating_add(cw);
                proof {
                    let f = grapheme_fold(gv.take(j + 1), from as int, to as int, c0);
                    assert(pieces_view(closed@) =~= tagged(f.0, k as int));
                }
                j = j + 1;
            }
            assert(gv.take(gs@.len() as int) =~= gv);
            let ghost f = grapheme_fold(gv, from as int, to as int, c0);
            if !pending.as_str().is_empty() {
                push_piece(&mut closed, Piece { text: pending, span: Some(k), painted });
            }
            let ghost cv = pieces_view(closed@);
            out.append(&mut closed);
            proof {
                assert(pieces_view(out@) =~= before + cv);
                let sp = span_paint(text@, from as int, to as int, c0);
                assert(cv =~= tagged(sp.0, k as int));
            }
        }
        proof {
            assert(pieces_view(out@) =~= paint_fold(tv, k + 1, from as int, to as int).0);
        }
        k = k + 1;
    }
    if to > col {
        let mut sp = String::new();
        crate::text::push_char(&mut sp, ' ');
        push_piece(&mut out, Piece { text: sp, span: None, painted: true });
    }
    assert(pieces_view(out@) =~= selection_pieces(tv, from as int, to as int));
    out
}

} // verus!
