//! Whole-line steps of layout: dropping trailing blank lines, the final
//! sanitizing pass, and turning bare URLs in text into links.
use super::wrap::{lines_view, lemma_texts_of_push};
use super::{line_view, opt_text, span_view, style_view, SpanStyle, StyleView, StyledLine, StyledSpan};
use crate::sanitize::{all_allowed, allowed_char, keep_allowed, sanitize_text, sanitize_url, url_allowed};
use crate::text::{find_at, find_from, is_ws, lemma_find_from, occurs_at};
use std::borrow::Cow;
use vstd::prelude::*;

verus! {

/// Every character of `s` is whitespace (`s.trim().is_empty()`).
pub open spec fn blank_text(s: Seq<char>) -> bool {
    forall|i: int| 0 <= i < s.len() ==> is_ws(#[trigger] s[i])
}

/// Every span of the line is blank.
pub open spec fn blank_line(l: Seq<(Seq<char>, StyleView)>) -> bool {
    forall|k: int| 0 <= k < l.len() ==> blank_text(#[trigger] l[k].0)
}

/// `ls` without its trailing blank lines.
pub open spec fn trim_blank(ls: Seq<Seq<(Seq<char>, StyleView)>>) -> Seq<Seq<(Seq<char>, StyleView)>>
    decreases ls.len(),
{
    if ls.len() > 0 && blank_line(ls.last()) {
        trim_blank(ls.drop_last())
    } else {
        ls
    }
}

fn blank_string(s: &String) -> (b: bool)
    ensures
        b == blank_text(s@),
{
    let v = crate::text::chars_of(s.as_str());
    let mut i: usize = 0;
    while i < v.len()
        invariant
            v@ == s@,
            i <= v@.len(),
            forall|j: int| 0 <= j < i ==> is_ws(#[trigger] v@[j]),
        decreases v@.len() - i,
    {
        if !crate::text::is_whitespace(v[i]) {
            return false;
        }
        i = i + 1;
    }
    true
}

fn is_blank_line(l: &StyledLine) -> (b: bool)
    ensures
        b == blank_line(line_view(*l)),
{
    let mut k: usize = 0;
    while k < l.spans.len()
        invariant
            k <= l.spans@.len(),
            forall|j: int| 0 <= j < k ==> blank_text(#[trigger] l.spans@[j].text@),
        decreases l.spans@.len() - k,
    {
        if !blank_string(&l.spans[k].text) {
            assert(line_view(*l)[k as int].0 == l.spans@[k as int].text@);
            return false;
        }
        k = k + 1;
    }
    assert forall|j: int| 0 <= j < line_view(*l).len() implies blank_text(#[trigger] line_view(*l)[j].0) by {
        assert(line_view(*l)[j].0 == l.spans@[j].text@);
    }
    true
}

/// Drop trailing blank lines (all-whitespace spans) from a buffer. Used before
/// wrapping child content in a bar or indent, so trailing spacing does not
/// become a stray bar line or an indented run of spaces.
pub fn trim_trailing_blank(lines: &mut Vec<StyledLine>)
    ensures
        lines_view(final(lines)@) == trim_blank(lines_view(old(lines)@)),
{
    let ghost start = lines_view(lines@);
    let mut n = lines.len();
    while n > 0 && is_blank_line(&lines[n - 1])
        invariant
            n == lines@.len(),
            trim_blank(start) == trim_blank(lines_view(lines@)),
        decreases n,
    {
        let ghost before = lines_view(lines@);
        lines.pop();
        proof {
            assert(lines_view(lines@) =~= before.drop_last());
        }
        n = n - 1;
    }
}

/// The destination a link keeps after sanitizing: itself when allowed,
/// else none.
pub open spec fn kept_link(l: Option<Seq<char>>) -> Option<Seq<char>> {
    match l {
        Some(u) => if url_allowed(u) {
            Some(u)
        } else {
            None
        },
        None => None,
    }
}

/// `after` is `before` sanitized: its text without control characters, its
/// link destination dropped unless allowed, the rest of its style unchanged.
pub open spec fn span_sanitized(before: StyledSpan, after: StyledSpan) -> bool {
    &&& after.text@ == keep_allowed(before.text@)
    &&& opt_text(after.style.link_url) == kept_link(opt_text(before.style.link_url))
    &&& after.style.fg == before.style.fg
    &&& after.style.bg == before.style.bg
    &&& after.style.bold == before.style.bold
    &&& after.style.italic == before.style.italic
    &&& after.style.underline == before.style.underline
    &&& after.style.strikethrough == before.style.strikethrough
    &&& after.style.dim == before.style.dim
}

/// `after` is `before` with every span sanitized.
pub open spec fn line_sanitized(before: StyledLine, after: StyledLine) -> bool {
    &&& after.spans@.len() == before.spans@.len()
    &&& forall|j: int| 0 <= j < before.spans@.len() ==> span_sanitized(before.spans@[j], #[trigger] after.spans@[j])
}

/// Nothing on the line can reach the terminal as a control sequence: no
/// control characters in any text, and only allowed link destinations.
pub open spec fn line_safe(l: StyledLine) -> bool {
    forall|j: int| 0 <= j < l.spans@.len() ==> {
        &&& all_allowed(#[trigger] l.spans@[j].text@)
        &&& (l.spans@[j].style.link_url matches Some(u) ==> url_allowed(u@))
    }
}

proof fn lemma_keep_allowed_clean(s: Seq<char>)
    ensures
        all_allowed(keep_allowed(s)),
    decreases s.len(),
{
    if s.len() > 0 {
        lemma_keep_allowed_clean(s.drop_last());
        let k = keep_allowed(s.drop_last());
        if allowed_char(s.last()) {
            assert forall|i: int| 0 <= i < k.push(s.last()).len() implies allowed_char(#[trigger] k.push(s.last())[i]) by {
                if i < k.len() {
                    assert(k.push(s.last())[i] == k[i]);
                }
            }
        }
    }
}

fn sanitize_span(span: &StyledSpan) -> (r: StyledSpan)
    ensures
        span_sanitized(*span, r),
        all_allowed(r.text@),
        r.style.link_url matches Some(u) ==> url_allowed(u@),
{
    let text = match sanitize_text(span.text.as_str()) {
        Cow::Owned(clean) => clean,
        Cow::Borrowed(_) => {
            proof {
                crate::sanitize::lemma_keep_allowed_all(span.text@);
            }
            span.text.clone()
        },
    };
    let link = match &span.style.link_url {
        Some(u) => sanitize_url(u.as_str()),
        None => None,
    };
    proof {
        lemma_keep_allowed_clean(span.text@);
    }
    let mut style = span.style.dup();
    style.link_url = link;
    StyledSpan { text, style }
}

/// How a span draws once sanitized.
pub open spec fn sanitized_span(s: (Seq<char>, StyleView)) -> (Seq<char>, StyleView) {
    (keep_allowed(s.0), StyleView { link_url: kept_link(s.1.link_url), ..s.1 })
}

/// How a line draws once sanitized.
pub open spec fn sanitized_line(l: Seq<(Seq<char>, StyleView)>) -> Seq<(Seq<char>, StyleView)> {
    l.map_values(|s: (Seq<char>, StyleView)| sanitized_span(s))
}

proof fn lemma_line_sanitized_view(before: StyledLine, after: StyledLine)
    requires
        line_sanitized(before, after),
    ensures
        line_view(after) == sanitized_line(line_view(before)),
{
    assert forall|j: int| 0 <= j < after.spans@.len() implies #[trigger] line_view(after)[j] == sanitized_line(line_view(before))[j] by {
        assert(span_sanitized(before.spans@[j], after.spans@[j]));
    }
    assert(line_view(after) =~= sanitized_line(line_view(before)));
}

/// Final pass over everything headed for the terminal: strip control
/// characters from text and drop link destinations with disallowed schemes
/// or embedded controls. Untrusted markdown must not be able to emit escape
/// sequences.
pub fn sanitize_lines(lines: &mut Vec<StyledLine>)
    ensures
        final(lines)@.len() == old(lines)@.len(),
        forall|i: int| 0 <= i < old(lines)@.len() ==> line_sanitized(old(lines)@[i], #[trigger] final(lines)@[i]),
        forall|i: int| 0 <= i < final(lines)@.len() ==> line_safe(#[trigger] final(lines)@[i]),
        lines_view(final(lines)@) == lines_view(old(lines)@).map_values(
            |l: Seq<(Seq<char>, StyleView)>| sanitized_line(l),
        ),
{
    let ghost start = lines@;
    let mut out: Vec<StyledLine> = Vec::new();
    let mut i: usize = 0;
    while i < lines.len()
        invariant
            i <= lines@.len(),
            out@.len() == i,
            forall|t: int| 0 <= t < i ==> line_sanitized(lines@[t], #[trigger] out@[t]),
            forall|t: int| 0 <= t < i ==> line_safe(#[trigger] out@[t]),
        decreases lines@.len() - i,
    {
        let mut spans: Vec<StyledSpan> = Vec::new();
        let mut j: usize = 0;
        while j < lines[i].spans.len()
            invariant
                i < lines@.len(),
                j <= lines@[i as int].spans@.len(),
                spans@.len() == j,
                forall|t: int| 0 <= t < j ==> span_sanitized(lines@[i as int].spans@[t], #[trigger] spans@[t]),
                forall|t: int| 0 <= t < j ==> {
                    &&& all_allowed(#[trigger] spans@[t].text@)
                    &&& (spans@[t].style.link_url matches Some(u) ==> url_allowed(u@))
                },
            decreases lines@[i as int].spans@.len() - j,
        {
            let sp = sanitize_span(&lines[i].spans[j]);
            let ghost prev = spans@;
            spans.push(sp);
            assert forall|t: int| 0 <= t < j + 1 implies {
                &&& all_allowed(#[trigger] spans@[t].text@)
                &&& (spans@[t].style.link_url matches Some(u) ==> url_allowed(u@))
            } by {
                if t < j {
                    assert(spans@[t] == prev[t]);
                }
            }
            j = j + 1;
        }
        out.push(StyledLine { spans });
        i = i + 1;
    }
    proof {
        assert forall|t: int| 0 <= t < out@.len() implies #[trigger] lines_view(out@)[t] == lines_view(start).map_values(
            |l: Seq<(Seq<char>, StyleView)>| sanitized_line(l),
        )[t] by {
            lemma_line_sanitized_view(start[t], out@[t]);
        }
        assert(lines_view(out@) =~= lines_view(start).map_values(|l: Seq<(Seq<char>, StyleView)>| sanitized_line(l)));
    }
    *lines = out;
}


pub open spec fn https_seq() -> Seq<char> {
    seq!['h', 't', 't', 'p', 's', ':', '/', '/']
}

pub open spec fn http_seq() -> Seq<char> {
    seq!['h', 't', 't', 'p', ':', '/', '/']
}

/// Where the next bare URL starts: the first `https://`, or failing that the
/// first `http://`.
pub open spec fn url_start(s: Seq<char>) -> Option<int> {
    match find_from(s, https_seq(), 0) {
        Some(i) => Some(i),
        None => find_from(s, http_seq(), 0),
    }
}

/// A character that ends a bare URL.
pub open spec fn url_stop(c: char) -> bool {
    is_ws(c) || c == ')' || c == ']' || c == '>' || c == '"' || c == '\''
}

/// The first index from `i` on holding a URL-ending character, or `s.len()`.
pub open spec fn stop_from(s: Seq<char>, i: int) -> int
    decreases s.len() - i,
{
    if i < 0 || i >= s.len() {
        s.len() as int
    } else if url_stop(s[i]) {
        i
    } else {
        stop_from(s, i + 1)
    }
}

pub proof fn lemma_stop_from(s: Seq<char>, i: int)
    requires
        0 <= i <= s.len(),
    ensures
        i <= stop_from(s, i) <= s.len(),
    decreases s.len() - i,
{
    if i < s.len() && !url_stop(s[i]) {
        lemma_stop_from(s, i + 1);
    }
}

/// `u` without trailing `.`, `,` and `;` (sentence punctuation after a URL).
pub open spec fn trim_url_tail(u: Seq<char>) -> Seq<char>
    decreases u.len(),
{
    if u.len() > 0 && (u.last() == '.' || u.last() == ',' || u.last() == ';') {
        trim_url_tail(u.drop_last())
    } else {
        u
    }
}

/// The length of the URL at the start of `part`: up to the first
/// URL-ending character, without trailing `.,;`.
pub open spec fn url_len(part: Seq<char>) -> int {
    trim_url_tail(part.take(stop_from(part, 0))).len() as int
}

proof fn lemma_trim_url_tail(u: Seq<char>)
    ensures
        trim_url_tail(u) == u.take(trim_url_tail(u).len() as int),
        trim_url_tail(u).len() <= u.len(),
        u.len() >= 1 && u[0] != '.' && u[0] != ',' && u[0] != ';' ==> trim_url_tail(u).len() >= 1,
    decreases u.len(),
{
    if u.len() > 0 && (u.last() == '.' || u.last() == ',' || u.last() == ';') {
        lemma_trim_url_tail(u.drop_last());
        assert(u.drop_last().take(trim_url_tail(u).len() as int) =~= u.take(trim_url_tail(u).len() as int));
        if u.len() >= 2 {
            assert(u.drop_last()[0] == u[0]);
        }
    } else {
        assert(u.take(u.len() as int) =~= u);
    }
}

pub proof fn lemma_url_step(s: Seq<char>, start: int)
    requires
        url_start(s) == Some(start),
    ensures
        0 <= start,
        start + stop_from(s.subrange(start, s.len() as int), 0) <= s.len(),
        start + stop_from(s.subrange(start, s.len() as int), 0) > 0,
        1 <= stop_from(s.subrange(start, s.len() as int), 0),
        start < s.len(),
        1 <= url_len(s.subrange(start, s.len() as int)) <= stop_from(s.subrange(start, s.len() as int), 0),
{
    lemma_find_from(s, https_seq(), 0);
    lemma_find_from(s, http_seq(), 0);
    let part = s.subrange(start, s.len() as int);
    let pat = if find_from(s, https_seq(), 0) is Some {
        https_seq()
    } else {
        http_seq()
    };
    assert(s.subrange(start, start + pat.len())[0] == pat[0]);
    assert(part[0] == 'h');
    lemma_stop_from(part, 1);
    let u = part.take(stop_from(part, 0));
    lemma_trim_url_tail(u);
    assert(u[0] == 'h');
}

/// The pieces `split_text_with_urls` cuts `s` into, in order: each is its
/// text and whether it is a link. Text before a URL is plain; the URL runs
/// to the first URL-ending character, with trailing `.,;` left to the text
/// after it.
pub open spec fn url_pieces(s: Seq<char>) -> Seq<(Seq<char>, bool)>
    decreases s.len(),
{
    if s.len() == 0 {
        seq![]
    } else {
        match url_start(s) {
            None => seq![(s, false)],
            Some(start) => {
                let part = s.subrange(start, s.len() as int);
                let end = stop_from(part, 0);
                proof {
                    lemma_url_step(s, start);
                }
                (if start > 0 {
                    seq![(s.take(start), false)]
                } else {
                    seq![]
                }) + seq![(trim_url_tail(part.take(end)), true)] + url_pieces(
                    s.subrange(start + url_len(part), s.len() as int),
                )
            },
        }
    }
}

/// How a piece draws: plain text in the parent's style; a link in the
/// parent's style made `link`-colored and underlined, pointing at its own
/// text.
pub open spec fn piece_view(piece: (Seq<char>, bool), parent: StyleView, link: Seq<char>) -> (Seq<char>, StyleView) {
    if !piece.1 {
        (piece.0, parent)
    } else {
        (piece.0, StyleView { fg: Some(link), underline: true, link_url: Some(piece.0), ..parent })
    }
}

/// `sp` renders `piece` under `parent`.
pub open spec fn renders_piece(sp: StyledSpan, piece: (Seq<char>, bool), parent: SpanStyle, link: Seq<char>) -> bool {
    span_view(sp) == piece_view(piece, style_view(parent), link)
}

/// The pieces the first step over `s` cuts off: the text up to the first
/// URL and the URL, or all of `s` when there is no URL.
pub open spec fn url_head(s: Seq<char>) -> Seq<(Seq<char>, bool)> {
    match url_start(s) {
        None => seq![(s, false)],
        Some(start) => {
            let part = s.subrange(start, s.len() as int);
            (if start > 0 {
                seq![(s.take(start), false)]
            } else {
                seq![]
            }) + seq![(trim_url_tail(part.take(stop_from(part, 0))), true)]
        },
    }
}

/// What is left of `s` after the first step.
pub open spec fn url_rest(s: Seq<char>) -> Seq<char> {
    match url_start(s) {
        None => seq![],
        Some(start) => s.subrange(start + url_len(s.subrange(start, s.len() as int)), s.len() as int),
    }
}

proof fn lemma_url_pieces_unfold(s: Seq<char>)
    requires
        s.len() > 0,
    ensures
        url_pieces(s) == url_head(s) + url_pieces(url_rest(s)),
{
    if url_start(s) is None {
        assert(url_pieces(url_rest(s)) =~= Seq::<(Seq<char>, bool)>::empty());
        assert(url_head(s) + Seq::<(Seq<char>, bool)>::empty() =~= url_head(s));
    }
}

/// `spans[from..]` renders `pieces`, one span per piece.
pub open spec fn renders_all(
    spans: Seq<StyledSpan>,
    from: int,
    pieces: Seq<(Seq<char>, bool)>,
    parent: SpanStyle,
    link: Seq<char>,
) -> bool {
    &&& spans.len() == from + pieces.len()
    &&& forall|k: int| 0 <= k < pieces.len() ==> renders_piece(#[trigger] spans[from + k], pieces[k], parent, link)
}


/// Append the link span for the URL starting at `v[j]` and return where the
/// URL ends (its first URL-ending character, or the end of `v`).
fn push_url(v: &Vec<char>, j: usize, parent: &SpanStyle, link_color: &str, spans: &mut Vec<StyledSpan>) -> (t: usize)
    requires
        j < v@.len(),
    ensures
        t == j + url_len(v@.subrange(j as int, v@.len() as int)),
        j <= t <= v@.len(),
        final(spans)@.len() == old(spans)@.len() + 1,
        final(spans)@.subrange(0, old(spans)@.len() as int) == old(spans)@,
        renders_piece(
            final(spans)@[old(spans)@.len() as int],
            (v@.subrange(j as int, t as int), true),
            *parent,
            link_color@,
        ),
        v@.subrange(j as int, t as int) == trim_url_tail(
            v@.subrange(j as int, v@.len() as int).take(stop_from(v@.subrange(j as int, v@.len() as int), 0)),
        ),
{
    let n = v.len();
    let mut e = j;
    while e < n && !url_end_char(v[e])
        invariant
            j <= e <= n,
            n == v@.len(),
            stop_from(v@.subrange(j as int, n as int), 0) == stop_from(v@.subrange(j as int, n as int), e - j),
        decreases n - e,
    {
        e = e + 1;
    }
    proof {
        assert(stop_from(v@.subrange(j as int, n as int), e - j) == e - j);
    }
    let mut t = e;
    while t > j && (v[t - 1] == '.' || v[t - 1] == ',' || v[t - 1] == ';')
        invariant
            j <= t <= e <= n,
            n == v@.len(),
            trim_url_tail(v@.subrange(j as int, e as int)) == trim_url_tail(v@.subrange(j as int, t as int)),
        decreases t,
    {
        proof {
            assert(v@.subrange(j as int, t as int).drop_last() =~= v@.subrange(j as int, t - 1));
        }
        t = t - 1;
    }
    proof {
        assert(trim_url_tail(v@.subrange(j as int, t as int)) == v@.subrange(j as int, t as int));
        assert(v@.subrange(j as int, n as int).take(e - j) =~= v@.subrange(j as int, e as int));
    }
    let url = crate::text::string_from(v, j, t);
    let url2 = crate::text::string_from(v, j, t);
    let mut style = parent.dup();
    let lc = crate::text::chars_of(link_color);
    let color = crate::text::string_from(&lc, 0, lc.len());
    proof {
        assert(lc@.subrange(0, lc@.len() as int) =~= link_color@);
    }
    style.fg = Some(color);
    style.underline = true;
    style.link_url = Some(url2);
    let ghost s0 = spans@;
    spans.push(StyledSpan { text: url, style });
    proof {
        assert(spans@.subrange(0, s0.len() as int) =~= s0);
    }
    t
}

/// Cut the next pieces off `v[pos..]` and append their spans.
fn url_step(
    v: &Vec<char>,
    pos: usize,
    https: &Vec<char>,
    http: &Vec<char>,
    parent: &SpanStyle,
    link_color: &str,
    spans: &mut Vec<StyledSpan>,
) -> (next: usize)
    requires
        pos < v@.len(),
        https@ == https_seq(),
        http@ == http_seq(),
    ensures
        pos < next <= v@.len(),
        v@.subrange(next as int, v@.len() as int) == url_rest(v@.subrange(pos as int, v@.len() as int)),
        final(spans)@.subrange(0, old(spans)@.len() as int) == old(spans)@,
        renders_all(
            final(spans)@,
            old(spans)@.len() as int,
            url_head(v@.subrange(pos as int, v@.len() as int)),
            *parent,
            link_color@,
        ),
{
    let n = v.len();
    let ghost rem = v@.subrange(pos as int, n as int);
    let ghost s0 = spans@;
    let found = match find_at(v, pos, https) {
        Some(j) => Some(j),
        None => find_at(v, pos, http),
    };
    match found {
        None => {
            let piece = crate::text::string_from(v, pos, n);
            spans.push(StyledSpan { text: piece, style: parent.dup() });
            proof {
                assert(spans@.subrange(0, s0.len() as int) =~= s0);
                assert(url_head(rem) =~= seq![(rem, false)]);
                assert(url_rest(rem) =~= v@.subrange(n as int, n as int));
                assert(renders_piece(spans@[s0.len() as int], url_head(rem)[0], *parent, link_color@));
            }
            n
        },
        Some(j) => {
            let ghost start = j - pos;
            proof {
                assert(url_start(rem) == Some(start));
                lemma_url_step(rem, start);
            }
            let ghost mut got: Seq<(Seq<char>, bool)> = seq![];
            if j > pos {
                let before = crate::text::string_from(v, pos, j);
                spans.push(StyledSpan { text: before, style: parent.dup() });
                proof {
                    assert(rem.take(start) =~= v@.subrange(pos as int, j as int));
                    got = seq![(rem.take(start), false)];
                    assert(renders_piece(spans@[s0.len() as int], got[0], *parent, link_color@));
                }
            }
            let ghost s1 = spans@;
            let e = push_url(v, j, parent, link_color, spans);
            let ghost part = v@.subrange(j as int, n as int);
            proof {
                assert(part =~= rem.subrange(start, rem.len() as int));
            }
            proof {
                let upiece = (trim_url_tail(part.take(stop_from(part, 0))), true);
                assert(url_head(rem) =~= got + seq![upiece]);
                assert(renders_piece(spans@[s1.len() as int], upiece, *parent, link_color@));
                assert(spans@.subrange(0, s0.len() as int) =~= s0);
                assert forall|k: int| 0 <= k < url_head(rem).len() implies renders_piece(
                    #[trigger] spans@[s0.len() + k],
                    url_head(rem)[k],
                    *parent,
                    link_color@,
                ) by {
                    if k < got.len() {
                        assert(spans@[s0.len() + k] == s1[s0.len() + k]);
                    }
                }
                assert(rem.subrange(start + (e - j), rem.len() as int) =~= v@.subrange(e as int, n as int));
            }
            e
        },
    }
}

/// Split text into plain and URL spans, appended to `spans`. Bare URLs
/// become clickable hyperlinks in `link_color`, underlined.
pub fn split_text_with_urls(text: &str, parent: &SpanStyle, link_color: &str, spans: &mut Vec<StyledSpan>)
    ensures
        final(spans)@.subrange(0, old(spans)@.len() as int) == old(spans)@,
        renders_all(final(spans)@, old(spans)@.len() as int, url_pieces(text@), *parent, link_color@),
{
    let v = crate::text::chars_of(text);
    let n = v.len();
    let https = crate::text::chars_of("https://");
    let http = crate::text::chars_of("http://");
    proof {
        reveal_strlit("https://");
        reveal_strlit("http://");
        assert(https@ =~= https_seq());
        assert(http@ =~= http_seq());
    }
    let ghost s0 = spans@;
    let ghost all = url_pieces(v@);
    let mut pos: usize = 0;
    let ghost mut done: Seq<(Seq<char>, bool)> = seq![];
    proof {
        assert(v@.subrange(0, n as int) =~= v@);
        assert(done + url_pieces(v@.subrange(0, n as int)) =~= all);
        assert(spans@.subrange(0, s0.len() as int) =~= s0);
    }
    while pos < n
        invariant
            n == v@.len(),
            v@ == text@,
            pos <= n,
            https@ == https_seq(),
            http@ == http_seq(),
            all == url_pieces(v@),
            done + url_pieces(v@.subrange(pos as int, n as int)) == all,
            spans@.subrange(0, s0.len() as int) == s0,
            renders_all(spans@, s0.len() as int, done, *parent, link_color@),
        decreases n - pos,
    {
        let ghost rem = v@.subrange(pos as int, n as int);
        let ghost before = spans@;
        proof {
            lemma_url_pieces_unfold(rem);
        }
        let next = url_step(&v, pos, &https, &http, parent, link_color, spans);
        proof {
            let head = url_head(rem);
            assert(done + head + url_pieces(v@.subrange(next as int, n as int)) =~= all);
            assert(spans@.subrange(0, s0.len() as int) =~= before.subrange(0, s0.len() as int));
            assert forall|k: int| 0 <= k < (done + head).len() implies renders_piece(
                #[trigger] spans@[s0.len() + k],
                (done + head)[k],
                *parent,
                link_color@,
            ) by {
                if k < done.len() {
                    assert(spans@[s0.len() + k] == spans@.subrange(0, before.len() as int)[s0.len() + k]);
                } else {
                    assert(spans@[s0.len() + k] == spans@[before.len() + (k - done.len())]);
                }
            }
            done = done + head;
        }
        pos = next;
    }
    proof {
        assert(v@.subrange(n as int, n as int) =~= Seq::<char>::empty());
        assert(done =~= all);
    }
}

fn url_end_char(c: char) -> (b: bool)
    ensures
        b == url_stop(c),
{
    crate::text::is_whitespace(c) || c == ')' || c == ']' || c == '>' || c == '"' || c == '\''
}
} // verus!
