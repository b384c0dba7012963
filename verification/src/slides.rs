//! Presentation mode: split a markdown document into slides on top-level
//! horizontal rules (`---`), ignoring `---` inside a fenced code block or
//! directly under text (a setext heading underline).
use crate::text::{
    chars_of, is_whitespace, is_ws, join_lines, leading_run, leading_run_at, lines_of, split_lines,
    string_from, trim, trim_end, trim_end_at, trim_start, trim_start_at,
};
use vstd::prelude::*;

verus! {

/// Number of leading spaces (U+0020 only) of `line`.
pub open spec fn space_indent(line: Seq<char>) -> nat {
    leading_run(line, ' ')
}

/// Whether every character of `t` is `c`.
pub open spec fn all_eq(t: Seq<char>, c: char) -> bool {
    forall|k: int| 0 <= k < t.len() ==> t[k] == c
}

/// A thematic break used as a slide separator: at least three `-`, `*` or
/// `_` and nothing else but surrounding whitespace, indented by fewer than
/// four spaces; a dash line counts only after a blank (or absent) line.
pub open spec fn is_break(line: Seq<char>, prev_blank: bool) -> bool {
    let t = trim(line);
    if space_indent(line) >= 4 || t.len() < 3 {
        false
    } else if all_eq(t, '-') {
        prev_blank
    } else {
        all_eq(t, '*') || all_eq(t, '_')
    }
}

/// Slide texts before clean-up: scanning `ls` from `i` with the finished
/// slides `done`, the lines `cur` of the slide in progress, the open code
/// fence marker and whether the previous line was blank.
pub open spec fn raw_slides(
    ls: Seq<Seq<char>>,
    i: int,
    done: Seq<Seq<char>>,
    cur: Seq<Seq<char>>,
    fence: Option<char>,
    prev_blank: bool,
) -> Seq<Seq<char>>
    decreases ls.len() - i,
{
    if i < 0 || i >= ls.len() {
        done.push(join_lines(cur))
    } else {
        let line = ls[i];
        let ts = trim_start(line);
        let blank = trim(line).len() == 0;
        match fence {
            Some(f) => {
                let closes = leading_run(ts, f) >= 3;
                raw_slides(ls, i + 1, done, cur.push(line), if closes { None } else { fence }, blank)
            },
            None => {
                if leading_run(ts, '`') >= 3 || leading_run(ts, '~') >= 3 {
                    raw_slides(ls, i + 1, done, cur.push(line), Some(ts[0]), false)
                } else if is_break(line, prev_blank) {
                    raw_slides(ls, i + 1, done.push(join_lines(cur)), seq![], None, blank)
                } else {
                    raw_slides(ls, i + 1, done, cur.push(line), None, blank)
                }
            },
        }
    }
}

/// `s` without leading and trailing `\n` (`trim_matches('\n')`).
pub open spec fn trim_newlines(s: Seq<char>) -> Seq<char>
    decreases s.len(),
{
    if s.len() > 0 && s[0] == '\n' {
        trim_newlines(s.drop_first())
    } else if s.len() > 0 && s.last() == '\n' {
        trim_newlines(s.drop_last())
    } else {
        s
    }
}

/// The cleaned-up slides: each trimmed of surrounding newlines, blank ones
/// dropped.
pub open spec fn kept_slides(raw: Seq<Seq<char>>) -> Seq<Seq<char>>
    decreases raw.len(),
{
    if raw.len() == 0 {
        seq![]
    } else {
        let s = trim_newlines(raw.last());
        let rest = kept_slides(raw.drop_last());
        if trim(s).len() == 0 {
            rest
        } else {
            rest.push(s)
        }
    }
}

/// The slides of `source`: the kept slides, or a single empty slide when
/// none is left.
pub open spec fn slides_of(source: Seq<char>) -> Seq<Seq<char>> {
    let kept = kept_slides(raw_slides(lines_of(source), 0, seq![], seq![], None, true));
    if kept.len() == 0 {
        seq![seq![]]
    } else {
        kept
    }
}

/// `trim_newlines` leaves no newline at either end.
proof fn lemma_trim_newlines(s: Seq<char>)
    ensures
        trim_newlines(s).len() > 0 ==> trim_newlines(s)[0] != '\n' && trim_newlines(s).last() != '\n',
    decreases s.len(),
{
    if s.len() > 0 && s[0] == '\n' {
        lemma_trim_newlines(s.drop_first());
    } else if s.len() > 0 && s.last() == '\n' {
        lemma_trim_newlines(s.drop_last());
    }
}

/// Every kept slide has text besides whitespace and no newline at either end.
proof fn lemma_kept_slides(raw: Seq<Seq<char>>)
    ensures
        forall|k: int|
            0 <= k < kept_slides(raw).len() ==> trim(#[trigger] kept_slides(raw)[k]).len() > 0 && kept_slides(
                raw,
            )[k][0] != '\n' && kept_slides(raw)[k].last() != '\n',
    decreases raw.len(),
{
    if raw.len() > 0 {
        lemma_kept_slides(raw.drop_last());
        let s = trim_newlines(raw.last());
        lemma_trim_newlines(raw.last());
        let rest = kept_slides(raw.drop_last());
        if trim(s).len() != 0 {
            assert(s.len() > 0) by {
                if s.len() == 0 {
                    assert(trim_start(s) == s);
                    assert(trim_end(s) == s);
                }
            }
            assert(kept_slides(raw) == rest.push(s));
            assert forall|k: int| 0 <= k < kept_slides(raw).len() implies trim(#[trigger] kept_slides(raw)[k]).len()
                > 0 && kept_slides(raw)[k][0] != '\n' && kept_slides(raw)[k].last() != '\n' by {
                if k < rest.len() {
                    assert(kept_slides(raw)[k] == rest[k]);
                }
            }
        } else {
            assert(kept_slides(raw) == rest);
        }
    }
}

/// However the source looks, there is at least one slide; either the only
/// slide is empty, or every slide holds text besides whitespace; and no
/// slide begins or ends with a newline.
pub proof fn law_slides_are_clean(source: Seq<char>)
    ensures
        slides_of(source).len() >= 1,
        slides_of(source) == seq![Seq::<char>::empty()] || forall|k: int|
            0 <= k < slides_of(source).len() ==> trim(#[trigger] slides_of(source)[k]).len() > 0,
        forall|k: int|
            0 <= k < slides_of(source).len() && (#[trigger] slides_of(source)[k]).len() > 0 ==> slides_of(
                source,
            )[k][0] != '\n' && slides_of(source)[k].last() != '\n',
{
    let raw = raw_slides(lines_of(source), 0, seq![], seq![], None, true);
    lemma_kept_slides(raw);
}

proof fn lemma_trim_start_head(s: Seq<char>)
    ensures
        trim_start(s).len() > 0 ==> !is_ws(trim_start(s)[0]),
    decreases s.len(),
{
    if s.len() > 0 && is_ws(s[0]) {
        lemma_trim_start_head(s.drop_first());
    }
}

proof fn lemma_trim_end_prefix(t: Seq<char>)
    ensures
        trim_end(t).len() <= t.len(),
        trim_end(t) == t.take(trim_end(t).len() as int),
        t.len() > 0 && !is_ws(t[0]) ==> trim_end(t).len() > 0,
    decreases t.len(),
{
    if t.len() > 0 && is_ws(t.last()) {
        lemma_trim_end_prefix(t.drop_last());
        assert(t.drop_last().take(trim_end(t).len() as int) =~= t.take(trim_end(t).len() as int));
        if !is_ws(t[0]) {
            assert(t.len() >= 2);
            assert(t.drop_last()[0] == t[0]);
        }
    } else {
        assert(t.take(t.len() as int) =~= t);
    }
}

/// The trimmed line starts where the line without its leading whitespace
/// does, and is empty only when that is.
proof fn lemma_trim_head(s: Seq<char>)
    ensures
        trim(s).len() == 0 <==> trim_start(s).len() == 0,
        trim(s).len() > 0 ==> trim(s)[0] == trim_start(s)[0],
{
    lemma_trim_start_head(s);
    lemma_trim_end_prefix(trim_start(s));
    if trim(s).len() > 0 {
        assert(trim(s)[0] == trim_start(s).take(trim(s).len() as int)[0]);
    }
}

/// Inside a fence opened with `f`, every line up to and including the first
/// one that starts with three `f` joins the slide in progress, and the
/// fence is closed after it.
proof fn lemma_fence_runs_to_close(
    ls: Seq<Seq<char>>,
    k: int,
    j: int,
    f: char,
    done: Seq<Seq<char>>,
    cur: Seq<Seq<char>>,
    b: bool,
)
    requires
        0 <= k <= j < ls.len(),
        forall|m: int| k <= m < j ==> leading_run(trim_start(#[trigger] ls[m]), f) < 3,
        leading_run(trim_start(ls[j]), f) >= 3,
    ensures
        raw_slides(ls, k, done, cur, Some(f), b) == raw_slides(
            ls,
            j + 1,
            done,
            cur + ls.subrange(k, j + 1),
            None,
            trim(ls[j]).len() == 0,
        ),
    decreases j - k,
{
    if k == j {
        assert(cur.push(ls[j]) =~= cur + ls.subrange(k, j + 1));
    } else {
        assert(leading_run(trim_start(ls[k]), f) < 3);
        lemma_fence_runs_to_close(ls, k + 1, j, f, done, cur.push(ls[k]), trim(ls[k]).len() == 0);
        assert(cur.push(ls[k]) + ls.subrange(k + 1, j + 1) =~= cur + ls.subrange(k, j + 1));
    }
}

/// A code fence closes: after a fenced block (a line starting with three or
/// more backticks or tildes, then lines that do not, then one that starts
/// with three or more of the same marker), a blank line and a thematic break
/// start a new slide. The block, its closing fence and the blank line end
/// the slide in progress, and scanning goes on outside any fence.
pub proof fn law_closed_fence_then_break(
    ls: Seq<Seq<char>>,
    i: int,
    j: int,
    f: char,
    done: Seq<Seq<char>>,
    cur: Seq<Seq<char>>,
    prev_blank: bool,
)
    requires
        0 <= i < j,
        j + 2 < ls.len(),
        f == '`' || f == '~',
        leading_run(trim_start(ls[i]), f) >= 3,
        forall|m: int| i < m < j ==> leading_run(trim_start(#[trigger] ls[m]), f) < 3,
        leading_run(trim_start(ls[j]), f) >= 3,
        trim(ls[j + 1]).len() == 0,
        is_break(ls[j + 2], true),
    ensures
        raw_slides(ls, i, done, cur, None, prev_blank) == raw_slides(
            ls,
            j + 3,
            done.push(join_lines(cur + ls.subrange(i, j + 2))),
            seq![],
            None,
            false,
        ),
{
    let ts = trim_start(ls[i]);
    assert(ts.len() > 0 && ts[0] == f);
    lemma_fence_runs_to_close(ls, i + 1, j, f, done, cur.push(ls[i]), false);
    let c1 = cur.push(ls[i]) + ls.subrange(i + 1, j + 1);
    let bj = trim(ls[j]).len() == 0;
    lemma_trim_head(ls[j + 1]);
    assert(trim_start(ls[j + 1]).len() == 0);
    assert(leading_run(trim_start(ls[j + 1]), '`') == 0);
    assert(leading_run(trim_start(ls[j + 1]), '~') == 0);
    assert(!is_break(ls[j + 1], bj));
    assert(raw_slides(ls, j + 1, done, c1, None, bj) == raw_slides(ls, j + 2, done, c1.push(ls[j + 1]), None, true));
    let t = trim(ls[j + 2]);
    lemma_trim_head(ls[j + 2]);
    assert(t.len() >= 3);
    assert(t[0] == '-' || t[0] == '*' || t[0] == '_');
    assert(trim_start(ls[j + 2])[0] == t[0]);
    assert(leading_run(trim_start(ls[j + 2]), '`') == 0);
    assert(leading_run(trim_start(ls[j + 2]), '~') == 0);
    assert(c1.push(ls[j + 1]) =~= cur + ls.subrange(i, j + 2));
}

/// Split `source` into slide sources. A slide break is a line that is `---`
/// (or `***` / `___`, the other thematic-break markers) indented by fewer
/// than four spaces and outside any code fence; a `---` directly under text
/// is a setext underline, not a break. Always returns at least one slide.
pub fn split_slides(source: &str) -> (res: Vec<String>)
    ensures
        res@.map_values(|s: String| s@) == slides_of(source@),
        res@.len() >= 1,
{
    let v = chars_of(source);
    let lines = split_lines(&v);
    let ghost ls = lines@.map_values(|l: Vec<char>| l@);
    let mut done: Vec<Vec<char>> = Vec::new();
    let mut cur: Vec<char> = Vec::new();
    let ghost mut cur_lines: Seq<Seq<char>> = seq![];
    let mut fence: Option<char> = None;
    let mut prev_blank = true;
    let mut started = false;
    let mut i: usize = 0;
    assert(done@.map_values(|d: Vec<char>| d@) =~= Seq::<Seq<char>>::empty());
    while i < lines.len()
        invariant
            i <= lines@.len(),
            ls == lines@.map_values(|l: Vec<char>| l@),
            ls == lines_of(v@),
            cur@ == join_lines(cur_lines),
            started == (cur_lines.len() > 0),
            raw_slides(ls, 0, seq![], seq![], None, true) == raw_slides(
                ls,
                i as int,
                done@.map_values(|d: Vec<char>| d@),
                cur_lines,
                fence,
                prev_blank,
            ),
        decreases lines@.len() - i,
    {
        let line = &lines[i];
        assert(line@ == ls[i as int]);
        let n = line.len();
        let ts0 = trim_start_at(line, 0, n);
        let t1 = trim_end_at(line, ts0, n);
        assert(line@.subrange(0, n as int) == line@);
        assert(trim_start(line@) == line@.subrange(ts0 as int, n as int));
        let blank = ts0 == t1;
        match fence {
            Some(f) => {
                if leading_run_at(line, ts0, n, f) >= 3 {
                    fence = None;
                }
                push_line(&mut cur, started, line, Ghost(cur_lines));
                started = true;
                proof {
                    cur_lines = cur_lines.push(line@);
                }
                prev_blank = blank;
            },
            None => {
                let ticks = leading_run_at(line, ts0, n, '`');
                let tildes = leading_run_at(line, ts0, n, '~');
                if ticks >= 3 || tildes >= 3 {
                    fence = Some(line[ts0]);
                    push_line(&mut cur, started, line, Ghost(cur_lines));
                started = true;
                    proof {
                        cur_lines = cur_lines.push(line@);
                    }
                    prev_blank = false;
                } else if break_line(line, prev_blank) {
                    let ghost before = done@.map_values(|d: Vec<char>| d@);
                    done.push(cur);
                    assert(done@.map_values(|d: Vec<char>| d@) == before.push(join_lines(cur_lines)));
                    cur = Vec::new();
                    started = false;
                    proof {
                        cur_lines = seq![];
                    }
                    prev_blank = blank;
                } else {
                    push_line(&mut cur, started, line, Ghost(cur_lines));
                started = true;
                    proof {
                        cur_lines = cur_lines.push(line@);
                    }
                    prev_blank = blank;
                }
            },
        }
        i = i + 1;
    }
    let ghost before = done@.map_values(|d: Vec<char>| d@);
    done.push(cur);
    assert(done@.map_values(|d: Vec<char>| d@) == before.push(join_lines(cur_lines)));
    let ghost raw = done@.map_values(|d: Vec<char>| d@);
    let mut result: Vec<String> = Vec::new();
    let mut k: usize = 0;
    while k < done.len()
        invariant
            k <= done@.len(),
            raw == done@.map_values(|d: Vec<char>| d@),
            result@.map_values(|s: String| s@) == kept_slides(raw.take(k as int)),
        decreases done@.len() - k,
    {
        let d = &done[k];
        let (lo, hi) = trim_newlines_at(d);
        let b0 = trim_start_at(d, lo, hi);
        let b1 = trim_end_at(d, b0, hi);
        assert(raw.take(k + 1).drop_last() == raw.take(k as int));
        assert(raw.take(k + 1).last() == d@);
        if b0 < b1 {
            let ghost before = result@.map_values(|s: String| s@);
            let s = string_from(d, lo, hi);
            result.push(s);
            assert(result@.map_values(|s: String| s@) == before.push(s@));
        }
        k = k + 1;
    }
    assert(raw.take(done@.len() as int) == raw);
    if result.len() == 0 {
        let ghost before = result@.map_values(|s: String| s@);
        result.push(String::new());
        assert(result@.map_values(|s: String| s@) == before.push(Seq::<char>::empty()));
        assert(result@.map_values(|s: String| s@) =~= seq![Seq::<char>::empty()]);
    }
    result
}

/// Appends one more line to the joined text of the slide in progress.
fn push_line(
    cur: &mut Vec<char>,
    started: bool,
    line: &Vec<char>,
    Ghost(lines): Ghost<Seq<Seq<char>>>,
)
    requires
        old(cur)@ == join_lines(lines),
        started == (lines.len() > 0),
    ensures
        final(cur)@ == join_lines(lines.push(line@)),
{
    let ghost c0 = cur@;
    if started {
        cur.push('\n');
    }
    let mut j: usize = 0;
    while j < line.len()
        invariant
            j <= line@.len(),
            cur@ == (if lines.len() > 0 { c0 + seq!['\n'] } else { c0 }) + line@.take(j as int),
        decreases line@.len() - j,
    {
        cur.push(line[j]);
        assert(line@.take(j + 1) == line@.take(j as int).push(line@[j as int]));
        j = j + 1;
    }
    assert(line@.take(line@.len() as int) == line@);
    assert(lines.push(line@).drop_last() == lines);
    if !started {
        assert(c0 == Seq::<char>::empty());
        assert(cur@ =~= line@);
    }
}

/// Whether `line` is a slide break given the previous line's blankness.
fn break_line(line: &Vec<char>, prev_blank: bool) -> (b: bool)
    ensures
        b == is_break(line@, prev_blank),
{
    let n = line.len();
    let indent = leading_run_at(line, 0, n, ' ');
    assert(line@.subrange(0, n as int) == line@);
    if indent >= 4 {
        return false;
    }
    let b0 = trim_start_at(line, 0, n);
    let b1 = trim_end_at(line, b0, n);
    if b1 - b0 < 3 {
        return false;
    }
    if crate::text::all_same(line, b0, b1, '-') {
        return prev_blank;
    }
    crate::text::all_same(line, b0, b1, '*') || crate::text::all_same(line, b0, b1, '_')
}

/// The range of `d` left after trimming surrounding `\n`.
fn trim_newlines_at(d: &Vec<char>) -> (r: (usize, usize))
    ensures
        r.0 <= r.1 <= d@.len(),
        d@.subrange(r.0 as int, r.1 as int) == trim_newlines(d@),
{
    let mut lo: usize = 0;
    let mut hi: usize = d.len();
    assert(d@.subrange(0, hi as int) == d@);
    while lo < hi && d[lo] == '\n'
        invariant
            lo <= hi == d@.len(),
            trim_newlines(d@) == trim_newlines(d@.subrange(lo as int, hi as int)),
        decreases hi - lo,
    {
        assert(d@.subrange(lo as int, hi as int).drop_first() == d@.subrange(lo + 1, hi as int));
        lo = lo + 1;
    }
    while lo < hi && d[hi - 1] == '\n'
        invariant
            lo <= hi <= d@.len(),
            lo < hi ==> d@[lo as int] != '\n',
            trim_newlines(d@) == trim_newlines(d@.subrange(lo as int, hi as int)),
        decreases hi - lo,
    {
        assert(d@.subrange(lo as int, hi as int).drop_last() == d@.subrange(lo as int, hi - 1));
        hi = hi - 1;
    }
    (lo, hi)
}

} // verus!
