//! Wikilinks (`[[target]]`, `[[target|display]]`) rewritten as markdown links.
use crate::text::{
    all_same, chars_of, first_index, first_index_at, leading_run, leading_run_at, lemma_line_len_bound, line_end, line_len,
    push_char, push_range, range_contains, sub_vec, trim, trim_end, trim_end_at, trim_start,
    trim_start_at,
};
use vstd::prelude::*;

verus! {

/// Number of backticks in the run starting at `i`.
pub open spec fn backtick_run(l: Seq<char>, i: int) -> nat
    decreases l.len() - i,
{
    if 0 <= i < l.len() && l[i] == '`' {
        1 + backtick_run(l, i + 1)
    } else {
        0
    }
}

/// Start of the first backtick run of exactly `n` backticks, scanning run by
/// run from `j`.
pub open spec fn closing_run(l: Seq<char>, j: int, n: nat) -> Option<int>
    decreases l.len() - j,
{
    if j < 0 || j >= l.len() {
        None
    } else if l[j] == '`' {
        let r = backtick_run(l, j);
        if r == n {
            Some(j)
        } else {
            proof {
                lemma_backtick_run(l, j);
            }
            closing_run(l, j + r, n)
        }
    } else {
        closing_run(l, j + 1, n)
    }
}

/// Position of the first `]]` at or after `j`.
pub open spec fn close_brackets(l: Seq<char>, j: int) -> Option<int>
    decreases l.len() - j,
{
    if j < 0 || j + 1 >= l.len() {
        None
    } else if l[j] == ']' && l[j + 1] == ']' {
        Some(j)
    } else {
        close_brackets(l, j + 1)
    }
}

/// A wikilink target as a file path: trimmed, with `.md` added unless it
/// already has an extension (contains a `.`).
pub open spec fn normalize_target(target: Seq<char>) -> Seq<char> {
    let t = trim(target);
    if t.contains('.') {
        t
    } else {
        t + ".md"@
    }
}

/// The markdown link for the inside of `[[…]]`.
pub open spec fn link_for(inner: Seq<char>) -> Seq<char> {
    let p = first_index(inner, '|');
    if p < inner.len() {
        "["@ + inner.skip((p + 1) as int) + "]("@ + normalize_target(inner.take(p as int)) + ")"@
    } else {
        "["@ + inner + "]("@ + normalize_target(inner) + ")"@
    }
}

/// Whether a wikilink opens at `i`: `[[`, a later `]]`, and non-empty inner
/// text without a newline.
pub open spec fn wikilink_at(l: Seq<char>, i: int) -> bool {
    &&& 0 <= i
    &&& i + 1 < l.len()
    &&& l[i] == '['
    &&& l[i + 1] == '['
    &&& close_brackets(l, i + 2) is Some
    &&& close_brackets(l, i + 2)->0 > i + 2
    &&& !l.subrange(i + 2, close_brackets(l, i + 2)->0).contains('\n')
}

/// The line `l` from index `i` with its wikilinks converted, inline code
/// spans (a run of N backticks up to the next run of exactly N) left as they
/// are.
pub open spec fn convert_line(l: Seq<char>, i: int) -> Seq<char>
    decreases l.len() - i,
{
    if i < 0 || i >= l.len() {
        seq![]
    } else if l[i] == '`' {
        let r = backtick_run(l, i);
        proof {
            lemma_backtick_run(l, i);
            lemma_closing_run(l, i + r, r);
        }
        match closing_run(l, i + r, r) {
            Some(c) => l.subrange(i, c + r) + convert_line(l, c + r),
            None => l.subrange(i, i + r) + convert_line(l, i + r),
        }
    } else if wikilink_at(l, i) {
        let c = close_brackets(l, i + 2)->0;
        proof {
            lemma_close_brackets(l, i + 2);
        }
        link_for(l.subrange(i + 2, c)) + convert_line(l, c + 2)
    } else {
        seq![l[i]] + convert_line(l, i + 1)
    }
}

/// The text of `s` from line start `pos` with wikilinks converted outside
/// code. `fence` is the open fence (marker, run length); a fence closes only
/// on a line made of at least that many of the same marker and nothing else.
pub open spec fn convert_from(s: Seq<char>, pos: int, fence: Option<(char, nat)>) -> Seq<char>
    decreases s.len() - pos,
{
    if pos < 0 || pos >= s.len() {
        seq![]
    } else {
        let e = pos + line_len(s.skip(pos));
        let line = s.subrange(pos, e);
        let t = trim(line);
        proof {
            lemma_line_len_bound(s.skip(pos));
        }
        match fence {
            Some((ch, n)) => {
                let closes = leading_run(t, ch) >= n && (forall|k: int|
                    0 <= k < t.len() ==> t[k] == ch);
                line + convert_from(s, e, if closes { None } else { fence })
            },
            None => {
                if t.len() > 0 && (t[0] == '`' || t[0] == '~') && leading_run(t, t[0]) >= 3 {
                    line + convert_from(s, e, Some((t[0], leading_run(t, t[0]))))
                } else {
                    convert_line(line, 0) + convert_from(s, e, None)
                }
            },
        }
    }
}

pub proof fn lemma_backtick_run(l: Seq<char>, i: int)
    ensures
        0 <= i < l.len() && l[i] == '`' ==> backtick_run(l, i) >= 1,
        i >= 0 ==> i + backtick_run(l, i) <= l.len() || backtick_run(l, i) == 0,
        forall|k: int| i <= k < i + backtick_run(l, i) ==> l[k] == '`',
    decreases l.len() - i,
{
    if 0 <= i < l.len() && l[i] == '`' {
        lemma_backtick_run(l, i + 1);
    }
}

pub proof fn lemma_closing_run(l: Seq<char>, j: int, n: nat)
    ensures
        closing_run(l, j, n) matches Some(c) ==> j <= c && c + n <= l.len() && backtick_run(l, c)
            == n,
    decreases l.len() - j,
{
    if j < 0 || j >= l.len() {
    } else if l[j] == '`' {
        let r = backtick_run(l, j);
        lemma_backtick_run(l, j);
        if r != n {
            lemma_closing_run(l, j + r, n);
        }
    } else {
        lemma_closing_run(l, j + 1, n);
    }
}

pub proof fn lemma_close_brackets(l: Seq<char>, j: int)
    ensures
        close_brackets(l, j) matches Some(c) ==> j <= c && c + 2 <= l.len() && l[c] == ']' && l[c
            + 1] == ']',
    decreases l.len() - j,
{
    if j < 0 || j + 1 >= l.len() {
    } else if l[j] == ']' && l[j + 1] == ']' {
    } else {
        lemma_close_brackets(l, j + 1);
    }
}

/// Whether `[[` starts at `i` in `s`.
pub open spec fn double_bracket_at(s: Seq<char>, i: int) -> bool {
    0 <= i && i + 1 < s.len() && s[i] == '[' && s[i + 1] == '['
}

/// Whether `s` holds `[[` anywhere.
pub open spec fn has_double_bracket(s: Seq<char>) -> bool {
    exists|i: int| #[trigger] double_bracket_at(s, i)
}

proof fn lemma_convert_line_identity(l: Seq<char>, i: int)
    requires
        0 <= i <= l.len(),
        !has_double_bracket(l),
    ensures
        convert_line(l, i) == l.skip(i),
    decreases l.len() - i,
{
    if i >= l.len() {
        assert(l.skip(i) =~= seq![]);
    } else if l[i] == '`' {
        let r = backtick_run(l, i);
        lemma_backtick_run(l, i);
        lemma_closing_run(l, i + r, r);
        match closing_run(l, i + r, r) {
            Some(c) => {
                lemma_convert_line_identity(l, c + r);
                assert(l.subrange(i, c + r) + l.skip(c + r) =~= l.skip(i));
            },
            None => {
                lemma_convert_line_identity(l, i + r);
                assert(l.subrange(i, i + r) + l.skip(i + r) =~= l.skip(i));
            },
        }
    } else {
        assert(!double_bracket_at(l, i));
        lemma_convert_line_identity(l, i + 1);
        assert(seq![l[i]] + l.skip(i + 1) =~= l.skip(i));
    }
}

proof fn lemma_convert_from_identity(s: Seq<char>, pos: int, fence: Option<(char, nat)>)
    requires
        0 <= pos <= s.len(),
        !has_double_bracket(s),
    ensures
        convert_from(s, pos, fence) == s.skip(pos),
    decreases s.len() - pos,
{
    if pos >= s.len() {
        assert(s.skip(pos) =~= seq![]);
    } else {
        let e = pos + line_len(s.skip(pos));
        lemma_line_len_bound(s.skip(pos));
        let line = s.subrange(pos, e);
        let t = trim(line);
        assert(!has_double_bracket(line)) by {
            if has_double_bracket(line) {
                let i = choose|i: int| #[trigger] double_bracket_at(line, i);
                assert(double_bracket_at(s, pos + i));
            }
        }
        lemma_convert_line_identity(line, 0);
        assert(line.skip(0) =~= line);
        match fence {
            Some((ch, n)) => {
                let closes = leading_run(t, ch) >= n && (forall|k: int|
                    0 <= k < t.len() ==> t[k] == ch);
                lemma_convert_from_identity(s, e, if closes { None } else { fence });
            },
            None => {
                if t.len() > 0 && (t[0] == '`' || t[0] == '~') && leading_run(t, t[0]) >= 3 {
                    lemma_convert_from_identity(s, e, Some((t[0], leading_run(t, t[0]))));
                } else {
                    lemma_convert_from_identity(s, e, None);
                }
            },
        }
        assert(line + s.skip(e) =~= s.skip(pos));
    }
}

/// A document without `[[` comes out of `process_wikilinks` unchanged,
/// character for character (including its trailing newline or lack of one).
pub proof fn law_no_wikilinks_is_identity(s: Seq<char>)
    requires
        !has_double_bracket(s),
    ensures
        convert_from(s, 0, None) == s,
{
    lemma_convert_from_identity(s, 0, None);
    assert(s.skip(0) =~= s);
}

proof fn lemma_backtick_run_skip(l: Seq<char>, d: int, k: int)
    requires
        0 <= d <= k,
        d <= l.len(),
    ensures
        backtick_run(l, k) == backtick_run(l.skip(d), k - d),
    decreases l.len() - k,
{
    if 0 <= k < l.len() && l[k] == '`' {
        lemma_backtick_run_skip(l, d, k + 1);
    }
}

proof fn lemma_closing_run_skip(l: Seq<char>, d: int, j: int, n: nat)
    requires
        0 <= d <= j,
        d <= l.len(),
    ensures
        closing_run(l, j, n) == match closing_run(l.skip(d), j - d, n) {
            Some(c) => Some(c + d),
            None => None,
        },
    decreases l.len() - j,
{
    if j < l.len() {
        if l[j] == '`' {
            lemma_backtick_run_skip(l, d, j);
            lemma_backtick_run(l, j);
            if backtick_run(l, j) != n {
                lemma_closing_run_skip(l, d, j + backtick_run(l, j), n);
            }
        } else {
            lemma_closing_run_skip(l, d, j + 1, n);
        }
    }
}

proof fn lemma_close_brackets_skip(l: Seq<char>, d: int, j: int)
    requires
        0 <= d <= j,
        d <= l.len(),
    ensures
        close_brackets(l, j) == match close_brackets(l.skip(d), j - d) {
            Some(c) => Some(c + d),
            None => None,
        },
    decreases l.len() - j,
{
    if j + 1 < l.len() && !(l[j] == ']' && l[j + 1] == ']') {
        lemma_close_brackets_skip(l, d, j + 1);
    }
}

/// Converting a line from `k` on reads nothing before `k`: it is the
/// conversion of what is left of the line from `k` on.
proof fn lemma_convert_line_skip(l: Seq<char>, d: int, k: int)
    requires
        0 <= d <= k,
        d <= l.len(),
    ensures
        convert_line(l, k) == convert_line(l.skip(d), k - d),
    decreases l.len() - k,
{
    let r = l.skip(d);
    if k < l.len() {
        if l[k] == '`' {
            let n = backtick_run(l, k);
            lemma_backtick_run(l, k);
            lemma_backtick_run_skip(l, d, k);
            lemma_closing_run(l, k + n, n);
            lemma_closing_run_skip(l, d, k + n, n);
            match closing_run(l, k + n, n) {
                Some(c) => {
                    lemma_convert_line_skip(l, d, c + n);
                    assert(l.subrange(k, c + n) =~= r.subrange(k - d, c - d + n));
                },
                None => {
                    lemma_convert_line_skip(l, d, k + n);
                    assert(l.subrange(k, k + n) =~= r.subrange(k - d, k - d + n));
                },
            }
        } else {
            lemma_close_brackets_skip(l, d, k + 2);
            lemma_close_brackets(l, k + 2);
            if wikilink_at(l, k) {
                let c = close_brackets(l, k + 2)->0;
                assert(l.subrange(k + 2, c) =~= r.subrange(k - d + 2, c - d));
                assert(wikilink_at(r, k - d));
                lemma_convert_line_skip(l, d, c + 2);
            } else {
                if k + 1 < l.len() && l[k] == '[' && l[k + 1] == '[' && close_brackets(l, k + 2) is Some {
                    let c = close_brackets(l, k + 2)->0;
                    assert(l.subrange(k + 2, c) =~= r.subrange(k - d + 2, c - d));
                }
                assert(!wikilink_at(r, k - d));
                lemma_convert_line_skip(l, d, k + 1);
            }
        }
    }
}

/// Text without backticks or `[[` up to `n` is copied as it is.
proof fn lemma_convert_line_plain(l: Seq<char>, k: int, n: int)
    requires
        0 <= k <= n <= l.len(),
        forall|m: int| k <= m < n ==> l[m] != '`' && !double_bracket_at(l, m),
    ensures
        convert_line(l, k) == l.subrange(k, n) + convert_line(l, n),
    decreases n - k,
{
    if k == n {
        assert(l.subrange(k, n) + convert_line(l, n) =~= convert_line(l, n));
    } else {
        assert(!double_bracket_at(l, k));
        lemma_convert_line_plain(l, k + 1, n);
        assert(seq![l[k]] + (l.subrange(k + 1, n) + convert_line(l, n)) =~= l.subrange(k, n) + convert_line(l, n));
    }
}

/// The first `]]` from `j` on is at `c` when none starts before it.
proof fn lemma_close_brackets_at(l: Seq<char>, j: int, c: int)
    requires
        0 <= j <= c,
        c + 1 < l.len(),
        l[c] == ']' && l[c + 1] == ']',
        forall|m: int| j <= m < c ==> !(l[m] == ']' && #[trigger] l[m + 1] == ']'),
    ensures
        close_brackets(l, j) == Some(c),
    decreases c - j,
{
    if j < c {
        assert(!(l[j] == ']' && l[j + 1] == ']'));
        lemma_close_brackets_at(l, j + 1, c);
    }
}

/// Every wikilink of a line is converted, not only the first: in a line made
/// of text `p` (no backtick, no `[[`, not ending in `[`), a wikilink `[[x]]`
/// (`x` non-empty, on one line, with no `]]` and not ending in `]`) and the
/// rest `q`, the wikilink becomes its markdown link and the rest is converted
/// as it would be on its own.
pub proof fn law_every_wikilink_converted(p: Seq<char>, x: Seq<char>, q: Seq<char>)
    requires
        !p.contains('`'),
        forall|m: int| 0 <= m < p.len() && #[trigger] p[m] == '[' ==> m + 1 < p.len() && p[m + 1] != '[',
        x.len() > 0,
        !x.contains('\n'),
        forall|m: int| 0 <= m < x.len() && #[trigger] x[m] == ']' ==> m + 1 < x.len() && x[m + 1] != ']',
    ensures
        convert_line(p + "[["@ + x + "]]"@ + q, 0) == p + link_for(x) + convert_line(q, 0),
{
    reveal_strlit("[[");
    reveal_strlit("]]");
    let l = p + "[["@ + x + "]]"@ + q;
    let i = p.len() as int;
    let c = i + 2 + x.len();
    assert(l[i] == '[' && l[i + 1] == '[');
    assert(l[c] == ']' && l[c + 1] == ']');
    assert forall|m: int| 0 <= m < i implies l[m] != '`' && !double_bracket_at(l, m) by {
        assert(l[m] == p[m]);
        if l[m] == '`' {
            assert(p.contains('`'));
        }
        if p[m] == '[' {
            assert(l[m + 1] == p[m + 1]);
        }
    }
    lemma_convert_line_plain(l, 0, i);
    assert(l.subrange(0, i) =~= p);
    assert forall|m: int| i + 2 <= m < c implies !(l[m] == ']' && #[trigger] l[m + 1] == ']') by {
        assert(l[m] == x[m - i - 2]);
        if x[m - i - 2] == ']' {
            assert(l[m + 1] == x[m - i - 1]);
        }
    }
    lemma_close_brackets_at(l, i + 2, c);
    assert(l.subrange(i + 2, c) =~= x);
    assert(wikilink_at(l, i));
    assert(convert_line(l, i) == link_for(x) + convert_line(l, c + 2));
    lemma_convert_line_skip(l, c + 2, c + 2);
    assert(l.skip(c + 2) =~= q);
    assert(p + (link_for(x) + convert_line(q, 0)) =~= p + link_for(x) + convert_line(q, 0));
}

/// Pre-process markdown source to convert wikilinks to standard markdown links.
///
/// Converts:
/// - `[[target]]` → `[target](target.md)`
/// - `[[target|display]]` → `[display](target.md)`
/// - `[[target.pdf]]` → `[target.pdf](target.pdf)` (keeps existing extensions)
///
/// Skips wikilinks inside fenced code blocks and inline code. When no
/// wikilinks are present the output equals the input.
pub fn process_wikilinks(source: &str) -> (res: String)
    ensures
        res@ == convert_from(source@, 0, None),
{
    let v = chars_of(source);
    let mut result = String::new();
    let mut fence: Option<(char, usize)> = None;
    let mut pos: usize = 0;
    while pos < v.len()
        invariant
            pos <= v@.len(),
            convert_from(v@, 0, None) == result@ + convert_from(
                v@,
                pos as int,
                match fence {
                    Some((c, n)) => Some((c, n as nat)),
                    None => None,
                },
            ),
        decreases v@.len() - pos,
    {
        let e = line_end(&v, pos);
        let ghost line = v@.subrange(pos as int, e as int);
        let b0 = trim_start_at(&v, pos, e);
        let b1 = trim_end_at(&v, b0, e);
        let ghost t = v@.subrange(b0 as int, b1 as int);
        assert(trim(line) == t);
        match fence {
            Some((ch, n)) => {
                let run = leading_run_at(&v, b0, b1, ch);
                if run >= n && all_same(&v, b0, b1, ch) {
                    fence = None;
                }
                push_range(&mut result, &v, pos, e);
            },
            None => {
                let mut opened = false;
                if b0 < b1 && (v[b0] == '`' || v[b0] == '~') {
                    let ch = v[b0];
                    let run = leading_run_at(&v, b0, b1, ch);
                    if run >= 3 {
                        fence = Some((ch, run));
                        push_range(&mut result, &v, pos, e);
                        opened = true;
                    }
                }
                if !opened {
                    let line_chars = sub_vec(&v, pos, e);
                    process_line(&line_chars, &mut result);
                }
            },
        }
        pos = e;
    }
    result
}

/// Length of the backtick run starting at `start`.
fn backtick_run_at(l: &[char], start: usize) -> (r: usize)
    requires
        start <= l@.len(),
    ensures
        r == backtick_run(l@, start as int),
        start + r <= l@.len(),
{
    let mut r: usize = 0;
    proof {
        lemma_backtick_run(l@, start as int);
    }
    let n = l.len();
    while start + r < n && l[start + r] == '`'
        invariant
            n == l@.len(),
            start + r <= l@.len(),
            backtick_run(l@, start as int) == r + backtick_run(l@, start + r),
        decreases l@.len() - (start + r),
    {
        r = r + 1;
    }
    r
}

/// Start of the next backtick run of exactly `n` backticks at or after `start`.
fn find_closing_run(l: &[char], start: usize, n: usize) -> (res: Option<usize>)
    requires
        start <= l@.len(),
    ensures
        res matches Some(c) ==> closing_run(l@, start as int, n as nat) == Some(c as int),
        res is None ==> closing_run(l@, start as int, n as nat) is None,
{
    let mut i = start;
    while i < l.len()
        invariant
            start <= i <= l@.len(),
            closing_run(l@, start as int, n as nat) == closing_run(l@, i as int, n as nat),
        decreases l@.len() - i,
    {
        if l[i] == '`' {
            let run = backtick_run_at(l, i);
            proof {
                lemma_backtick_run(l@, i as int);
            }
            if run == n {
                return Some(i);
            }
            i = i + run;
        } else {
            i = i + 1;
        }
    }
    None
}

/// Position of the next `]]` at or after `start`.
fn find_close_brackets(l: &[char], start: usize) -> (res: Option<usize>)
    requires
        start <= l@.len(),
    ensures
        res matches Some(c) ==> close_brackets(l@, start as int) == Some(c as int),
        res is None ==> close_brackets(l@, start as int) is None,
{
    let mut i = start;
    while i < l.len() && i + 1 < l.len()
        invariant
            start <= i <= l@.len(),
            close_brackets(l@, start as int) == close_brackets(l@, i as int),
        decreases l@.len() - i,
    {
        if l[i] == ']' && l[i + 1] == ']' {
            return Some(i);
        }
        i = i + 1;
    }
    None
}

/// Appends the file path for the wikilink target `v[lo..hi]`.
fn push_normalized_target(result: &mut String, v: &[char], lo: usize, hi: usize)
    requires
        lo <= hi <= v@.len(),
    ensures
        final(result)@ == old(result)@ + normalize_target(v@.subrange(lo as int, hi as int)),
{
    let b0 = trim_start_at(v, lo, hi);
    let b1 = trim_end_at(v, b0, hi);
    assert(trim(v@.subrange(lo as int, hi as int)) == v@.subrange(b0 as int, b1 as int));
    push_range(result, v, b0, b1);
    if !range_contains(v, b0, b1, '.') {
        result.append(".md");
    }
}

/// Appends the markdown link for the wikilink whose inner text is `l[lo..hi]`.
fn push_link(result: &mut String, l: &[char], lo: usize, hi: usize)
    requires
        lo <= hi <= l@.len(),
    ensures
        final(result)@ == old(result)@ + link_for(l@.subrange(lo as int, hi as int)),
{
    let ghost inner = l@.subrange(lo as int, hi as int);
    let p = first_index_at(l, lo, hi, '|');
    result.append("[");
    if lo + p < hi {
        assert(inner.skip(p + 1) == l@.subrange(lo + p + 1, hi as int));
        assert(inner.take(p as int) == l@.subrange(lo as int, lo + p));
        push_range(result, l, lo + p + 1, hi);
        result.append("](");
        push_normalized_target(result, l, lo, lo + p);
    } else {
        push_range(result, l, lo, hi);
        result.append("](");
        push_normalized_target(result, l, lo, hi);
    }
    result.append(")");
}

/// Convert wikilinks in a single line (which may include its trailing
/// newline), leaving inline code spans untouched.
fn process_line(l: &[char], result: &mut String)
    ensures
        final(result)@ == old(result)@ + convert_line(l@, 0),
{
    let ghost r0 = result@;
    let len = l.len();
    let mut i: usize = 0;
    while i < len
        invariant
            len == l@.len(),
            i <= len,
            r0 + convert_line(l@, 0) == result@ + convert_line(l@, i as int),
        decreases len - i,
    {
        if l[i] == '`' {
            let run = backtick_run_at(l, i);
            proof {
                lemma_backtick_run(l@, i as int);
            }
            match find_closing_run(l, i + run, run) {
                Some(close) => {
                    proof {
                        lemma_closing_run(l@, i + run, run as nat);
                    }
                    push_range(result, l, i, close + run);
                    i = close + run;
                },
                None => {
                    push_range(result, l, i, i + run);
                    i = i + run;
                },
            }
        } else {
            let mut linked = false;
            if i + 1 < len && l[i] == '[' && l[i + 1] == '[' {
                match find_close_brackets(l, i + 2) {
                    Some(close) => {
                        proof {
                            lemma_close_brackets(l@, i + 2);
                        }
                        if close > i + 2 && !range_contains(l, i + 2, close, '\n') {
                            push_link(result, l, i + 2, close);
                            i = close + 2;
                            linked = true;
                        }
                    },
                    None => {},
                }
            }
            if !linked {
                push_char(result, l[i]);
                i = i + 1;
            }
        }
    }
}

} // verus!
