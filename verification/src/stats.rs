//! Document statistics: words (with CJK characters counted one by one),
//! reading time, and the element counts the `stats` command shows.
use crate::render::{decimal, push_decimal_usize};
use crate::text::{chars_of, find_at, find_from, is_ws, lemma_find_from, lines_of, occurs_at, push_char};
use vstd::prelude::*;

verus! {

/// Han and kana: each counts as a word of its own (the usual CJK
/// convention).
pub open spec fn is_cjk(c: char) -> bool {
    ||| ('\u{3400}' <= c && c <= '\u{4DBF}')
    ||| ('\u{4E00}' <= c && c <= '\u{9FFF}')
    ||| ('\u{3040}' <= c && c <= '\u{30FF}')
    ||| ('\u{F900}' <= c && c <= '\u{FAFF}')
}

fn cjk(c: char) -> (b: bool)
    ensures
        b == is_cjk(c),
{
    ('\u{3400}' <= c && c <= '\u{4DBF}') || ('\u{4E00}' <= c && c <= '\u{9FFF}') || ('\u{3040}' <= c
        && c <= '\u{30FF}') || ('\u{F900}' <= c && c <= '\u{FAFF}')
}

/// The whitespace-separated tokens of `s` (`str::split_whitespace`).
pub open spec fn ws_tokens(s: Seq<char>) -> Seq<Seq<char>>
    decreases s.len(),
{
    if s.len() == 0 {
        seq![]
    } else {
        let p = ws_tokens(s.drop_last());
        let c = s.last();
        if is_ws(c) {
            p
        } else if s.len() >= 2 && !is_ws(s[s.len() - 2]) {
            p.drop_last().push(p.last().push(c))
        } else {
            p.push(seq![c])
        }
    }
}

/// Number of CJK characters in `t`.
pub open spec fn cjk_count(t: Seq<char>) -> int
    decreases t.len(),
{
    if t.len() == 0 {
        0
    } else {
        cjk_count(t.drop_last()) + if is_cjk(t.last()) {
            1int
        } else {
            0int
        }
    }
}

/// `t` holds a character that is not CJK.
pub open spec fn has_other(t: Seq<char>) -> bool
    decreases t.len(),
{
    t.len() > 0 && (!is_cjk(t.last()) || has_other(t.drop_last()))
}

/// The words a token counts for: one per CJK character, plus one for the
/// rest of it if there is any.
pub open spec fn token_words(t: Seq<char>) -> int {
    cjk_count(t) + if has_other(t) {
        1int
    } else {
        0int
    }
}

/// Total words of the tokens `ts`.
pub open spec fn words_of(ts: Seq<Seq<char>>) -> int
    decreases ts.len(),
{
    if ts.len() == 0 {
        0
    } else {
        words_of(ts.drop_last()) + token_words(ts.last())
    }
}

/// Word count of `s`: whitespace tokens, with each CJK character a word of
/// its own.
pub open spec fn word_count_of(s: Seq<char>) -> int {
    words_of(ws_tokens(s))
}

/// `s` ends inside a token.
pub open spec fn open_token(s: Seq<char>) -> bool {
    s.len() > 0 && !is_ws(s.last())
}

proof fn lemma_tokens_shape(s: Seq<char>)
    ensures
        s.len() > 0 && !is_ws(s.last()) ==> ws_tokens(s).len() > 0,
    decreases s.len(),
{
    if s.len() > 0 {
        lemma_tokens_shape(s.drop_last());
    }
}

/// Whitespace-token counting undercounts scripts written without spaces: a
/// 600-character Chinese document is one "word". Han and kana characters
/// each count as a word of their own; everything else counts by whitespace
/// tokens.
pub fn word_count(text: &str) -> (n: usize)
    ensures
        n == word_count_of(text@),
{
    let v = chars_of(text);
    let mut total: usize = 0;
    let mut other = false;
    let mut i: usize = 0;
    proof {
        assert(v@.take(0) =~= Seq::<char>::empty());
    }
    while i < v.len()
        invariant
            i <= v@.len(),
            v@ == text@,
            total + (if other {
                1int
            } else {
                0int
            }) <= i,
            open_token(v@.take(i as int)) ==> ws_tokens(v@.take(i as int)).len() > 0,
            open_token(v@.take(i as int)) ==> total == words_of(ws_tokens(v@.take(i as int)).drop_last())
                + cjk_count(ws_tokens(v@.take(i as int)).last()),
            open_token(v@.take(i as int)) ==> other == has_other(ws_tokens(v@.take(i as int)).last()),
            !open_token(v@.take(i as int)) ==> total == words_of(ws_tokens(v@.take(i as int))),
            !open_token(v@.take(i as int)) ==> !other,
        decreases v@.len() - i,
    {
        let c = v[i];
        let ghost p = v@.take(i as int);
        let ghost q = v@.take(i + 1);
        proof {
            assert(q.drop_last() =~= p);
            assert(q.last() == c);
            lemma_tokens_shape(p);
            if i > 0 {
                assert(q[q.len() - 2] == p.last());
            }
        }
        if crate::text::is_whitespace(c) {
            if other {
                total = total + 1;
                other = false;
            }
            proof {
                let ts = ws_tokens(p);
                if p.len() > 0 && !is_ws(p.last()) {
                    assert(ts.drop_last().push(ts.last()) =~= ts);
                }
            }
        } else {
            if cjk(c) {
                total = total + 1;
            } else {
                other = true;
            }
            proof {
                let ts = ws_tokens(p);
                let tq = ws_tokens(q);
                assert(open_token(q));
                if p.len() > 0 && !is_ws(p.last()) {
                    let lt = ts.last();
                    assert(tq =~= ts.drop_last().push(lt.push(c)));
                    assert(tq.drop_last() =~= ts.drop_last());
                    assert(tq.last() == lt.push(c));
                    assert(lt.push(c).drop_last() =~= lt);
                    assert(lt.push(c).last() == c);
                    assert(cjk_count(lt.push(c)) == cjk_count(lt) + if is_cjk(c) {
                        1int
                    } else {
                        0int
                    });
                    assert(has_other(lt.push(c)) == (!is_cjk(c) || has_other(lt)));
                } else {
                    assert(tq =~= ts.push(seq![c]));
                    assert(tq.drop_last() =~= ts);
                    assert(tq.last() == seq![c]);
                    assert(seq![c].drop_last() =~= Seq::<char>::empty());
                    assert(seq![c].last() == c);
                    assert(cjk_count(seq![c].drop_last()) == 0);
                    assert(!has_other(seq![c].drop_last()));
                    assert(cjk_count(seq![c]) == if is_cjk(c) {
                        1int
                    } else {
                        0int
                    });
                    assert(has_other(seq![c]) == !is_cjk(c));
                }
            }
        }
        i = i + 1;
    }
    proof {
        assert(v@.take(v@.len() as int) =~= v@);
        let ts = ws_tokens(v@);
        if v@.len() > 0 && !is_ws(v@.last()) {
            assert(ts.drop_last().push(ts.last()) =~= ts);
        }
    }
    if other {
        total + 1
    } else {
        total
    }
}

/// `a / b` rounded up.
pub open spec fn div_ceil(a: int, b: int) -> int {
    (a + b - 1) / b
}

/// Word count and reading time in minutes (200 words a minute, rounded up)
/// for the status bar.
pub fn document_stats(source: &str) -> (r: (usize, usize))
    ensures
        r.0 == word_count_of(source@),
        r.1 == div_ceil(word_count_of(source@), 200),
{
    let words = word_count(source);
    (words, words / 200 + if words % 200 > 0 {
        1
    } else {
        0
    })
}

/// Number of non-overlapping occurrences of `pat` in `s` from `i` on
/// (`str::matches(pat).count()`).
pub open spec fn count_from(s: Seq<char>, pat: Seq<char>, i: int) -> int
    decreases s.len() + 1 - i,
{
    if pat.len() == 0 || i < 0 || i > s.len() {
        0
    } else {
        match find_from(s, pat, i) {
            None => 0,
            Some(j) => if j + pat.len() > i && j + pat.len() <= s.len() {
                1 + count_from(s, pat, j + pat.len())
            } else {
                0
            },
        }
    }
}

/// Count the non-overlapping occurrences of `pat` in `v`.
fn count_pattern(v: &Vec<char>, pat: &str) -> (n: usize)
    requires
        pat@.len() > 0,
    ensures
        n == count_from(v@, pat@, 0),
        n <= v@.len(),
{
    let p = chars_of(pat);
    let mut pos: usize = 0;
    let mut n: usize = 0;
    while pos <= v.len()
        invariant
            p@ == pat@,
            p@.len() > 0,
            pos <= v@.len(),
            n <= pos,
            count_from(v@, p@, 0) == n + count_from(v@, p@, pos as int),
        decreases v@.len() + 1 - pos,
    {
        match find_at(v, pos, &p) {
            None => {
                proof {
                    lemma_find_none_shift(v@, p@, pos as int);
                }
                return n;
            },
            Some(j) => {
                proof {
                    lemma_find_shift(v@, p@, pos as int, j as int);
                    lemma_find_from(v@, p@, pos as int);
                }
                n = n + 1;
                pos = j + p.len();
            },
        }
    }
    n
}

/// Finding in a suffix is finding from an offset.
proof fn lemma_find_shift(s: Seq<char>, pat: Seq<char>, lo: int, j: int)
    requires
        0 <= lo <= s.len(),
        find_from(s.subrange(lo, s.len() as int), pat, 0) == Some(j - lo),
    ensures
        find_from(s, pat, lo) == Some(j),
{
    lemma_find_suffix(s, pat, lo, 0);
}

proof fn lemma_find_none_shift(s: Seq<char>, pat: Seq<char>, lo: int)
    requires
        0 <= lo <= s.len(),
        find_from(s.subrange(lo, s.len() as int), pat, 0) is None,
    ensures
        find_from(s, pat, lo) is None,
{
    lemma_find_suffix(s, pat, lo, 0);
}

/// `find_from` on the suffix at `lo`, from `k`, is `find_from` on `s` from
/// `lo + k`, shifted.
proof fn lemma_find_suffix(s: Seq<char>, pat: Seq<char>, lo: int, k: int)
    requires
        0 <= lo <= s.len(),
        0 <= k,
    ensures
        find_from(s.subrange(lo, s.len() as int), pat, k) == match find_from(s, pat, lo + k) {
            Some(j) => Some(j - lo),
            None => None::<int>,
        },
    decreases s.len() + 1 - (lo + k),
{
    let t = s.subrange(lo, s.len() as int);
    if !(lo + k + pat.len() > s.len()) {
        assert(t.subrange(k, k + pat.len()) =~= s.subrange(lo + k, lo + k + pat.len()));
        if !occurs_at(t, pat, k) {
            lemma_find_suffix(s, pat, lo, k + 1);
        }
    }
}

/// The numbers the `stats` command shows that come from the text alone.
#[derive(Debug, Clone, Copy, PartialEq, Eq, Structural)]
pub struct TextStats {
    pub words: usize,
    pub chars: usize,
    pub lines: usize,
    pub reading_time: usize,
    pub links: usize,
    pub code_blocks: usize,
    pub images: usize,
    pub tables: usize,
}

/// Lines of `ls` that contain a table rule `---|`.
pub open spec fn table_lines(ls: Seq<Seq<char>>) -> int
    decreases ls.len(),
{
    if ls.len() == 0 {
        0
    } else {
        table_lines(ls.drop_last()) + if exists|i: int| occurs_at(ls.last(), "---|"@, i) {
            1int
        } else {
            0int
        }
    }
}

/// Statistics of document text (frontmatter already removed): words, characters,
/// lines, reading time, links (`](`), code blocks (pairs of ```` ``` ````),
/// images (`![`), and table lines (lines holding `---|`).
pub fn text_stats(content: &str) -> (st: TextStats)
    ensures
        st.words == word_count_of(content@),
        st.chars == content@.len(),
        st.lines == lines_of(content@).len(),
        st.reading_time == div_ceil(word_count_of(content@), 200),
        st.links == count_from(content@, "]("@, 0),
        st.code_blocks == count_from(content@, "```"@, 0) / 2,
        st.images == count_from(content@, "!["@, 0),
        st.tables == table_lines(lines_of(content@)),
{
    proof {
        reveal_strlit("](");
        reveal_strlit("```");
        reveal_strlit("![");
        reveal_strlit("---|");
    }
    let (words, reading_time) = document_stats(content);
    let v = chars_of(content);
    let ls = crate::text::split_lines(&v);
    let links = count_pattern(&v, "](");
    let fences = count_pattern(&v, "```");
    let images = count_pattern(&v, "![");
    let rule = chars_of("---|");
    let mut tables: usize = 0;
    let mut k: usize = 0;
    let ghost lv = ls@.map_values(|l: Vec<char>| l@);
    proof {
        assert(lv.take(0) =~= Seq::<Seq<char>>::empty());
    }
    while k < ls.len()
        invariant
            k <= ls@.len(),
            lv == ls@.map_values(|l: Vec<char>| l@),
            rule@ == "---|"@,
            rule@.len() > 0,
            tables == table_lines(lv.take(k as int)),
            tables <= k,
        decreases ls@.len() - k,
    {
        proof {
            assert(lv.take(k + 1).drop_last() =~= lv.take(k as int));
            assert(lv.take(k + 1).last() == ls@[k as int]@);
        }
        if crate::text::contains_seq(&ls[k], &rule) {
            tables = tables + 1;
        }
        k = k + 1;
    }
    proof {
        assert(lv.take(ls@.len() as int) =~= lv);
    }
    TextStats {
        words,
        chars: v.len(),
        lines: ls.len(),
        reading_time,
        links,
        code_blocks: fences / 2,
        images,
        tables,
    }
}

/// One numbered line of the statistics box: the label (padded to the
/// value column) and the number.
pub open spec fn stat_line(label: Seq<char>, n: nat) -> Seq<char> {
    label + decimal(n)
}

/// The statistics box the `stats` command prints for a file.
pub open spec fn stats_text(name: Seq<char>, st: TextStats, headings: nat, frontmatter: bool) -> Seq<Seq<char>> {
    seq![
        "╭─ "@ + name + " ─╮"@,
        "│"@,
        stat_line("│  Words:         "@, st.words as nat),
        stat_line("│  Characters:    "@, st.chars as nat),
        stat_line("│  Lines:         "@, st.lines as nat),
        "│  Reading time:  ~"@ + decimal(st.reading_time as nat) + " min"@,
        "│"@,
        stat_line("│  Headings:      "@, headings),
        stat_line("│  Links:         "@, st.links as nat),
        stat_line("│  Code blocks:   "@, st.code_blocks as nat),
        stat_line("│  Images:        "@, st.images as nat),
        stat_line("│  Tables:        "@, st.tables as nat),
    ] + (if frontmatter {
        seq!["│  Frontmatter:   yes"@]
    } else {
        Seq::empty()
    }) + seq!["│"@, "╰───╯"@]
}

/// The text of each string.
pub open spec fn texts_of(v: Seq<String>) -> Seq<Seq<char>> {
    v.map_values(|s: String| s@)
}

/// `label` followed by the digits of `n`.
fn numbered(label: &str, n: usize) -> (s: String)
    ensures
        s@ == stat_line(label@, n as nat),
{
    let mut s = String::from_str(label);
    push_decimal_usize(&mut s, n);
    s
}

/// The statistics box for `name`: the text statistics, the heading count,
/// and a frontmatter line when the document had frontmatter.
pub fn stats_report(name: &str, st: &TextStats, headings: usize, frontmatter: bool) -> (lines: Vec<String>)
    ensures
        texts_of(lines@) == stats_text(name@, *st, headings as nat, frontmatter),
{
    let mut lines: Vec<String> = Vec::new();
    let mut top = String::from_str("╭─ ");
    top.append(name);
    top.append(" ─╮");
    lines.push(top);
    lines.push(String::from_str("│"));
    lines.push(numbered("│  Words:         ", st.words));
    lines.push(numbered("│  Characters:    ", st.chars));
    lines.push(numbered("│  Lines:         ", st.lines));
    let mut rt = numbered("│  Reading time:  ~", st.reading_time);
    rt.append(" min");
    lines.push(rt);
    lines.push(String::from_str("│"));
    lines.push(numbered("│  Headings:      ", headings));
    lines.push(numbered("│  Links:         ", st.links));
    lines.push(numbered("│  Code blocks:   ", st.code_blocks));
    lines.push(numbered("│  Images:        ", st.images));
    lines.push(numbered("│  Tables:        ", st.tables));
    if frontmatter {
        lines.push(String::from_str("│  Frontmatter:   yes"));
    }
    lines.push(String::from_str("│"));
    lines.push(String::from_str("╰───╯"));
    assert(texts_of(lines@) =~= stats_text(name@, *st, headings as nat, frontmatter));
    lines
}

/// The mark before a heading of `level` in the outline.
pub open spec fn outline_marker(level: u8) -> Seq<char> {
    if level == 1 {
        "█"@
    } else if level == 2 {
        "▌"@
    } else if level == 3 {
        "▎"@
    } else {
        "·"@
    }
}

/// A heading in the outline: two spaces per level below the first, the
/// level's mark, a space, the heading text.
pub open spec fn outline_line(level: u8, text: Seq<char>) -> Seq<char> {
    let depth: nat = if level >= 1 {
        (level - 1) as nat
    } else {
        0
    };
    Seq::new(2 * depth, |_i: int| ' ') + outline_marker(level) + seq![' '] + text
}

/// The outline the `outline` command prints: one line per heading, or a
/// note that there are none.
pub open spec fn outline_text(headings: Seq<(u8, Seq<char>)>) -> Seq<Seq<char>> {
    if headings.len() == 0 {
        seq!["  (no headings found)"@]
    } else {
        headings.map_values(|h: (u8, Seq<char>)| outline_line(h.0, h.1))
    }
}

/// The outline of a document's headings, given as (level, text).
pub fn outline_lines(headings: &Vec<(u8, String)>) -> (lines: Vec<String>)
    ensures
        texts_of(lines@) == outline_text(headings@.map_values(|h: (u8, String)| (h.0, h.1@))),
{
    let ghost hv = headings@.map_values(|h: (u8, String)| (h.0, h.1@));
    let mut lines: Vec<String> = Vec::new();
    if headings.len() == 0 {
        lines.push(String::from_str("  (no headings found)"));
        assert(texts_of(lines@) =~= outline_text(hv));
        return lines;
    }
    let mut i: usize = 0;
    while i < headings.len()
        invariant
            i <= headings@.len(),
            hv == headings@.map_values(|h: (u8, String)| (h.0, h.1@)),
            texts_of(lines@) == hv.take(i as int).map_values(|h: (u8, Seq<char>)| outline_line(h.0, h.1)),
        decreases headings@.len() - i,
    {
        let level = headings[i].0;
        let depth: usize = if level >= 1 {
            (level - 1) as usize
        } else {
            0
        };
        let mut s = String::new();
        let mut k: usize = 0;
        while k < 2 * depth
            invariant
                depth <= 255,
                k <= 2 * depth,
                s@ == Seq::new(k as nat, |_i: int| ' '),
            decreases 2 * depth - k,
        {
            push_char(&mut s, ' ');
            assert(s@ =~= Seq::new((k + 1) as nat, |_i: int| ' '));
            k = k + 1;
        }
        let ghost sp = s@;
        assert(sp == Seq::new((2 * depth) as nat, |_i: int| ' '));
        if level == 1 {
            s.append("█");
        } else if level == 2 {
            s.append("▌");
        } else if level == 3 {
            s.append("▎");
        } else {
            s.append("·");
        }
        assert(s@ == sp + outline_marker(level));
        push_char(&mut s, ' ');
        s.append(headings[i].1.as_str());
        assert(s@ =~= outline_line(level, headings@[i as int].1@));
        let ghost before = texts_of(lines@);
        lines.push(s);
        proof {
            assert(texts_of(lines@) =~= before.push(outline_line(level, headings@[i as int].1@)));
            assert(hv.take(i + 1).map_values(|h: (u8, Seq<char>)| outline_line(h.0, h.1)) =~= hv.take(
                i as int,
            ).map_values(|h: (u8, Seq<char>)| outline_line(h.0, h.1)).push(outline_line(level, headings@[i as int].1@)));
        }
        i = i + 1;
    }
    assert(hv.take(headings@.len() as int) =~= hv);
    lines
}

/// What a line of a diff does: leaves the first file, enters the second, or
/// stays.
#[derive(Debug, Clone, Copy, PartialEq, Eq, Structural)]
pub enum DiffTag {
    Delete,
    Insert,
    Equal,
}

/// The changes a Myers line diff of `a` against `b` lists, each with the
/// line it concerns (line ending included).
pub uninterp spec fn line_changes(a: Seq<char>, b: Seq<char>) -> Seq<(DiffTag, Seq<char>)>;

/// Calls `similar::TextDiff::from_lines(a, b).iter_all_changes()` (default
/// configuration: Myers, no deadline) and keeps each change's tag and value.
/// Claimed: the result is `line_changes` of the two texts.
#[verifier::external_body]
fn diff_changes(a: &str, b: &str) -> (r: Vec<(DiffTag, String)>)
    ensures
        r@.map_values(|c: (DiffTag, String)| (c.0, c.1@)) == line_changes(a@, b@),
{
    let mut out = Vec::new();
    for change in similar::TextDiff::from_lines(a, b).iter_all_changes() {
        let tag = match change.tag() {
            similar::ChangeTag::Delete => DiffTag::Delete,
            similar::ChangeTag::Insert => DiffTag::Insert,
            similar::ChangeTag::Equal => DiffTag::Equal,
        };
        out.push((tag, change.value().to_string()));
    }
    out
}

/// `s` without its trailing newlines.
pub open spec fn without_newlines(s: Seq<char>) -> Seq<char>
    decreases s.len(),
{
    if s.len() > 0 && s.last() == '\n' {
        without_newlines(s.drop_last())
    } else {
        s
    }
}

/// A change as printed: red `- ` for a removed line, green `+ ` for an
/// added one, two spaces for one that stays.
pub open spec fn change_line(tag: DiffTag, line: Seq<char>) -> Seq<char> {
    match tag {
        DiffTag::Delete => "\x1b[31m- "@ + without_newlines(line) + "\x1b[0m"@,
        DiffTag::Insert => "\x1b[32m+ "@ + without_newlines(line) + "\x1b[0m"@,
        DiffTag::Equal => "  "@ + without_newlines(line),
    }
}

/// The diff as printed: bold `---` and `+++` headers naming the files, an
/// empty line, then one line per change.
pub open spec fn diff_text(name_a: Seq<char>, name_b: Seq<char>, changes: Seq<(DiffTag, Seq<char>)>) -> Seq<Seq<char>> {
    seq!["\x1b[1m--- "@ + name_a + "\x1b[0m"@, "\x1b[1m+++ "@ + name_b + "\x1b[0m"@, Seq::empty()]
        + changes.map_values(|c: (DiffTag, Seq<char>)| change_line(c.0, c.1))
}

/// `s` without its trailing newlines.
fn trim_newlines(s: &str) -> (r: String)
    ensures
        r@ == without_newlines(s@),
{
    let v = chars_of(s);
    let mut n: usize = v.len();
    assert(v@.take(n as int) =~= v@);
    while n > 0 && v[n - 1] == '\n'
        invariant
            n <= v@.len(),
            v@ == s@,
            without_newlines(s@) == without_newlines(v@.take(n as int)),
        decreases n,
    {
        assert(v@.take(n as int).drop_last() =~= v@.take(n - 1));
        n = n - 1;
    }
    crate::text::string_from(&v, 0, n)
}

/// A line diff of two files, as the `diff` command prints it.
pub fn diff_report(a: &str, b: &str, name_a: &str, name_b: &str) -> (lines: Vec<String>)
    ensures
        texts_of(lines@) == diff_text(name_a@, name_b@, line_changes(a@, b@)),
{
    let changes = diff_changes(a, b);
    let ghost cv = changes@.map_values(|c: (DiffTag, String)| (c.0, c.1@));
    let mut lines: Vec<String> = Vec::new();
    let mut head = String::from_str("\x1b[1m--- ");
    head.append(name_a);
    head.append("\x1b[0m");
    lines.push(head);
    let mut head = String::from_str("\x1b[1m+++ ");
    head.append(name_b);
    head.append("\x1b[0m");
    lines.push(head);
    lines.push(String::new());
    let mut i: usize = 0;
    while i < changes.len()
        invariant
            i <= changes@.len(),
            cv == changes@.map_values(|c: (DiffTag, String)| (c.0, c.1@)),
            texts_of(lines@) == diff_text(name_a@, name_b@, cv.take(i as int)),
        decreases changes@.len() - i,
    {
        let body = trim_newlines(changes[i].1.as_str());
        let line = match changes[i].0 {
            DiffTag::Delete => {
                let mut l = String::from_str("\x1b[31m- ");
                l.append(body.as_str());
                l.append("\x1b[0m");
                l
            },
            DiffTag::Insert => {
                let mut l = String::from_str("\x1b[32m+ ");
                l.append(body.as_str());
                l.append("\x1b[0m");
                l
            },
            DiffTag::Equal => {
                let mut l = String::from_str("  ");
                l.append(body.as_str());
                l
            },
        };
        let ghost before = texts_of(lines@);
        lines.push(line);
        proof {
            assert(texts_of(lines@) =~= before.push(change_line(cv[i as int].0, cv[i as int].1)));
            assert(diff_text(name_a@, name_b@, cv.take(i + 1)) =~= diff_text(name_a@, name_b@, cv.take(i as int)).push(
                change_line(cv[i as int].0, cv[i as int].1),
            ));
        }
        i = i + 1;
    }
    assert(cv.take(changes@.len() as int) =~= cv);
    lines
}

} // verus!
