//! YAML / TOML frontmatter at the head of a markdown document.
use crate::text::{
    chars_of, is_ws, lemma_line_len_bound, line_end, line_len, range_eq, string_from, trim, trim_end,
    trim_end_at, trim_start, trim_start_at,
};
use vstd::prelude::*;

verus! {

/// `[A-Za-z0-9_-]`: a character allowed in a frontmatter key.
pub open spec fn is_key_char(c: char) -> bool {
    ('a' <= c && c <= 'z') || ('A' <= c && c <= 'Z') || ('0' <= c && c <= '9') || c == '_' || c
        == '-'
}

/// Length of the leading run of key characters of `s`.
pub open spec fn key_len(s: Seq<char>) -> nat
    decreases s.len(),
{
    if s.len() > 0 && is_key_char(s[0]) {
        1 + key_len(s.drop_first())
    } else {
        0
    }
}

/// A key line: `^[A-Za-z0-9_-]+\s*<sep>`.
pub open spec fn is_key_line(line: Seq<char>, sep: char) -> bool {
    key_len(line) > 0 && {
        let rest = trim_start(line.skip(key_len(line) as int));
        rest.len() > 0 && rest[0] == sep
    }
}

/// Scans the lines of `s` from `pos` for a closing delimiter, given that the
/// body started at `body_start` and `has_key` says whether a key line was
/// seen. On a closer: the trimmed body and everything after the closer line,
/// provided a key line came first.
pub open spec fn scan_body(
    s: Seq<char>,
    body_start: int,
    pos: int,
    has_key: bool,
    closers: Seq<Seq<char>>,
    sep: char,
) -> Option<(Seq<char>, Seq<char>)>
    decreases s.len() - pos,
{
    if pos < 0 || pos >= s.len() {
        None
    } else {
        let e = pos + line_len(s.skip(pos));
        let t = trim_end(s.subrange(pos, e));
        if closers.contains(t) {
            if has_key {
                Some((trim(s.subrange(body_start, pos)), s.skip(e)))
            } else {
                None
            }
        } else {
            proof {
                lemma_line_len_bound(s.skip(pos));
            }
            scan_body(s, body_start, e, has_key || is_key_line(t, sep), closers, sep)
        }
    }
}

/// Frontmatter opened by `open` on the first line and closed by one of
/// `closers`, as (trimmed body, rest of the document).
pub open spec fn delimited(s: Seq<char>, open: Seq<char>, closers: Seq<Seq<char>>, sep: char) -> Option<
    (Seq<char>, Seq<char>),
> {
    if s.len() == 0 {
        None
    } else {
        let e = line_len(s) as int;
        if trim_end(s.take(e)) != open {
            None
        } else {
            scan_body(s, e, e, false, closers, sep)
        }
    }
}

/// YAML frontmatter (`---` … `---` or `...`), else TOML (`+++` … `+++`),
/// else none; with the remaining content.
pub open spec fn frontmatter_split(s: Seq<char>) -> (Option<Seq<char>>, Seq<char>) {
    match delimited(s, "---"@, seq!["---"@, "..."@], ':') {
        Some((fm, rest)) => (Some(fm), rest),
        None => match delimited(s, "+++"@, seq!["+++"@], '=') {
            Some((fm, rest)) => (Some(fm), rest),
            None => (None, s),
        },
    }
}

/// What a scan returns after a closer is the document from some line on.
proof fn lemma_scan_suffix(s: Seq<char>, body_start: int, pos: int, has_key: bool, closers: Seq<Seq<char>>, sep: char)
    ensures
        scan_body(s, body_start, pos, has_key, closers, sep) matches Some(found) ==> exists|e: int|
            0 <= e <= s.len() && found.1 == #[trigger] s.skip(e),
    decreases s.len() - pos,
{
    if 0 <= pos < s.len() {
        lemma_line_len_bound(s.skip(pos));
        let e = pos + line_len(s.skip(pos));
        let t = trim_end(s.subrange(pos, e));
        if !closers.contains(t) {
            lemma_scan_suffix(s, body_start, e, has_key || is_key_line(t, sep), closers, sep);
        }
    }
}

/// Frontmatter is split off only from the head of a document: when there is
/// none the document comes back whole; when there is, the first line is an
/// opening delimiter (`---` or `+++`) and the rest is the document from some
/// line on.
pub proof fn law_frontmatter_only_at_head(s: Seq<char>)
    ensures
        frontmatter_split(s).0 is None ==> frontmatter_split(s).1 == s,
        frontmatter_split(s).0 is Some ==> s.len() > 0 && (trim_end(s.take(line_len(s) as int)) == "---"@
            || trim_end(s.take(line_len(s) as int)) == "+++"@) && exists|e: int|
            0 <= e <= s.len() && frontmatter_split(s).1 == #[trigger] s.skip(e),
{
    if s.len() > 0 {
        let e = line_len(s) as int;
        lemma_scan_suffix(s, e, e, false, seq!["---"@, "..."@], ':');
        lemma_scan_suffix(s, e, e, false, seq!["+++"@], '=');
    }
}

/// `s[q..e]` is a whole line of `s`: from `q` through its newline (or to
/// the end).
pub open spec fn line_at(s: Seq<char>, q: int, e: int) -> bool {
    0 <= q < e <= s.len() && e == q + line_len(s.skip(q))
}

/// Some whole line starting in `[from, to)` and ending by `to` is a key
/// line for `sep`.
pub open spec fn key_line_between(s: Seq<char>, from: int, to: int, sep: char) -> bool {
    exists|a: int, b: int| from <= a && b <= to && #[trigger] line_at(s, a, b) && is_key_line(trim_end(s.subrange(a, b)), sep)
}

/// A scan that finds a closer finds it on a whole line at or after `pos`:
/// the body runs from `body_start` to that line, the rest follows it, and a
/// key line came first.
proof fn lemma_scan_found(s: Seq<char>, body_start: int, pos: int, has_key: bool, closers: Seq<Seq<char>>, sep: char)
    requires
        0 <= pos,
    ensures
        scan_body(s, body_start, pos, has_key, closers, sep) matches Some(found) ==> exists|q: int, e: int|
            pos <= q && #[trigger] line_at(s, q, e) && closers.contains(trim_end(s.subrange(q, e))) && found.0
                == trim(s.subrange(body_start, q)) && found.1 == s.skip(e) && (has_key || key_line_between(
                s,
                pos,
                q,
                sep,
            )),
    decreases s.len() - pos,
{
    if pos < s.len() {
        lemma_line_len_bound(s.skip(pos));
        let e = pos + line_len(s.skip(pos));
        let t = trim_end(s.subrange(pos, e));
        if closers.contains(t) {
            if has_key {
                assert(line_at(s, pos, e));
            }
        } else {
            let hk = has_key || is_key_line(t, sep);
            lemma_scan_found(s, body_start, e, hk, closers, sep);
            if let Some(found) = scan_body(s, body_start, pos, has_key, closers, sep) {
                let (q, e2) = choose|q: int, e2: int|
                    e <= q && #[trigger] line_at(s, q, e2) && closers.contains(trim_end(s.subrange(q, e2))) && found.0
                        == trim(s.subrange(body_start, q)) && found.1 == s.skip(e2) && (hk || key_line_between(
                        s,
                        e,
                        q,
                        sep,
                    ));
                if !has_key {
                    if is_key_line(t, sep) {
                        assert(line_at(s, pos, e));
                    } else {
                        let (a, b) = choose|a: int, b: int|
                            e <= a && b <= q && #[trigger] line_at(s, a, b) && is_key_line(trim_end(s.subrange(a, b)), sep);
                        assert(line_at(s, a, b));
                    }
                    assert(key_line_between(s, pos, q, sep));
                }
                assert(line_at(s, q, e2));
            }
        }
    }
}

/// Frontmatter split at the closing line `s[q..e]`: YAML (`yaml`) or TOML.
pub open spec fn split_at(s: Seq<char>, yaml: bool, q: int, e: int, f: Seq<char>, rest: Seq<char>) -> bool {
    let o = line_len(s) as int;
    &&& trim_end(s.take(o)) == (if yaml {
        "---"@
    } else {
        "+++"@
    })
    &&& o <= q
    &&& line_at(s, q, e)
    &&& (if yaml {
        trim_end(s.subrange(q, e)) == "---"@ || trim_end(s.subrange(q, e)) == "..."@
    } else {
        trim_end(s.subrange(q, e)) == "+++"@
    })
    &&& key_line_between(
        s,
        o,
        q,
        if yaml {
            ':'
        } else {
            '='
        },
    )
    &&& f == trim(s.subrange(o, q))
    &&& rest == s.skip(e)
}

/// What `strip_frontmatter` splits off: frontmatter is found only when the
/// first line is an opening delimiter (`---` for YAML, `+++` for TOML) and
/// a later whole line is a closing one (`---` or `...`, or `+++`) with a
/// key line (`key:` or `key =`) between them; the frontmatter is the text
/// between the two delimiter lines, trimmed, and the rest is everything
/// after the closing line. With none found the document comes back whole.
pub proof fn law_frontmatter_split(s: Seq<char>)
    ensures
        frontmatter_split(s).0 is None ==> frontmatter_split(s).1 == s,
        frontmatter_split(s).0 matches Some(f) ==> exists|yaml: bool, q: int, e: int|
            #[trigger] split_at(s, yaml, q, e, f, frontmatter_split(s).1),
{
    if s.len() > 0 {
        let o = line_len(s) as int;
        let yc = seq!["---"@, "..."@];
        let tc = seq!["+++"@];
        lemma_scan_found(s, o, o, false, yc, ':');
        lemma_scan_found(s, o, o, false, tc, '=');
        match delimited(s, "---"@, yc, ':') {
            Some(found) => {
                let (q, e) = choose|q: int, e: int|
                    o <= q && #[trigger] line_at(s, q, e) && yc.contains(trim_end(s.subrange(q, e))) && found.0 == trim(
                        s.subrange(o, q),
                    ) && found.1 == s.skip(e) && (false || key_line_between(s, o, q, ':'));
                let t = trim_end(s.subrange(q, e));
                let j = choose|j: int| 0 <= j < yc.len() && yc[j] == t;
                assert(t == "---"@ || t == "..."@);
                assert(frontmatter_split(s).0 == Some(found.0));
                assert(frontmatter_split(s).1 == found.1);
                assert(split_at(s, true, q, e, frontmatter_split(s).0->0, frontmatter_split(s).1));
            },
            None => match delimited(s, "+++"@, tc, '=') {
                Some(found) => {
                    let (q, e) = choose|q: int, e: int|
                        o <= q && #[trigger] line_at(s, q, e) && tc.contains(trim_end(s.subrange(q, e))) && found.0
                            == trim(s.subrange(o, q)) && found.1 == s.skip(e) && (false || key_line_between(s, o, q, '='));
                    let t = trim_end(s.subrange(q, e));
                    let j = choose|j: int| 0 <= j < tc.len() && tc[j] == t;
                    assert(t == "+++"@);
                    assert(frontmatter_split(s).0 == Some(found.0));
                    assert(frontmatter_split(s).1 == found.1);
                    assert(split_at(s, false, q, e, frontmatter_split(s).0->0, frontmatter_split(s).1));
                },
                None => {},
            },
        }
    }
}

/// Strip YAML or TOML frontmatter from markdown source.
/// Returns (frontmatter, remaining_content).
///
/// Frontmatter is recognized only when the very first line is exactly the
/// opening delimiter (`---` for YAML, `+++` for TOML; trailing whitespace ok),
/// a later line is exactly a closing delimiter (`---` or `...` for YAML,
/// `+++` for TOML), and at least one line in between looks like a key
/// (`key:` / `key =`). Anything else is returned unchanged.
pub fn strip_frontmatter(source: &str) -> (res: (Option<String>, String))
    ensures
        res.0 matches Some(fm) ==> frontmatter_split(source@).0 == Some(fm@),
        res.0 is None ==> frontmatter_split(source@).0 is None,
        res.1@ == frontmatter_split(source@).1,
{
    let v = chars_of(source);
    let dashes = chars_of("---");
    let dots = chars_of("...");
    let pluses = chars_of("+++");
    let yaml_closers = vec![chars_of("---"), dots];
    proof {
        assert(yaml_closers@.map_values(|c: Vec<char>| c@) =~= seq!["---"@, "..."@]);
    }
    match strip_delimited(&v, &dashes, &yaml_closers, ':') {
        Some((fm, rest)) => (Some(fm), rest),
        None => {
            let toml_closers = vec![chars_of("+++")];
            proof {
                assert(toml_closers@.map_values(|c: Vec<char>| c@) =~= seq!["+++"@]);
            }
            match strip_delimited(&v, &pluses, &toml_closers, '=') {
                Some((fm, rest)) => (Some(fm), rest),
                None => (None, string_from(&v, 0, v.len())),
            }
        },
    }
}

/// Whether `v[lo..hi]` is one of `closers`.
fn is_closer(v: &[char], lo: usize, hi: usize, closers: &[Vec<char>]) -> (b: bool)
    requires
        lo <= hi <= v@.len(),
    ensures
        b == closers@.map_values(|c: Vec<char>| c@).contains(v@.subrange(lo as int, hi as int)),
{
    let ghost cl = closers@.map_values(|c: Vec<char>| c@);
    let mut i: usize = 0;
    while i < closers.len()
        invariant
            lo <= hi <= v@.len(),
            i <= closers@.len(),
            cl == closers@.map_values(|c: Vec<char>| c@),
            forall|j: int| 0 <= j < i ==> cl[j] != v@.subrange(lo as int, hi as int),
        decreases closers@.len() - i,
    {
        if range_eq(v, lo, hi, closers[i].as_slice()) {
            assert(cl[i as int] == v@.subrange(lo as int, hi as int));
            return true;
        }
        i = i + 1;
    }
    false
}

/// Length of the run of key characters starting at `lo` (before `hi`).
fn key_run(v: &[char], lo: usize, hi: usize) -> (k: usize)
    requires
        lo <= hi <= v@.len(),
    ensures
        k == key_len(v@.subrange(lo as int, hi as int)),
        lo + k <= hi,
{
    let mut k: usize = 0;
    while lo + k < hi && is_key_ascii(v[lo + k])
        invariant
            lo + k <= hi <= v@.len(),
            key_len(v@.subrange(lo as int, hi as int)) == k + key_len(
                v@.subrange(lo + k, hi as int),
            ),
        decreases hi - (lo + k),
    {
        assert(v@.subrange(lo + k, hi as int).drop_first() == v@.subrange(lo + k + 1, hi as int));
        k = k + 1;
    }
    k
}

fn is_key_ascii(c: char) -> (b: bool)
    ensures
        b == is_key_char(c),
{
    ('a' <= c && c <= 'z') || ('A' <= c && c <= 'Z') || ('0' <= c && c <= '9') || c == '_' || c
        == '-'
}

/// Whether `v[lo..hi]` is a key line for `sep`.
fn key_line_at(v: &[char], lo: usize, hi: usize, sep: char) -> (b: bool)
    requires
        lo <= hi <= v@.len(),
    ensures
        b == is_key_line(v@.subrange(lo as int, hi as int), sep),
{
    let k = key_run(v, lo, hi);
    if k == 0 {
        return false;
    }
    let ghost line = v@.subrange(lo as int, hi as int);
    assert(line.skip(k as int) == v@.subrange(lo + k, hi as int));
    let r = trim_start_at(v, lo + k, hi);
    r < hi && v[r] == sep
}

/// Frontmatter delimited by `open` and one of `closers`, keyed with `key_sep`.
fn strip_delimited(v: &[char], open: &[char], closers: &[Vec<char>], key_sep: char) -> (res: Option<
    (String, String),
>)
    ensures
        res matches Some((fm, rest)) ==> delimited(
            v@,
            open@,
            closers@.map_values(|c: Vec<char>| c@),
            key_sep,
        ) == Some((fm@, rest@)),
        res is None ==> delimited(v@, open@, closers@.map_values(|c: Vec<char>| c@), key_sep) is None,
{
    let ghost cl = closers@.map_values(|c: Vec<char>| c@);
    if v.len() == 0 {
        return None;
    }
    let first_end = line_end(v, 0);
    assert(v@.skip(0) == v@);
    let t0 = trim_end_at(v, 0, first_end);
    assert(v@.subrange(0, first_end as int) == v@.take(first_end as int));
    if !range_eq(v, 0, t0, open) {
        return None;
    }
    let mut pos = first_end;
    let mut has_key = false;
    while pos < v.len()
        invariant
            first_end <= pos <= v@.len(),
            cl == closers@.map_values(|c: Vec<char>| c@),
            delimited(v@, open@, cl, key_sep) == scan_body(
                v@,
                first_end as int,
                pos as int,
                has_key,
                cl,
                key_sep,
            ),
        decreases v@.len() - pos,
    {
        let e = line_end(v, pos);
        let t = trim_end_at(v, pos, e);
        if is_closer(v, pos, t, closers) {
            if !has_key {
                return None;
            }
            let b0 = trim_start_at(v, first_end, pos);
            let b1 = trim_end_at(v, b0, pos);
            let fm = string_from(&v, b0, b1);
            let rest = string_from(&v, e, v.len());
            proof {
                assert(v@.subrange(b0 as int, b1 as int) =~= v@.subrange(b0 as int, b1 as int));
            }
            return Some((fm, rest));
        }
        has_key = has_key || key_line_at(v, pos, t, key_sep);
        pos = e;
    }
    None
}

} // verus!
