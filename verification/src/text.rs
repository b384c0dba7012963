//! Character-level helpers shared by the text-processing modules.
use vstd::prelude::*;

verus! {

/// The characters of `s`, in order.
pub fn chars_of(s: &str) -> (res: Vec<char>)
    ensures
        res@ == s@,
{
    let mut res: Vec<char> = Vec::new();
    for c in it: s.chars()
        invariant
            res@ == it.seq().take(it.index() as int),
    {
        res.push(c);
    }
    res
}

/// Appends `c` to `s` (`String::push`): the text afterwards is the old text
/// followed by `c`.
#[verifier::external_body]
pub(crate) fn push_char(s: &mut String, c: char)
    ensures
        final(s)@ == old(s)@.push(c),
{
    s.push(c);
}

/// A `String` holding exactly the characters `v[lo..hi]`.
pub fn string_from(v: &[char], lo: usize, hi: usize) -> (res: String)
    requires
        lo <= hi <= v@.len(),
    ensures
        res@ == v@.subrange(lo as int, hi as int),
{
    let mut res = String::new();
    let mut i: usize = lo;
    while i < hi
        invariant
            lo <= i <= hi <= v@.len(),
            res@ == v@.subrange(lo as int, i as int),
        decreases hi - i,
    {
        push_char(&mut res, v[i]);
        assert(v@.subrange(lo as int, i + 1) == v@.subrange(lo as int, i as int).push(v@[i as int]));
        i = i + 1;
    }
    res
}

/// Appends `v[lo..hi]` to `s`.
pub fn push_range(s: &mut String, v: &[char], lo: usize, hi: usize)
    requires
        lo <= hi <= v@.len(),
    ensures
        final(s)@ == old(s)@ + v@.subrange(lo as int, hi as int),
{
    let ghost s0 = s@;
    let mut i: usize = lo;
    while i < hi
        invariant
            lo <= i <= hi <= v@.len(),
            s@ == s0 + v@.subrange(lo as int, i as int),
        decreases hi - i,
    {
        push_char(s, v[i]);
        assert(v@.subrange(lo as int, i + 1) == v@.subrange(lo as int, i as int).push(v@[i as int]));
        i = i + 1;
    }
}

/// Unicode `White_Space`, the set that `char::is_whitespace` and the `trim`
/// family of `str` use.
pub open spec fn is_ws(c: char) -> bool {
    ||| ('\u{9}' <= c && c <= '\u{d}')
    ||| c == ' '
    ||| c == '\u{85}'
    ||| c == '\u{a0}'
    ||| c == '\u{1680}'
    ||| ('\u{2000}' <= c && c <= '\u{200a}')
    ||| c == '\u{2028}'
    ||| c == '\u{2029}'
    ||| c == '\u{202f}'
    ||| c == '\u{205f}'
    ||| c == '\u{3000}'
}

/// `char::is_whitespace`.
pub fn is_whitespace(c: char) -> (b: bool)
    ensures
        b == is_ws(c),
{
    ('\u{9}' <= c && c <= '\u{d}') || c == ' ' || c == '\u{85}' || c == '\u{a0}' || c == '\u{1680}'
        || ('\u{2000}' <= c && c <= '\u{200a}') || c == '\u{2028}' || c == '\u{2029}' || c
        == '\u{202f}' || c == '\u{205f}' || c == '\u{3000}'
}

/// `s` without its trailing whitespace (`str::trim_end`).
pub open spec fn trim_end(s: Seq<char>) -> Seq<char>
    decreases s.len(),
{
    if s.len() > 0 && is_ws(s.last()) {
        trim_end(s.drop_last())
    } else {
        s
    }
}

/// `s` without its leading whitespace (`str::trim_start`).
pub open spec fn trim_start(s: Seq<char>) -> Seq<char>
    decreases s.len(),
{
    if s.len() > 0 && is_ws(s[0]) {
        trim_start(s.drop_first())
    } else {
        s
    }
}

/// `s` without leading and trailing whitespace (`str::trim`).
pub open spec fn trim(s: Seq<char>) -> Seq<char> {
    trim_end(trim_start(s))
}

/// End of the trimmed range: `v[lo..r]` is `trim_end(v[lo..hi])`.
pub fn trim_end_at(v: &[char], lo: usize, hi: usize) -> (r: usize)
    requires
        lo <= hi <= v@.len(),
    ensures
        lo <= r <= hi,
        trim_end(v@.subrange(lo as int, hi as int)) == v@.subrange(lo as int, r as int),
{
    let mut r = hi;
    while r > lo && is_whitespace(v[r - 1])
        invariant
            lo <= r <= hi <= v@.len(),
            trim_end(v@.subrange(lo as int, hi as int)) == trim_end(v@.subrange(lo as int, r as int)),
        decreases r,
    {
        assert(v@.subrange(lo as int, r as int).drop_last() == v@.subrange(lo as int, r - 1));
        r = r - 1;
    }
    r
}

/// Start of the trimmed range: `v[r..hi]` is `trim_start(v[lo..hi])`.
pub fn trim_start_at(v: &[char], lo: usize, hi: usize) -> (r: usize)
    requires
        lo <= hi <= v@.len(),
    ensures
        lo <= r <= hi,
        trim_start(v@.subrange(lo as int, hi as int)) == v@.subrange(r as int, hi as int),
{
    let mut r = lo;
    while r < hi && is_whitespace(v[r])
        invariant
            lo <= r <= hi <= v@.len(),
            trim_start(v@.subrange(lo as int, hi as int)) == trim_start(v@.subrange(r as int, hi as int)),
        decreases hi - r,
    {
        assert(v@.subrange(r as int, hi as int).drop_first() == v@.subrange(r + 1, hi as int));
        r = r + 1;
    }
    r
}

/// Whether `v[lo..hi]` is exactly `pat`.
pub fn range_eq(v: &[char], lo: usize, hi: usize, pat: &[char]) -> (b: bool)
    requires
        lo <= hi <= v@.len(),
    ensures
        b == (v@.subrange(lo as int, hi as int) == pat@),
{
    if hi - lo != pat.len() {
        return false;
    }
    let mut i: usize = 0;
    while i < pat.len()
        invariant
            hi - lo == pat@.len(),
            lo <= hi <= v@.len(),
            i <= pat@.len(),
            forall|j: int| 0 <= j < i ==> v@[lo + j] == pat@[j],
        decreases pat@.len() - i,
    {
        if v[lo + i] != pat[i] {
            assert(v@.subrange(lo as int, hi as int)[i as int] != pat@[i as int]);
            return false;
        }
        i = i + 1;
    }
    assert(v@.subrange(lo as int, hi as int) =~= pat@);
    true
}

/// Number of characters of the first line of `s`, its `\n` included
/// (`str::split_inclusive('\n')`).
pub open spec fn line_len(s: Seq<char>) -> nat
    decreases s.len(),
{
    if s.len() == 0 {
        0
    } else if s[0] == '\n' {
        1
    } else {
        1 + line_len(s.drop_first())
    }
}

pub proof fn lemma_line_len_bound(s: Seq<char>)
    ensures
        line_len(s) <= s.len(),
        s.len() > 0 ==> line_len(s) >= 1,
    decreases s.len(),
{
    if s.len() > 0 && s[0] != '\n' {
        lemma_line_len_bound(s.drop_first());
    }
}

/// End (exclusive) of the line starting at `pos`: one past its `\n`, or the
/// end of `v`.
pub fn line_end(v: &[char], pos: usize) -> (e: usize)
    requires
        pos <= v@.len(),
    ensures
        e == pos + line_len(v@.skip(pos as int)),
        pos <= e <= v@.len(),
        pos < v@.len() ==> pos < e,
{
    let mut e = pos;
    proof {
        lemma_line_len_bound(v@.skip(pos as int));
    }
    while e < v.len() && v[e] != '\n'
        invariant
            pos <= e <= v@.len(),
            line_len(v@.skip(pos as int)) == (e - pos) + line_len(v@.skip(e as int)),
        decreases v@.len() - e,
    {
        assert(v@.skip(e as int).drop_first() == v@.skip(e + 1));
        e = e + 1;
    }
    if e < v.len() {
        e = e + 1;
    }
    e
}

/// Number of leading `ch` of `t`.
pub open spec fn leading_run(t: Seq<char>, ch: char) -> nat
    decreases t.len(),
{
    if t.len() > 0 && t[0] == ch {
        1 + leading_run(t.drop_first(), ch)
    } else {
        0
    }
}

/// A copy of `v[lo..hi]`.
pub fn sub_vec(v: &[char], lo: usize, hi: usize) -> (res: Vec<char>)
    requires
        lo <= hi <= v@.len(),
    ensures
        res@ == v@.subrange(lo as int, hi as int),
{
    let mut res: Vec<char> = Vec::new();
    let mut i = lo;
    while i < hi
        invariant
            lo <= i <= hi <= v@.len(),
            res@ == v@.subrange(lo as int, i as int),
        decreases hi - i,
    {
        res.push(v[i]);
        i = i + 1;
    }
    res
}

/// Number of leading `ch` in `v[lo..hi]`.
pub fn leading_run_at(v: &[char], lo: usize, hi: usize, ch: char) -> (r: usize)
    requires
        lo <= hi <= v@.len(),
    ensures
        r == leading_run(v@.subrange(lo as int, hi as int), ch),
{
    let mut k: usize = 0;
    while lo + k < hi && v[lo + k] == ch
        invariant
            lo + k <= hi <= v@.len(),
            leading_run(v@.subrange(lo as int, hi as int), ch) == k + leading_run(
                v@.subrange(lo + k, hi as int),
                ch,
            ),
        decreases hi - (lo + k),
    {
        assert(v@.subrange(lo + k, hi as int).drop_first() == v@.subrange(lo + k + 1, hi as int));
        k = k + 1;
    }
    k
}

/// Whether every character of `v[lo..hi]` is `ch`.
pub fn all_same(v: &[char], lo: usize, hi: usize, ch: char) -> (b: bool)
    requires
        lo <= hi <= v@.len(),
    ensures
        b == (forall|k: int|
            0 <= k < v@.subrange(lo as int, hi as int).len() ==> v@.subrange(
                lo as int,
                hi as int,
            )[k] == ch),
{
    let mut i = lo;
    while i < hi
        invariant
            lo <= i <= hi <= v@.len(),
            forall|k: int| lo <= k < i ==> v@[k] == ch,
        decreases hi - i,
    {
        if v[i] != ch {
            assert(v@.subrange(lo as int, hi as int)[i - lo] != ch);
            return false;
        }
        i = i + 1;
    }
    true
}

/// Whether `v[lo..hi]` holds `c`.
pub fn range_contains(v: &[char], lo: usize, hi: usize, c: char) -> (b: bool)
    requires
        lo <= hi <= v@.len(),
    ensures
        b == v@.subrange(lo as int, hi as int).contains(c),
{
    let mut i = lo;
    while i < hi
        invariant
            lo <= i <= hi <= v@.len(),
            forall|k: int| lo <= k < i ==> v@[k] != c,
        decreases hi - i,
    {
        if v[i] == c {
            assert(v@.subrange(lo as int, hi as int)[i - lo] == c);
            return true;
        }
        i = i + 1;
    }
    assert(!v@.subrange(lo as int, hi as int).contains(c)) by {
        if v@.subrange(lo as int, hi as int).contains(c) {
            let k = choose|k: int|
                0 <= k < v@.subrange(lo as int, hi as int).len() && v@.subrange(
                    lo as int,
                    hi as int,
                )[k] == c;
            assert(v@[lo + k] == c);
        }
    }
    false
}

/// A line of `str::lines` from its `split_inclusive('\n')` piece: without
/// the `\n`, and without a `\r` right before it.
pub open spec fn strip_eol(l: Seq<char>) -> Seq<char> {
    if l.len() > 0 && l.last() == '\n' {
        let m = l.drop_last();
        if m.len() > 0 && m.last() == '\r' {
            m.drop_last()
        } else {
            m
        }
    } else {
        l
    }
}

/// `str::lines`: the lines of `s`, without their line endings; a final line
/// ending does not start an empty line.
pub open spec fn lines_of(s: Seq<char>) -> Seq<Seq<char>>
    decreases s.len(),
{
    if s.len() == 0 {
        seq![]
    } else {
        let e = line_len(s);
        proof {
            lemma_line_len_bound(s);
        }
        seq![strip_eol(s.take(e as int))] + lines_of(s.skip(e as int))
    }
}

/// End of the content of the line `v[pos..e)` (an inclusive line piece): the
/// `\n` and a `\r` before it left out.
pub fn content_end(v: &[char], pos: usize, e: usize) -> (c: usize)
    requires
        pos <= e <= v@.len(),
    ensures
        pos <= c <= e,
        v@.subrange(pos as int, c as int) == strip_eol(v@.subrange(pos as int, e as int)),
{
    let ghost l = v@.subrange(pos as int, e as int);
    if e > pos && v[e - 1] == '\n' {
        assert(l.drop_last() == v@.subrange(pos as int, e - 1));
        if e - 1 > pos && v[e - 2] == '\r' {
            assert(l.drop_last().drop_last() == v@.subrange(pos as int, e - 2));
            e - 2
        } else {
            e - 1
        }
    } else {
        e
    }
}

/// Lines of `v[pos..]` are the line starting at `pos` followed by the lines
/// after it.
pub proof fn lemma_lines_step(v: Seq<char>, pos: int)
    requires
        0 <= pos < v.len(),
    ensures
        lines_of(v.skip(pos)) == seq![
            strip_eol(v.subrange(pos, pos + line_len(v.skip(pos))))
        ] + lines_of(v.skip(pos + line_len(v.skip(pos)))),
{
    let s = v.skip(pos);
    let e = line_len(s);
    lemma_line_len_bound(s);
    assert(s.take(e as int) == v.subrange(pos, pos + e));
    assert(s.skip(e as int) == v.skip(pos + e));
}

/// The lines of `v` (`str::lines`).
pub fn split_lines(v: &[char]) -> (res: Vec<Vec<char>>)
    ensures
        res@.map_values(|l: Vec<char>| l@) == lines_of(v@),
{
    let mut res: Vec<Vec<char>> = Vec::new();
    let mut pos: usize = 0;
    assert(v@.skip(0) == v@);
    while pos < v.len()
        invariant
            pos <= v@.len(),
            lines_of(v@) == res@.map_values(|l: Vec<char>| l@) + lines_of(v@.skip(pos as int)),
        decreases v@.len() - pos,
    {
        let e = line_end(v, pos);
        let c = content_end(v, pos, e);
        proof {
            lemma_lines_step(v@, pos as int);
        }
        let line = sub_vec(v, pos, c);
        let ghost before = res@.map_values(|l: Vec<char>| l@);
        res.push(line);
        assert(res@.map_values(|l: Vec<char>| l@) == before.push(line@));
        pos = e;
    }
    assert(v@.skip(pos as int) == Seq::<char>::empty());
    assert(lines_of(Seq::<char>::empty()) == Seq::<Seq<char>>::empty());
    assert(res@.map_values(|l: Vec<char>| l@) + Seq::<Seq<char>>::empty() == res@.map_values(|l: Vec<char>| l@));
    res
}

/// ASCII lowercase of `c` (`char::to_ascii_lowercase`).
pub open spec fn ascii_lower(c: char) -> char {
    if 'A' <= c && c <= 'Z' {
        ((c as u32) + 32) as char
    } else {
        c
    }
}

/// `char::to_ascii_lowercase`.
pub fn to_ascii_lower(c: char) -> (r: char)
    ensures
        r == ascii_lower(c),
{
    if 'A' <= c && c <= 'Z' {
        ((c as u8) + 32) as char
    } else {
        c
    }
}

/// `s` with ASCII letters lowercased (`str::to_ascii_lowercase`).
pub open spec fn lower_seq(s: Seq<char>) -> Seq<char> {
    s.map_values(|c: char| ascii_lower(c))
}

/// Whether `v[lo..hi]` starts with `pat` once ASCII-lowercased.
pub fn starts_with_lower(v: &[char], lo: usize, hi: usize, pat: &[char]) -> (b: bool)
    requires
        lo <= hi <= v@.len(),
    ensures
        b == (pat@.len() <= hi - lo && lower_seq(v@.subrange(lo as int, hi as int)).take(
            pat@.len() as int,
        ) == pat@),
{
    if pat.len() > hi - lo {
        return false;
    }
    let ghost low = lower_seq(v@.subrange(lo as int, hi as int));
    let mut i: usize = 0;
    while i < pat.len()
        invariant
            pat@.len() <= hi - lo,
            lo <= hi <= v@.len(),
            i <= pat@.len(),
            low == lower_seq(v@.subrange(lo as int, hi as int)),
            forall|j: int| 0 <= j < i ==> low[j] == pat@[j],
        decreases pat@.len() - i,
    {
        if to_ascii_lower(v[lo + i]) != pat[i] {
            assert(low.take(pat@.len() as int)[i as int] != pat@[i as int]);
            return false;
        }
        i = i + 1;
    }
    assert(low.take(pat@.len() as int) =~= pat@);
    true
}

/// Index of the first `c` in `s`, or `s.len()` when there is none.
pub open spec fn first_index(s: Seq<char>, c: char) -> nat
    decreases s.len(),
{
    if s.len() == 0 {
        0
    } else if s[0] == c {
        0
    } else {
        1 + first_index(s.drop_first(), c)
    }
}

/// Index of the first `c` in `v[lo..hi]`, relative to `lo`.
pub fn first_index_at(v: &[char], lo: usize, hi: usize, c: char) -> (p: usize)
    requires
        lo <= hi <= v@.len(),
    ensures
        p == first_index(v@.subrange(lo as int, hi as int), c),
        lo + p <= hi,
{
    let mut p: usize = 0;
    while lo + p < hi && v[lo + p] != c
        invariant
            lo + p <= hi <= v@.len(),
            first_index(v@.subrange(lo as int, hi as int), c) == p + first_index(
                v@.subrange(lo + p, hi as int),
                c,
            ),
        decreases hi - (lo + p),
    {
        assert(v@.subrange(lo + p, hi as int).drop_first() == v@.subrange(lo + p + 1, hi as int));
        p = p + 1;
    }
    p
}


/// `String::from_utf8(bytes).ok()`: the text that `bytes` encode, when they
/// are well-formed UTF-8, else `None`.
#[verifier::external_body]
pub(crate) fn string_from_utf8(bytes: Vec<u8>) -> (res: Option<String>)
    ensures
        res is Some <==> vstd::utf8::valid_utf8(bytes@),
        res matches Some(s) ==> s@ == vstd::utf8::decode_utf8(bytes@),
{
    String::from_utf8(bytes).ok()
}

/// The lines joined with `\n` (`[&str]::join("\n")`).
pub open spec fn join_lines(ls: Seq<Seq<char>>) -> Seq<char>
    decreases ls.len(),
{
    if ls.len() == 0 {
        seq![]
    } else if ls.len() == 1 {
        ls[0]
    } else {
        join_lines(ls.drop_last()) + seq!['\n'] + ls.last()
    }
}


/// The texts of `lines` joined with `\n`.
pub fn join_with_newline(lines: &Vec<String>) -> (res: String)
    ensures
        res@ == join_lines(lines@.map_values(|x: String| x@)),
{
    let ghost ls = lines@.map_values(|x: String| x@);
    let mut res = String::new();
    let mut i: usize = 0;
    while i < lines.len()
        invariant
            i <= lines@.len(),
            ls == lines@.map_values(|x: String| x@),
            res@ == join_lines(ls.take(i as int)),
        decreases lines@.len() - i,
    {
        proof {
            assert(ls.take(i + 1).drop_last() =~= ls.take(i as int));
            assert(ls.take(i + 1).last() == lines@[i as int]@);
        }
        if i > 0 {
            res.append("\n");
            proof {
                reveal_strlit("\n");
            }
        }
        res.append(lines[i].as_str());
        i = i + 1;
    }
    assert(ls.take(lines@.len() as int) =~= ls);
    res
}

/// `s` without its trailing whitespace, as a new `String` (`str::trim_end`).
pub fn trimmed_end(s: &str) -> (res: String)
    ensures
        res@ == trim_end(s@),
{
    let v = chars_of(s);
    let r = trim_end_at(&v, 0, v.len());
    assert(v@.subrange(0, v@.len() as int) =~= v@);
    string_from(&v, 0, r)
}
/// `pat` occurs in `s` at `i`.
pub open spec fn occurs_at(s: Seq<char>, pat: Seq<char>, i: int) -> bool {
    0 <= i && i + pat.len() <= s.len() && s.subrange(i, i + pat.len()) == pat
}

/// The first index from `i` on where `pat` occurs in `s` (`str::find`).
pub open spec fn find_from(s: Seq<char>, pat: Seq<char>, i: int) -> Option<int>
    decreases s.len() + 1 - i,
{
    if i < 0 || i + pat.len() > s.len() {
        None
    } else if occurs_at(s, pat, i) {
        Some(i)
    } else {
        find_from(s, pat, i + 1)
    }
}

pub proof fn lemma_find_from(s: Seq<char>, pat: Seq<char>, i: int)
    ensures
        find_from(s, pat, i) matches Some(j) ==> i <= j && occurs_at(s, pat, j),
    decreases s.len() + 1 - i,
{
    if !(i < 0 || i + pat.len() > s.len()) && !occurs_at(s, pat, i) {
        lemma_find_from(s, pat, i + 1);
    }
}

/// First index at or after `lo` where `pat` occurs in `v`.
pub fn find_at(v: &Vec<char>, lo: usize, pat: &Vec<char>) -> (r: Option<usize>)
    requires
        lo <= v@.len(),
        pat@.len() > 0,
    ensures
        match r {
            Some(j) => lo <= j && find_from(v@.subrange(lo as int, v@.len() as int), pat@, 0) == Some(
                j - lo,
            ),
            None => find_from(v@.subrange(lo as int, v@.len() as int), pat@, 0) is None,
        },
{
    let ghost sub = v@.subrange(lo as int, v@.len() as int);
    let n = v.len();
    let m = pat.len();
    let mut i = lo;
    while i <= n && n - i >= m
        invariant
            lo <= i,
            n == v@.len(),
            m == pat@.len(),
            m > 0,
            sub == v@.subrange(lo as int, n as int),
            find_from(sub, pat@, 0) == find_from(sub, pat@, i - lo),
        decreases n - i,
    {
        let hit = range_eq(v, i, i + m, pat);
        proof {
            assert(sub.subrange(i - lo, i - lo + m) =~= v@.subrange(i as int, i + m));
        }
        if hit {
            return Some(i);
        }
        i = i + 1;
    }
    None
}

/// Whether `pat` occurs anywhere in `v` (`str::contains`).
pub fn contains_seq(v: &Vec<char>, pat: &Vec<char>) -> (b: bool)
    requires
        pat@.len() > 0,
    ensures
        b == (exists|i: int| occurs_at(v@, pat@, i)),
{
    let r = find_at(v, 0, pat);
    proof {
        assert(v@.subrange(0, v@.len() as int) =~= v@);
        lemma_find_from(v@, pat@, 0);
        lemma_find_from_none(v@, pat@, 0);
    }
    r.is_some()
}

/// When `find_from` finds nothing, `pat` occurs nowhere from `i` on.
pub proof fn lemma_find_from_none(s: Seq<char>, pat: Seq<char>, i: int)
    requires
        i >= 0,
    ensures
        find_from(s, pat, i) is None ==> forall|j: int| j >= i ==> !occurs_at(s, pat, j),
    decreases s.len() + 1 - i,
{
    if !(i + pat.len() > s.len()) && !occurs_at(s, pat, i) {
        lemma_find_from_none(s, pat, i + 1);
    }
}

/// `s` with ASCII letters lowercased, as characters.
pub fn lower_chars(s: &str) -> (res: Vec<char>)
    ensures
        res@ == lower_seq(s@),
{
    let v = chars_of(s);
    let mut out: Vec<char> = Vec::new();
    let mut i: usize = 0;
    while i < v.len()
        invariant
            v@ == s@,
            i <= v@.len(),
            out@ == lower_seq(v@.take(i as int)),
        decreases v@.len() - i,
    {
        out.push(to_ascii_lower(v[i]));
        proof {
            assert(lower_seq(v@.take(i + 1)) =~= lower_seq(v@.take(i as int)).push(ascii_lower(v@[i as int])));
        }
        i = i + 1;
    }
    assert(v@.take(v@.len() as int) =~= v@);
    out
}

/// Whether `v` equals `pat` once ASCII-lowercased (`str::eq_ignore_ascii_case`
/// against a lowercase ASCII `pat`).
pub fn eq_lower(v: &[char], pat: &[char]) -> (b: bool)
    ensures
        b == (lower_seq(v@) == pat@),
{
    if v.len() != pat.len() {
        return false;
    }
    let r = starts_with_lower(v, 0, v.len(), pat);
    proof {
        assert(v@.subrange(0, v@.len() as int) =~= v@);
        assert(lower_seq(v@).take(pat@.len() as int) =~= lower_seq(v@));
    }
    r
}

/// Whether `v` is exactly `pat`.
pub fn seq_eq(v: &[char], pat: &[char]) -> (b: bool)
    ensures
        b == (v@ == pat@),
{
    let r = range_eq(v, 0, v.len(), pat);
    assert(v@.subrange(0, v@.len() as int) =~= v@);
    r
}
/// The pieces of `s` between occurrences of `c` (`str::split(c)`): one more
/// piece than there are separators, empty pieces included.
pub open spec fn split_on(s: Seq<char>, c: char) -> Seq<Seq<char>>
    decreases s.len(),
{
    if s.len() == 0 {
        seq![seq![]]
    } else {
        let p = split_on(s.drop_last(), c);
        if s.last() == c {
            p.push(seq![])
        } else {
            p.drop_last().push(p.last().push(s.last()))
        }
    }
}

pub proof fn lemma_split_on_len(s: Seq<char>, c: char)
    ensures
        split_on(s, c).len() >= 1,
    decreases s.len(),
{
    if s.len() > 0 {
        lemma_split_on_len(s.drop_last(), c);
    }
}


/// The pieces of `text` between occurrences of `sep` (`text.split(sep)`).
pub fn split_by(text: &str, sep: char) -> (res: Vec<String>)
    ensures
        res@.map_values(|w: String| w@) == split_on(text@, sep),
        res@.len() >= 1,
{
    let v = chars_of(text);
    let mut out: Vec<String> = Vec::new();
    let mut cur = String::new();
    let mut i: usize = 0;
    proof {
        assert(v@.take(0) =~= Seq::<char>::empty());
        assert(out@.map_values(|w: String| w@).push(cur@) =~= seq![Seq::<char>::empty()]);
    }
    while i < v.len()
        invariant
            i <= v@.len(),
            v@ == text@,
            out@.map_values(|w: String| w@).push(cur@) == split_on(v@.take(i as int), sep),
        decreases v@.len() - i,
    {
        let ghost before = out@.map_values(|w: String| w@);
        proof {
            assert(v@.take(i + 1).drop_last() =~= v@.take(i as int));
            assert(v@.take(i + 1).last() == v@[i as int]);
            let p = split_on(v@.take(i as int), sep);
            assert(p.drop_last() =~= before);
            assert(p.last() == cur@);
        }
        if v[i] == sep {
            let done = cur;
            out.push(done);
            cur = String::new();
            proof {
                assert(out@.map_values(|w: String| w@).push(cur@) =~= before.push(done@).push(
                    Seq::<char>::empty(),
                ));
            }
        } else {
            push_char(&mut cur, v[i]);
            proof {
                assert(out@.map_values(|w: String| w@).push(cur@) =~= before.push(cur@));
            }
        }
        i = i + 1;
    }
    proof {
        assert(v@.take(v@.len() as int) =~= v@);
    }
    let ghost before = out@.map_values(|w: String| w@);
    let last = cur;
    out.push(last);
    proof {
        assert(out@.map_values(|w: String| w@) =~= before.push(last@));
    }
    out
}

/// The Unicode lowercase of `s` (`str::to_lowercase`).
pub uninterp spec fn unicode_lower(s: Seq<char>) -> Seq<char>;

/// Calls `str::to_lowercase`. Claimed: the result is `unicode_lower` of `s`,
/// and on an all-ASCII string it is the ASCII lowercase (Unicode maps the
/// ASCII capitals to the ASCII small letters and leaves the rest of ASCII
/// alone).
#[verifier::external_body]
pub(crate) fn lowercase(s: &str) -> (res: String)
    ensures
        res@ == unicode_lower(s@),
        (forall|i: int| 0 <= i < s@.len() ==> (#[trigger] s@[i] as u32) < 128) ==> res@ == lower_seq(s@),
{
    s.to_lowercase()
}

/// ASCII uppercase of `c` (`char::to_ascii_uppercase`).
pub open spec fn ascii_upper(c: char) -> char {
    if 'a' <= c && c <= 'z' {
        ((c as u32) - 32) as char
    } else {
        c
    }
}

/// `s` with ASCII letters uppercased.
pub open spec fn upper_seq(s: Seq<char>) -> Seq<char> {
    s.map_values(|c: char| ascii_upper(c))
}

/// The Unicode uppercase of `s` (`str::to_uppercase`).
pub uninterp spec fn unicode_upper(s: Seq<char>) -> Seq<char>;

/// Calls `str::to_uppercase`. Claimed: the result is `unicode_upper` of `s`,
/// and on an all-ASCII string it is the ASCII uppercase (Unicode maps the
/// ASCII small letters to the ASCII capitals and leaves the rest of ASCII
/// alone).
#[verifier::external_body]
pub(crate) fn uppercase(s: &str) -> (res: String)
    ensures
        res@ == unicode_upper(s@),
        (forall|i: int| 0 <= i < s@.len() ==> (#[trigger] s@[i] as u32) < 128) ==> res@ == upper_seq(s@),
{
    s.to_uppercase()
}


/// The Unicode lowercase of one character (`char::to_lowercase`).
pub uninterp spec fn char_lower(c: char) -> Seq<char>;

/// Calls `char::to_lowercase` and collects it. Claimed: the result is
/// `char_lower` of `c`; an ASCII character lowercases to its ASCII
/// lowercase alone.
#[verifier::external_body]
pub(crate) fn char_lowercase(c: char) -> (res: String)
    ensures
        res@ == char_lower(c),
        (c as u32) < 128 ==> res@ == seq![ascii_lower(c)],
{
    c.to_lowercase().collect()
}

} // verus!
