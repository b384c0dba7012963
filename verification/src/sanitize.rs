//! Sanitization of untrusted markdown content before it reaches the terminal.
//!
//! Markdown files are untrusted input: raw ESC bytes in text or code blocks
//! could rewrite the window title, move the cursor, spoof hyperlinks, or (on
//! some terminals) write the clipboard. Text headed for the screen is
//! stripped of control characters, and link destinations are held to a short
//! list of schemes.
use crate::text::{
    ascii_lower, chars_of, first_index, first_index_at, lower_seq, push_char, range_contains,
    starts_with_lower, string_from, string_from_utf8,
};
use std::borrow::Cow;
use vstd::prelude::*;
use vstd::utf8::{decode_utf8, encode_utf8, valid_utf8};

verus! {

/// `char::is_control`: the Unicode `Cc` category, U+0000–U+001F and
/// U+007F–U+009F.
pub open spec fn is_control(c: char) -> bool {
    c <= '\u{1f}' || ('\u{7f}' <= c && c <= '\u{9f}')
}

/// A character allowed on screen: tab, or anything but a control character
/// (C0, DEL, C1).
pub open spec fn allowed_char(c: char) -> bool {
    c == '\t' || !(is_control(c) || ('\u{80}' <= c && c <= '\u{9f}'))
}

/// `s` with every disallowed character removed.
pub open spec fn keep_allowed(s: Seq<char>) -> Seq<char>
    decreases s.len(),
{
    if s.len() == 0 {
        seq![]
    } else if allowed_char(s.last()) {
        keep_allowed(s.drop_last()).push(s.last())
    } else {
        keep_allowed(s.drop_last())
    }
}

/// Whether every character of `s` is allowed.
pub open spec fn all_allowed(s: Seq<char>) -> bool {
    forall|i: int| 0 <= i < s.len() ==> allowed_char(#[trigger] s[i])
}

fn is_allowed_char(c: char) -> (b: bool)
    ensures
        b == allowed_char(c),
{
    c == '\t' || !(c <= '\u{1f}' || ('\u{7f}' <= c && c <= '\u{9f}') || ('\u{80}' <= c && c
        <= '\u{9f}'))
}

pub proof fn lemma_keep_allowed_all(s: Seq<char>)
    requires
        all_allowed(s),
    ensures
        keep_allowed(s) == s,
    decreases s.len(),
{
    if s.len() > 0 {
        assert(all_allowed(s.drop_last()));
        lemma_keep_allowed_all(s.drop_last());
        assert(allowed_char(s[s.len() - 1]));
        assert(s.drop_last().push(s.last()) == s);
    }
}

/// Strip terminal control characters from text destined for the screen.
///
/// Removes ESC, C0 controls (except `\t`), DEL, and C1 controls
/// (U+0080–U+009F). Newlines are stripped too: layout emits spans that never
/// span lines, so an embedded `\n` is itself suspect. Clean text is handed
/// back borrowed.
pub fn sanitize_text(s: &str) -> (res: Cow<'_, str>)
    ensures
        res@ == keep_allowed(s@),
        res is Borrowed <==> all_allowed(s@),
{
    let v = chars_of(s);
    let mut out: Vec<char> = Vec::new();
    let mut clean = true;
    let mut i: usize = 0;
    while i < v.len()
        invariant
            i <= v@.len(),
            out@ == keep_allowed(v@.take(i as int)),
            clean == all_allowed(v@.take(i as int)),
        decreases v@.len() - i,
    {
        assert(v@.take(i + 1).drop_last() == v@.take(i as int));
        if is_allowed_char(v[i]) {
            out.push(v[i]);
        } else {
            clean = false;
        }
        proof {
            if clean {
                assert forall|k: int| 0 <= k < i + 1 implies allowed_char(
                    #[trigger] v@.take(i + 1)[k],
                ) by {
                    if k < i {
                        assert(v@.take(i + 1)[k] == v@.take(i as int)[k]);
                    }
                }
            } else if !allowed_char(v@[i as int]) {
                assert(!allowed_char(v@.take(i + 1)[i as int]));
            } else {
                assert(!all_allowed(v@.take(i as int)));
                let k = choose|k: int| 0 <= k < i && !allowed_char(#[trigger] v@.take(i as int)[k]);
                assert(v@.take(i + 1)[k] == v@.take(i as int)[k]);
            }
        }
        i = i + 1;
    }
    assert(v@.take(v@.len() as int) == v@);
    if clean {
        proof {
            lemma_keep_allowed_all(s@);
        }
        Cow::Borrowed(s)
    } else {
        Cow::Owned(string_from(&out, 0, out.len()))
    }
}

/// Index of the first `/`, `?` or `#` of `s`, or `s.len()`.
pub open spec fn path_start(s: Seq<char>) -> nat
    decreases s.len(),
{
    if s.len() == 0 || s[0] == '/' || s[0] == '?' || s[0] == '#' {
        0
    } else {
        1 + path_start(s.drop_first())
    }
}

/// `[A-Za-z]`.
pub open spec fn is_ascii_alpha(c: char) -> bool {
    ('a' <= c && c <= 'z') || ('A' <= c && c <= 'Z')
}

/// A character of a URL scheme: `[A-Za-z0-9+.-]`.
pub open spec fn is_scheme_char(c: char) -> bool {
    is_ascii_alpha(c) || ('0' <= c && c <= '9') || c == '+' || c == '.' || c == '-'
}

/// A URL scheme: an ASCII letter followed by scheme characters.
pub open spec fn scheme_like(sc: Seq<char>) -> bool {
    sc.len() > 0 && is_ascii_alpha(sc[0]) && forall|k: int|
        0 <= k < sc.len() ==> is_scheme_char(#[trigger] sc[k])
}

/// Whether `s` names a scheme: a `:` before any `/`, `?` or `#`, preceded by
/// a scheme-like run.
pub open spec fn has_scheme(s: Seq<char>) -> bool {
    let head = s.take(path_start(s) as int);
    let colon = first_index(head, ':');
    colon < head.len() && scheme_like(head.take(colon as int))
}

/// `http://`, `https://` or `mailto:`, in any ASCII case.
pub open spec fn web_scheme(s: Seq<char>) -> bool {
    let l = lower_seq(s);
    starts_with(l, "http://"@) || starts_with(l, "https://"@) || starts_with(l, "mailto:"@)
}

/// Whether `s` begins with `p`.
pub open spec fn starts_with(s: Seq<char>, p: Seq<char>) -> bool {
    p.len() <= s.len() && s.take(p.len() as int) == p
}

/// Whether `s` holds a control character.
pub open spec fn has_control(s: Seq<char>) -> bool {
    exists|i: int| 0 <= i < s.len() && is_control(#[trigger] s[i])
}

/// `s` without its leading blanks (characters up to U+0020), which URL
/// parsers strip before reading the scheme.
pub open spec fn lead_trimmed(s: Seq<char>) -> Seq<char>
    decreases s.len(),
{
    if s.len() > 0 && s[0] <= ' ' {
        lead_trimmed(s.drop_first())
    } else {
        s
    }
}

/// A link destination that may be emitted or followed: no control
/// characters, and, once leading blanks are stripped, either a web/mail
/// scheme or no scheme at all (so ` javascript:` is refused like
/// `javascript:`).
pub open spec fn url_allowed(s: Seq<char>) -> bool {
    !has_control(s) && (web_scheme(lead_trimmed(s)) || !has_scheme(lead_trimmed(s)))
}

/// Validate and clean a link destination before it is emitted as an OSC 8
/// hyperlink or acted upon (open in browser / follow).
///
/// Control characters are rejected outright (a String Terminator inside a URL
/// can close the OSC 8 sequence early and inject arbitrary escapes). Allowed
/// schemes are `http`, `https`, and `mailto`; scheme-less values (relative
/// paths, absolute paths, `#anchors`) pass through. Everything else —
/// `file:`, `javascript:`, `data:`, custom schemes — is rejected. The scheme
/// is read after leading blanks, as a URL parser reads it.
pub fn sanitize_url(url: &str) -> (res: Option<String>)
    ensures
        res is Some <==> url_allowed(url@),
        res matches Some(u) ==> u@ == url@,
{
    let v = chars_of(url);
    let n = v.len();
    let mut i: usize = 0;
    while i < n
        invariant
            n == v@.len(),
            v@ == url@,
            i <= n,
            forall|k: int| 0 <= k < i ==> !is_control(#[trigger] v@[k]),
        decreases n - i,
    {
        let c = v[i];
        if c <= '\u{1f}' || ('\u{7f}' <= c && c <= '\u{9f}') {
            assert(is_control(url@[i as int]));
            return None;
        }
        i = i + 1;
    }
    let mut st: usize = 0;
    assert(v@.skip(0) == v@);
    while st < n && v[st] <= ' '
        invariant
            n == v@.len(),
            st <= n,
            lead_trimmed(v@) == lead_trimmed(v@.skip(st as int)),
        decreases n - st,
    {
        assert(v@.skip(st as int).drop_first() == v@.skip(st + 1));
        st = st + 1;
    }
    let w = crate::text::sub_vec(&v, st, n);
    assert(w@ == v@.skip(st as int));
    assert(w@ == lead_trimmed(v@));
    let m = w.len();
    assert(w@.subrange(0, m as int) == w@);
    let http = chars_of("http://");
    let https = chars_of("https://");
    let mailto = chars_of("mailto:");
    assert(v@.subrange(0, n as int) == v@);
    if starts_with_lower(&w, 0, m, &http) || starts_with_lower(&w, 0, m, &https)
        || starts_with_lower(&w, 0, m, &mailto) {
        return Some(string_from(&v, 0, n));
    }
    let head = head_len(&w);
    assert(w@.take(head as int) == w@.subrange(0, head as int));
    let colon = first_index_at(&w, 0, head, ':');
    if colon < head {
        assert(w@.take(head as int).take(colon as int) == w@.subrange(0, colon as int));
        if scheme_like_at(&w, colon) {
            return None;
        }
    }
    Some(string_from(&v, 0, n))
}

/// Length of the part of `v` before the first `/`, `?` or `#`.
fn head_len(v: &[char]) -> (h: usize)
    ensures
        h == path_start(v@),
        h <= v@.len(),
{
    let mut h: usize = 0;
    let n = v.len();
    assert(v@.skip(0) == v@);
    while h < n && v[h] != '/' && v[h] != '?' && v[h] != '#'
        invariant
            n == v@.len(),
            h <= n,
            path_start(v@) == h + path_start(v@.skip(h as int)),
        decreases n - h,
    {
        assert(v@.skip(h as int).drop_first() == v@.skip(h + 1));
        h = h + 1;
    }
    h
}

/// Whether `v[..len]` is scheme-like.
fn scheme_like_at(v: &[char], len: usize) -> (b: bool)
    requires
        len <= v@.len(),
    ensures
        b == scheme_like(v@.subrange(0, len as int)),
{
    if len == 0 {
        return false;
    }
    let c0 = v[0];
    if !(('a' <= c0 && c0 <= 'z') || ('A' <= c0 && c0 <= 'Z')) {
        return false;
    }
    let mut i: usize = 0;
    while i < len
        invariant
            len <= v@.len(),
            i <= len,
            forall|k: int| 0 <= k < i ==> is_scheme_char(#[trigger] v@[k]),
        decreases len - i,
    {
        let c = v[i];
        if !(('a' <= c && c <= 'z') || ('A' <= c && c <= 'Z') || ('0' <= c && c <= '9') || c == '+'
            || c == '.' || c == '-') {
            assert(!is_scheme_char(v@.subrange(0, len as int)[i as int]));
            return false;
        }
        i = i + 1;
    }
    assert forall|k: int| 0 <= k < len implies is_scheme_char(
        #[trigger] v@.subrange(0, len as int)[k],
    ) by {
        assert(v@.subrange(0, len as int)[k] == v@[k]);
    }
    true
}

/// The value of an ASCII hex digit (`char::to_digit(16)` on a byte).
pub open spec fn hex_value(b: u8) -> Option<u8> {
    if 48 <= b && b <= 57 {
        Some((b - 48) as u8)
    } else if 97 <= b && b <= 102 {
        Some((b - 87) as u8)
    } else if 65 <= b && b <= 70 {
        Some((b - 55) as u8)
    } else {
        None
    }
}

/// `%XX` escapes of `b` from `i` decoded; malformed escapes pass through.
pub open spec fn percent_decoded_bytes(b: Seq<u8>, i: int) -> Seq<u8>
    decreases b.len() - i,
{
    if i < 0 || i >= b.len() {
        seq![]
    } else if b[i] == 37 && i + 2 < b.len() && hex_value(b[i + 1]) is Some && hex_value(
        b[i + 2],
    ) is Some {
        seq![(hex_value(b[i + 1])->0 * 16 + hex_value(b[i + 2])->0) as u8]
            + percent_decoded_bytes(b, i + 3)
    } else {
        seq![b[i]] + percent_decoded_bytes(b, i + 1)
    }
}

/// The percent-decoded text of `s`, when `s` holds a `%` and the decoded
/// bytes are UTF-8.
pub open spec fn percent_decoded(s: Seq<char>) -> Option<Seq<char>> {
    if !s.contains('%') {
        None
    } else {
        let out = percent_decoded_bytes(encode_utf8(s), 0);
        if valid_utf8(out) {
            Some(decode_utf8(out))
        } else {
            None
        }
    }
}

fn hex_digit(b: u8) -> (r: Option<u8>)
    ensures
        r == hex_value(b),
{
    if 48 <= b && b <= 57 {
        Some(b - 48)
    } else if 97 <= b && b <= 102 {
        Some(b - 87)
    } else if 65 <= b && b <= 70 {
        Some(b - 55)
    } else {
        None
    }
}

/// Byte-level `%XX` decoding of `bytes`. Malformed escapes pass through.
pub fn percent_decode_bytes(bytes: &[u8]) -> (out: Vec<u8>)
    ensures
        out@ == percent_decoded_bytes(bytes@, 0),
{
    let mut out: Vec<u8> = Vec::new();
    let n = bytes.len();
    let mut i: usize = 0;
    while i < n
        invariant
            n == bytes@.len(),
            i <= n,
            percent_decoded_bytes(bytes@, 0) == out@ + percent_decoded_bytes(bytes@, i as int),
        decreases n - i,
    {
        if bytes[i] == 37 && n - i > 2 {
            let hi = hex_digit(bytes[i + 1]);
            let lo = hex_digit(bytes[i + 2]);
            match (hi, lo) {
                (Some(h), Some(l)) => {
                    out.push(h * 16 + l);
                    i = i + 3;
                    continue;
                },
                _ => {},
            }
        }
        out.push(bytes[i]);
        i = i + 1;
    }
    out
}

/// Decode `%XX` escapes. Returns `None` when there is nothing to decode or
/// the decoded bytes are not valid UTF-8; malformed escapes pass through.
pub fn percent_decode(s: &str) -> (res: Option<String>)
    ensures
        res matches Some(d) ==> percent_decoded(s@) == Some(d@),
        res is None ==> percent_decoded(s@) is None,
{
    let v = chars_of(s);
    let n = v.len();
    assert(v@.subrange(0, n as int) == v@);
    if !range_contains(&v, 0, n, '%') {
        return None;
    }
    let out = percent_decode_bytes(s.as_bytes());
    string_from_utf8(out)
}

/// Index of the first `?` or `#` of `s`, or `s.len()`.
pub open spec fn suffix_start(s: Seq<char>) -> nat
    decreases s.len(),
{
    if s.len() == 0 || s[0] == '?' || s[0] == '#' {
        0
    } else {
        1 + suffix_start(s.drop_first())
    }
}

/// The spellings of a local target to look up, literal first: `t` itself,
/// then its percent-decoded form when that differs in being decodable.
/// An empty target names nothing.
pub open spec fn target_variants(t: Seq<char>) -> Seq<Seq<char>> {
    if t.len() == 0 {
        seq![]
    } else {
        match percent_decoded(t) {
            Some(d) => seq![t, d],
            None => seq![t],
        }
    }
}

/// Every spelling under which a document's local reference (image source or
/// `.md` link) is looked up, in order: the target's variants, then — only as
/// a fallback, since `?` and `#` are legal in file names — the variants of
/// the target cut at its first `?` or `#` (GitHub-style `pic.png?raw=true`).
pub open spec fn local_candidates_of(t: Seq<char>) -> Seq<Seq<char>> {
    let stripped = t.take(suffix_start(t) as int);
    if stripped != t {
        target_variants(t) + target_variants(stripped)
    } else {
        target_variants(t)
    }
}

fn push_variants(out: &mut Vec<String>, v: &[char], len: usize)
    requires
        len <= v@.len(),
    ensures
        final(out)@.map_values(|c: String| c@) == old(out)@.map_values(|c: String| c@)
            + target_variants(v@.take(len as int)),
{
    let ghost before = out@.map_values(|c: String| c@);
    if len == 0 {
        assert(before + seq![] == before);
        return;
    }
    let t = string_from(v, 0, len);
    assert(v@.subrange(0, len as int) == v@.take(len as int));
    let decoded = percent_decode(t.as_str());
    out.push(t);
    assert(out@.map_values(|c: String| c@) == before.push(v@.take(len as int)));
    match decoded {
        Some(d) => {
            let ghost mid = out@.map_values(|c: String| c@);
            out.push(d);
            assert(out@.map_values(|c: String| c@) == mid.push(d@));
            assert(before.push(v@.take(len as int)).push(d@) == before + seq![v@.take(len as int), d@]);
        },
        None => {
            assert(before.push(v@.take(len as int)) == before + seq![v@.take(len as int)]);
        },
    }
}

/// The spellings under which the local reference `target` is looked up,
/// in the order they are tried; the first that names an existing file wins.
pub fn local_candidates(target: &str) -> (res: Vec<String>)
    ensures
        res@.map_values(|c: String| c@) == local_candidates_of(target@),
{
    let v = chars_of(target);
    let n = v.len();
    let mut cut: usize = 0;
    assert(v@.skip(0) == v@);
    while cut < n && v[cut] != '?' && v[cut] != '#'
        invariant
            n == v@.len(),
            cut <= n,
            suffix_start(v@) == cut + suffix_start(v@.skip(cut as int)),
        decreases n - cut,
    {
        assert(v@.skip(cut as int).drop_first() == v@.skip(cut + 1));
        cut = cut + 1;
    }
    let mut out: Vec<String> = Vec::new();
    assert(out@.map_values(|c: String| c@) =~= Seq::<Seq<char>>::empty());
    push_variants(&mut out, &v, n);
    assert(v@.take(n as int) == v@);
    assert(Seq::<Seq<char>>::empty() + target_variants(v@) == target_variants(v@));
    if cut < n {
        assert(v@.take(cut as int).len() < v@.len());
        push_variants(&mut out, &v, cut);
    }
    out
}

} // verus!
