//! Key strings (`q`, `ctrl-c`, `alt-down`, `shift-g`) and action ids
//! (`scroll_down`): parsing them into keys and actions, and back.
use super::Action;
use crate::text::{
    chars_of, first_index, first_index_at, lowercase, seq_eq, split_by, split_on, string_from, trim, trim_end, trim_end_at,
    trim_start, trim_start_at, unicode_lower,
};
use vstd::prelude::*;

verus! {

/// A key, as the reader distinguishes keys.
#[derive(Debug, Clone, Copy, PartialEq, Eq, Structural, Hash)]
pub enum KeyCode {
    Char(char),
    Esc,
    Enter,
    Tab,
    BackTab,
    PageUp,
    PageDown,
    Home,
    End,
    Up,
    Down,
    Left,
    Right,
    Backspace,
    Delete,
    Insert,
    F(u8),
}

/// The modifiers held with a key.
#[derive(Debug, Clone, Copy, PartialEq, Eq, Structural, Hash)]
pub struct KeyMods {
    pub control: bool,
    pub alt: bool,
    pub shift: bool,
}

impl KeyMods {
    /// No modifier held.
    pub fn empty() -> (m: Self)
        ensures
            !m.control && !m.alt && !m.shift,
    {
        KeyMods { control: false, alt: false, shift: false }
    }
}

/// A single keypress: key plus modifiers.
pub type KeyBinding = (KeyCode, KeyMods);

/// The modifiers with shift released.
pub open spec fn without_shift(m: KeyMods) -> KeyMods {
    KeyMods { control: m.control, alt: m.alt, shift: false }
}

pub open spec fn is_ascii_alpha(c: char) -> bool {
    ('a' <= c && c <= 'z') || ('A' <= c && c <= 'Z')
}

pub open spec fn ascii_upper(c: char) -> char {
    if 'a' <= c && c <= 'z' {
        ((c as u32) - 32) as char
    } else {
        c
    }
}

/// Shifted letters are reported as the capital with no shift: `shift-g`
/// becomes `G`, and a capital drops a shift written with it.
pub open spec fn normalized(code: KeyCode, m: KeyMods) -> (KeyCode, KeyMods) {
    match code {
        KeyCode::Char(c) => if m.shift && is_ascii_alpha(c) {
            (KeyCode::Char(ascii_upper(c)), without_shift(m))
        } else if 'A' <= c && c <= 'Z' {
            (KeyCode::Char(c), without_shift(m))
        } else {
            (code, m)
        },
        _ => (code, m),
    }
}

fn normalize_shift(code: KeyCode, m: KeyMods) -> (r: (KeyCode, KeyMods))
    ensures
        r == normalized(code, m),
{
    if let KeyCode::Char(c) = code {
        if m.shift && (('a' <= c && c <= 'z') || ('A' <= c && c <= 'Z')) {
            let up = if 'a' <= c && c <= 'z' {
                ((c as u8) - 32) as char
            } else {
                c
            };
            return (KeyCode::Char(up), KeyMods { control: m.control, alt: m.alt, shift: false });
        }
        if 'A' <= c && c <= 'Z' {
            return (KeyCode::Char(c), KeyMods { control: m.control, alt: m.alt, shift: false });
        }
    }
    (code, m)
}

/// The modifiers the parts before the key name give, or the first part
/// (lowercased) that names no modifier.
pub open spec fn apply_mods(parts: Seq<Seq<char>>) -> Result<KeyMods, Seq<char>>
    decreases parts.len(),
{
    if parts.len() == 0 {
        Ok(KeyMods { control: false, alt: false, shift: false })
    } else {
        match apply_mods(parts.drop_last()) {
            Err(e) => Err(e),
            Ok(m) => {
                let l = unicode_lower(parts.last());
                if l == "ctrl"@ || l == "control"@ || l == "c"@ {
                    Ok(KeyMods { control: true, alt: m.alt, shift: m.shift })
                } else if l == "alt"@ || l == "meta"@ || l == "option"@ || l == "m"@ {
                    Ok(KeyMods { control: m.control, alt: true, shift: m.shift })
                } else if l == "shift"@ || l == "s"@ {
                    Ok(KeyMods { control: m.control, alt: m.alt, shift: true })
                } else {
                    Err(l)
                }
            },
        }
    }
}

pub open spec fn is_digit(c: char) -> bool {
    '0' <= c && c <= '9'
}

/// The value of a run of decimal digits.
pub open spec fn dec_value(s: Seq<char>) -> int
    decreases s.len(),
{
    if s.len() == 0 {
        0
    } else {
        10 * dec_value(s.drop_last()) + (s.last() as u32 - '0' as u32)
    }
}

/// `s` as `u8::from_str` reads it: an optional `+`, then one or more
/// decimal digits worth at most 255.
pub open spec fn parse_u8(s: Seq<char>) -> Option<u8> {
    let d = sign_stripped(s);
    if d.len() == 0 || !(forall|i: int| 0 <= i < d.len() ==> is_digit(#[trigger] d[i])) {
        None
    } else if dec_value(d) > 255 {
        None
    } else {
        Some(dec_value(d) as u8)
    }
}

/// `s` without a leading `+`.
pub open spec fn sign_stripped(s: Seq<char>) -> Seq<char> {
    if s.len() > 0 && s[0] == '+' {
        s.drop_first()
    } else {
        s
    }
}

/// `'` + `s` + `'`.
pub open spec fn quoted(s: Seq<char>) -> Seq<char> {
    "'"@ + s + "'"@
}

/// The key a key name gives: a named key (any case), `f1`–`f12`, or a single
/// character as written; the message for anything else.
pub open spec fn keycode_of(s: Seq<char>) -> Result<KeyCode, Seq<char>> {
    let l = unicode_lower(s);
    if l == "esc"@ || l == "escape"@ {
        Ok(KeyCode::Esc)
    } else if l == "enter"@ || l == "return"@ {
        Ok(KeyCode::Enter)
    } else if l == "tab"@ {
        Ok(KeyCode::Tab)
    } else if l == "backtab"@ || l == "shift-tab"@ {
        Ok(KeyCode::BackTab)
    } else if l == "space"@ {
        Ok(KeyCode::Char(' '))
    } else if l == "pageup"@ {
        Ok(KeyCode::PageUp)
    } else if l == "pagedown"@ {
        Ok(KeyCode::PageDown)
    } else if l == "home"@ {
        Ok(KeyCode::Home)
    } else if l == "end"@ {
        Ok(KeyCode::End)
    } else if l == "up"@ {
        Ok(KeyCode::Up)
    } else if l == "down"@ {
        Ok(KeyCode::Down)
    } else if l == "left"@ {
        Ok(KeyCode::Left)
    } else if l == "right"@ {
        Ok(KeyCode::Right)
    } else if l == "backspace"@ {
        Ok(KeyCode::Backspace)
    } else if l == "delete"@ || l == "del"@ {
        Ok(KeyCode::Delete)
    } else if l == "insert"@ || l == "ins"@ {
        Ok(KeyCode::Insert)
    } else if l.len() >= 2 && l[0] == 'f' {
        match parse_u8(l.drop_first()) {
            None => Err("invalid function key "@ + quoted(s)),
            Some(n) => if 1 <= n && n <= 12 {
                Ok(KeyCode::F(n))
            } else {
                Err("function key out of range: "@ + quoted(s))
            },
        }
    } else if s.len() == 0 {
        Err("empty key "@ + quoted(s))
    } else if s.len() > 1 {
        Err("unrecognized key "@ + quoted(s))
    } else {
        Ok(KeyCode::Char(s[0]))
    }
}

/// What `parse_key` makes of `s`: trimmed, split on `-`, every part but the
/// last a modifier and the last the key, shifted letters normalized; or the
/// message of the first problem.
pub open spec fn key_parse(s0: Seq<char>) -> Result<KeyBinding, Seq<char>> {
    let s = trim(s0);
    if s.len() == 0 {
        Err("empty key string"@)
    } else {
        let parts = split_on(s, '-');
        match apply_mods(parts.drop_last()) {
            Err(other) => Err("unknown modifier "@ + quoted(other) + " in "@ + quoted(s)),
            Ok(m) => match keycode_of(parts.last()) {
                Err(e) => Err(e),
                Ok(c) => Ok(normalized(c, m)),
            },
        }
    }
}


/// Whether `s` is exactly `name`.
fn is_name(s: &str, name: &str) -> (b: bool)
    ensures
        b == (s@ == name@),
{
    let a = chars_of(s);
    let b = chars_of(name);
    seq_eq(&a, &b)
}

proof fn lemma_dec_value_nonneg(s: Seq<char>)
    requires
        forall|i: int| 0 <= i < s.len() ==> is_digit(#[trigger] s[i]),
    ensures
        dec_value(s) >= 0,
    decreases s.len(),
{
    if s.len() > 0 {
        lemma_dec_value_nonneg(s.drop_last());
        assert(is_digit(s[s.len() - 1]));
    }
}

/// `v[lo..]` read as a `u8` (`str::parse::<u8>`).
fn parse_u8_from(v: &Vec<char>, lo: usize) -> (r: Option<u8>)
    requires
        lo <= v@.len(),
    ensures
        r == parse_u8(v@.subrange(lo as int, v@.len() as int)),
{
    let n = v.len();
    let ghost s = v@.subrange(lo as int, n as int);
    let mut start = lo;
    if start < n && v[start] == '+' {
        start = start + 1;
    }
    let ghost d = v@.subrange(start as int, n as int);
    proof {
        if lo < n && v@[lo as int] == '+' {
            assert(s.drop_first() =~= d);
        } else {
            assert(s =~= d);
        }
    }
    if start == n {
        return None;
    }
    let mut acc: u32 = 0;
    let mut over = false;
    let mut i = start;
    proof {
        assert(v@.subrange(start as int, start as int) =~= Seq::<char>::empty());
    }
    while i < n
        invariant
            start <= i <= n,
            n == v@.len(),
            d == v@.subrange(start as int, n as int),
            s == v@.subrange(lo as int, n as int),
            lo <= start,
            d.len() > 0,
            sign_stripped(s) == d,
            forall|j: int| start <= j < i ==> is_digit(#[trigger] v@[j]),
            over ==> dec_value(v@.subrange(start as int, i as int)) > 255,
            !over ==> acc == dec_value(v@.subrange(start as int, i as int)) && acc <= 255,
        decreases n - i,
    {
        let c = v[i];
        if !('0' <= c && c <= '9') {
            proof {
                assert(d[i - start] == c);
                assert(!is_digit(d[i - start]));
                assert(!(forall|j: int| 0 <= j < d.len() ==> is_digit(#[trigger] d[j])));
                assert(parse_u8(s) is None);
            }
            return None;
        }
        let ghost pre = v@.subrange(start as int, i as int);
        proof {
            assert(v@.subrange(start as int, i + 1).drop_last() =~= pre);
            assert(v@.subrange(start as int, i + 1).last() == c);
            assert forall|j: int| 0 <= j < pre.len() implies is_digit(#[trigger] pre[j]) by {
                assert(pre[j] == v@[start + j]);
            }
            lemma_dec_value_nonneg(pre);
        }
        if !over {
            acc = acc * 10 + (c as u32 - '0' as u32);
            if acc > 255 {
                over = true;
            }
        }
        i = i + 1;
    }
    proof {
        assert forall|j: int| 0 <= j < d.len() implies is_digit(#[trigger] d[j]) by {
            assert(d[j] == v@[start + j]);
        }
    }
    if over {
        None
    } else {
        Some(acc as u8)
    }
}

/// The key a key name gives (see `keycode_of`).
fn parse_keycode(s: &String) -> (r: Result<KeyCode, String>)
    ensures
        match r {
            Ok(c) => keycode_of(s@) == Ok::<KeyCode, Seq<char>>(c),
            Err(m) => keycode_of(s@) == Err::<KeyCode, Seq<char>>(m@),
        },
{
    let lower = lowercase(s.as_str());
    if is_name(lower.as_str(), "esc") || is_name(lower.as_str(), "escape") {
        return Ok(KeyCode::Esc);
    }
    if is_name(lower.as_str(), "enter") || is_name(lower.as_str(), "return") {
        return Ok(KeyCode::Enter);
    }
    if is_name(lower.as_str(), "tab") {
        return Ok(KeyCode::Tab);
    }
    if is_name(lower.as_str(), "backtab") || is_name(lower.as_str(), "shift-tab") {
        return Ok(KeyCode::BackTab);
    }
    if is_name(lower.as_str(), "space") {
        return Ok(KeyCode::Char(' '));
    }
    if is_name(lower.as_str(), "pageup") {
        return Ok(KeyCode::PageUp);
    }
    if is_name(lower.as_str(), "pagedown") {
        return Ok(KeyCode::PageDown);
    }
    if is_name(lower.as_str(), "home") {
        return Ok(KeyCode::Home);
    }
    if is_name(lower.as_str(), "end") {
        return Ok(KeyCode::End);
    }
    if is_name(lower.as_str(), "up") {
        return Ok(KeyCode::Up);
    }
    if is_name(lower.as_str(), "down") {
        return Ok(KeyCode::Down);
    }
    if is_name(lower.as_str(), "left") {
        return Ok(KeyCode::Left);
    }
    if is_name(lower.as_str(), "right") {
        return Ok(KeyCode::Right);
    }
    if is_name(lower.as_str(), "backspace") {
        return Ok(KeyCode::Backspace);
    }
    if is_name(lower.as_str(), "delete") || is_name(lower.as_str(), "del") {
        return Ok(KeyCode::Delete);
    }
    if is_name(lower.as_str(), "insert") || is_name(lower.as_str(), "ins") {
        return Ok(KeyCode::Insert);
    }
    let l = chars_of(lower.as_str());
    let sv = chars_of(s.as_str());
    if l.len() >= 2 && l[0] == 'f' {
        proof {
            assert(l@.subrange(1, l@.len() as int) =~= l@.drop_first());
        }
        return match parse_u8_from(&l, 1) {
            None => Err(message("invalid function key ", &sv)),
            Some(n) => if 1 <= n && n <= 12 {
                Ok(KeyCode::F(n))
            } else {
                Err(message("function key out of range: ", &sv))
            },
        };
    }
    if sv.len() == 0 {
        return Err(message("empty key ", &sv));
    }
    if sv.len() > 1 {
        return Err(message("unrecognized key ", &sv));
    }
    Ok(KeyCode::Char(sv[0]))
}

/// `head` followed by `s` in single quotes.
fn message(head: &str, s: &Vec<char>) -> (m: String)
    ensures
        m@ == head@ + quoted(s@),
{
    let mut m = String::new();
    m.append(head);
    m.append("'");
    crate::text::push_range(&mut m, s, 0, s.len());
    m.append("'");
    assert(s@.subrange(0, s@.len() as int) =~= s@);
    assert(m@ =~= head@ + quoted(s@));
    m
}

/// Parse a key string like `q`, `ctrl-c`, `alt-down`, `shift-g`,
/// `ctrl-shift-p`.
///
/// Modifiers (`ctrl`/`control`/`c`, `alt`/`meta`/`option`/`m`,
/// `shift`/`s`, any case) are joined with `-`; the last segment is the key.
/// Named keys: esc, enter, tab, backtab, space, pageup, pagedown, home, end,
/// up, down, left, right, backspace, delete, insert, f1..f12; anything else
/// must be a single character. A shifted letter is normalized to the capital
/// without shift, as terminals report it.
pub fn parse_key(s: &str) -> (r: Result<KeyBinding, String>)
    ensures
        match r {
            Ok(b) => key_parse(s@) == Ok::<KeyBinding, Seq<char>>(b),
            Err(m) => key_parse(s@) == Err::<KeyBinding, Seq<char>>(m@),
        },
{
    let v = chars_of(s);
    let n = v.len();
    let lo = trim_start_at(&v, 0, n);
    let hi = trim_end_at(&v, lo, n);
    proof {
        assert(v@.subrange(0, n as int) =~= v@);
    }
    let t = string_from(&v, lo, hi);
    assert(t@ == trim(s@));
    if lo == hi {
        let mut e = String::new();
        e.append("empty key string");
        return Err(e);
    }
    let parts = split_by(t.as_str(), '-');
    let ghost pv = parts@.map_values(|w: String| w@);
    let last = parts.len() - 1;
    let mut mods = KeyMods::empty();
    let mut k: usize = 0;
    proof {
        assert(pv.drop_last().take(0) =~= Seq::<Seq<char>>::empty());
    }
    while k < last
        invariant
            last == parts@.len() - 1,
            k <= last,
            pv == parts@.map_values(|w: String| w@),
            pv == split_on(t@, '-'),
            t@ == trim(s@),
            t@.len() > 0,
            apply_mods(pv.drop_last().take(k as int)) == Ok::<KeyMods, Seq<char>>(mods),
        decreases last - k,
    {
        proof {
            assert(pv.drop_last().take(k + 1).drop_last() =~= pv.drop_last().take(k as int));
            assert(pv.drop_last().take(k + 1).last() == parts@[k as int]@);
        }
        let l = lowercase(parts[k].as_str());
        if is_name(l.as_str(), "ctrl") || is_name(l.as_str(), "control") || is_name(l.as_str(), "c") {
            mods = KeyMods { control: true, alt: mods.alt, shift: mods.shift };
        } else if is_name(l.as_str(), "alt") || is_name(l.as_str(), "meta") || is_name(l.as_str(), "option") || is_name(l.as_str(), "m") {
            mods = KeyMods { control: mods.control, alt: true, shift: mods.shift };
        } else if is_name(l.as_str(), "shift") || is_name(l.as_str(), "s") {
            mods = KeyMods { control: mods.control, alt: mods.alt, shift: true };
        } else {
            let lv = chars_of(l.as_str());
            let tv = chars_of(t.as_str());
            let mut e = String::new();
            e.append("unknown modifier ");
            e.append("'");
            e.append(l.as_str());
            e.append("'");
            e.append(" in ");
            e.append("'");
            e.append(t.as_str());
            e.append("'");
            proof {
                assert(apply_mods(pv.drop_last().take(k + 1)) == Err::<KeyMods, Seq<char>>(l@));
                lemma_apply_mods_err(pv.drop_last(), k as int + 1);
                assert(e@ =~= "unknown modifier "@ + quoted(l@) + " in "@ + quoted(t@));
            }
            return Err(e);
        }
        k = k + 1;
    }
    proof {
        assert(pv.drop_last().take(last as int) =~= pv.drop_last());
        assert(pv.last() == parts@[last as int]@);
    }
    let code = parse_keycode(&parts[last]);
    match code {
        Err(e) => Err(e),
        Ok(c) => Ok(normalize_shift(c, mods)),
    }
}

/// Once a prefix of the parts fails, the whole list fails the same way.
proof fn lemma_apply_mods_err(parts: Seq<Seq<char>>, k: int)
    requires
        0 <= k <= parts.len(),
        apply_mods(parts.take(k)) is Err,
    ensures
        apply_mods(parts) == apply_mods(parts.take(k)),
    decreases parts.len() - k,
{
    if k < parts.len() {
        assert(parts.take(k + 1).drop_last() =~= parts.take(k));
        lemma_apply_mods_err(parts, k + 1);
    } else {
        assert(parts.take(k) =~= parts);
    }
}

/// A binding's keys: one keypress, or a chord of two pressed in turn.
pub type KeySeq = (KeyBinding, Option<KeyBinding>);

/// What `parse_keys` makes of `s`: trimmed, a string without a space is one
/// key (`key_parse`); one with a space is a chord of the key before the
/// first space and the key after it, and a third key is refused.
pub open spec fn keys_parse(s0: Seq<char>) -> Result<KeySeq, Seq<char>> {
    let s = trim(s0);
    let p = first_index(s, ' ');
    if p >= s.len() {
        match key_parse(s0) {
            Ok(k) => Ok((k, None)),
            Err(e) => Err(e),
        }
    } else {
        let rest = trim(s.skip(p + 1 as int));
        if first_index(rest, ' ') < rest.len() {
            Err("a chord takes two keys"@)
        } else {
            match key_parse(s.take(p as int)) {
                Err(e) => Err(e),
                Ok(a) => match key_parse(rest) {
                    Err(e) => Err(e),
                    Ok(b) => Ok((a, Some(b))),
                },
            }
        }
    }
}

/// Parse a binding: one key (`q`, `ctrl-c`) or a two-key chord written
/// with a space (`ctrl-x ctrl-c`).
pub fn parse_keys(s: &str) -> (r: Result<KeySeq, String>)
    ensures
        match r {
            Ok(k) => keys_parse(s@) == Ok::<KeySeq, Seq<char>>(k),
            Err(m) => keys_parse(s@) == Err::<KeySeq, Seq<char>>(m@),
        },
{
    let v = chars_of(s);
    let n = v.len();
    let lo = trim_start_at(&v, 0, n);
    let hi = trim_end_at(&v, lo, n);
    proof {
        assert(v@.subrange(0, n as int) =~= v@);
        assert(v@.subrange(lo as int, hi as int) == trim(s@));
    }
    let ghost t = trim(s@);
    let p = first_index_at(&v, lo, hi, ' ');
    if lo + p >= hi {
        return match parse_key(s) {
            Ok(k) => Ok((k, None)),
            Err(e) => Err(e),
        };
    }
    let lo2 = trim_start_at(&v, lo + p + 1, hi);
    let hi2 = trim_end_at(&v, lo2, hi);
    proof {
        assert(t.skip(p + 1 as int) =~= v@.subrange(lo + p + 1, hi as int));
        assert(v@.subrange(lo2 as int, hi2 as int) == trim(t.skip(p + 1 as int)));
        assert(t.take(p as int) =~= v@.subrange(lo as int, lo + p));
    }
    let q = first_index_at(&v, lo2, hi2, ' ');
    if lo2 + q < hi2 {
        return Err(String::from_str("a chord takes two keys"));
    }
    let first = string_from(&v, lo, lo + p);
    let second = string_from(&v, lo2, hi2);
    match parse_key(first.as_str()) {
        Err(e) => Err(e),
        Ok(a) => match parse_key(second.as_str()) {
            Err(e) => Err(e),
            Ok(b) => Ok((a, Some(b))),
        },
    }
}

/// Whether two keypresses are the same.
pub fn same_key(a: KeyBinding, b: KeyBinding) -> (r: bool)
    ensures
        r == (a == b),
{
    a.0 == b.0 && a.1 == b.1
}

/// Whether two bindings name the same keys.
pub fn same_keys(a: KeySeq, b: KeySeq) -> (r: bool)
    ensures
        r == (a == b),
{
    same_key(a.0, b.0) && match (a.1, b.1) {
        (None, None) => true,
        (Some(x), Some(y)) => same_key(x, y),
        _ => false,
    }
}

/// The action a stable string id names; `None` for unknown ids.
pub open spec fn action_named(id: Seq<char>) -> Option<Action> {
    if id == "exit_app"@ {
        Some(Action::ExitApp)
    } else if id == "close_doc"@ {
        Some(Action::CloseDoc)
    } else if id == "open_browser"@ {
        Some(Action::OpenBrowser)
    } else if id == "scroll_up"@ {
        Some(Action::ScrollUp(1))
    } else if id == "scroll_down"@ {
        Some(Action::ScrollDown(1))
    } else if id == "scroll_up_fast"@ {
        Some(Action::ScrollUp(10))
    } else if id == "scroll_down_fast"@ {
        Some(Action::ScrollDown(10))
    } else if id == "page_up"@ {
        Some(Action::PageUp)
    } else if id == "page_down"@ {
        Some(Action::PageDown)
    } else if id == "home"@ {
        Some(Action::Home)
    } else if id == "end"@ {
        Some(Action::End)
    } else if id == "next_heading"@ {
        Some(Action::NextHeading)
    } else if id == "prev_heading"@ {
        Some(Action::PrevHeading)
    } else if id == "next_tab"@ {
        Some(Action::NextTab)
    } else if id == "prev_tab"@ {
        Some(Action::PrevTab)
    } else if id == "toggle_toc"@ {
        Some(Action::ToggleToc)
    } else if id == "search"@ {
        Some(Action::Search)
    } else if id == "theme_picker"@ {
        Some(Action::ThemePicker)
    } else if id == "follow_link"@ {
        Some(Action::FollowLink)
    } else if id == "nav_back"@ {
        Some(Action::NavBack)
    } else if id == "nav_forward"@ {
        Some(Action::NavForward)
    } else {
        None
    }
}

/// Map a stable string action id to an `Action`. Returns `None` for unknown
/// ids.
pub fn action_from_id(id: &str) -> (a: Option<Action>)
    ensures
        a == action_named(id@),
{
    if is_name(id, "exit_app") {
        Some(Action::ExitApp)
    } else if is_name(id, "close_doc") {
        Some(Action::CloseDoc)
    } else if is_name(id, "open_browser") {
        Some(Action::OpenBrowser)
    } else if is_name(id, "scroll_up") {
        Some(Action::ScrollUp(1))
    } else if is_name(id, "scroll_down") {
        Some(Action::ScrollDown(1))
    } else if is_name(id, "scroll_up_fast") {
        Some(Action::ScrollUp(10))
    } else if is_name(id, "scroll_down_fast") {
        Some(Action::ScrollDown(10))
    } else if is_name(id, "page_up") {
        Some(Action::PageUp)
    } else if is_name(id, "page_down") {
        Some(Action::PageDown)
    } else if is_name(id, "home") {
        Some(Action::Home)
    } else if is_name(id, "end") {
        Some(Action::End)
    } else if is_name(id, "next_heading") {
        Some(Action::NextHeading)
    } else if is_name(id, "prev_heading") {
        Some(Action::PrevHeading)
    } else if is_name(id, "next_tab") {
        Some(Action::NextTab)
    } else if is_name(id, "prev_tab") {
        Some(Action::PrevTab)
    } else if is_name(id, "toggle_toc") {
        Some(Action::ToggleToc)
    } else if is_name(id, "search") {
        Some(Action::Search)
    } else if is_name(id, "theme_picker") {
        Some(Action::ThemePicker)
    } else if is_name(id, "follow_link") {
        Some(Action::FollowLink)
    } else if is_name(id, "nav_back") {
        Some(Action::NavBack)
    } else if is_name(id, "nav_forward") {
        Some(Action::NavForward)
    } else {
        None
    }
}

} // verus!
