//! Color themes and the terminal's color capabilities: parsing `#rrggbb`
//! colors, quantizing them to the xterm 256-color palette, and deciding
//! what the terminal supports from its environment.
use crate::text::{chars_of, contains_seq, eq_lower, lower_seq, occurs_at};
use vstd::prelude::*;

verus! {

/// The built-in theme names, in display order.
pub open spec fn builtin_names() -> Seq<Seq<char>> {
    seq![
        "dark"@,
        "light"@,
        "dracula"@,
        "catppuccin"@,
        "nord"@,
        "tokyo-night"@,
        "gruvbox"@,
        "solarized"@,
    ]
}

/// The built-in theme names, in display order.
pub fn builtin_themes() -> (names: Vec<&'static str>)
    ensures
        names@.map_values(|s: &'static str| s@) == builtin_names(),
{
    let names = vec!["dark", "light", "dracula", "catppuccin", "nord", "tokyo-night", "gruvbox", "solarized"];
    assert(names@.map_values(|s: &'static str| s@) =~= builtin_names());
    names
}

/// A color theme: a name, the colors of each document element (`#rrggbb`
/// strings), and the syntax-highlighting theme for code blocks.
#[derive(Debug, Clone)]
pub struct Theme {
    pub name: String,
    pub colors: ThemeColors,
    pub code_theme: String,
}

/// The colors of a theme, one per document element.
#[derive(Debug, Clone)]
pub struct ThemeColors {
    pub bg: Option<String>,
    pub fg: String,
    pub heading1: String,
    pub heading2: String,
    pub heading3: String,
    pub heading4: String,
    pub heading5: String,
    pub heading6: String,
    pub bold: String,
    pub italic: String,
    pub strikethrough: String,
    pub code_fg: String,
    pub code_bg: String,
    pub code_block_bg: String,
    pub link: String,
    pub link_url: String,
    pub blockquote_bar: String,
    pub blockquote_text: String,
    pub list_bullet: String,
    pub list_number: String,
    pub table_border: String,
    pub table_header: String,
    pub hr: String,
    pub task_done: String,
    pub task_pending: String,
    pub search_match: String,
    pub search_current: String,
    pub status_bar_bg: String,
    pub status_bar_fg: String,
    pub toc_active: String,
    pub toc_inactive: String,
    pub admonition_note: String,
    pub admonition_warning: String,
    pub admonition_tip: String,
    pub admonition_important: String,
    pub admonition_caution: String,
}

/// The value of a hexadecimal digit (either case).
pub open spec fn hex_digit(c: char) -> Option<u8> {
    if '0' <= c && c <= '9' {
        Some((c as u32 - '0' as u32) as u8)
    } else if 'a' <= c && c <= 'f' {
        Some((c as u32 - 'a' as u32 + 10) as u8)
    } else if 'A' <= c && c <= 'F' {
        Some((c as u32 - 'A' as u32 + 10) as u8)
    } else {
        None
    }
}

fn hex_digit_of(c: char) -> (r: Option<u8>)
    ensures
        r == hex_digit(c),
{
    if '0' <= c && c <= '9' {
        Some((c as u32 - '0' as u32) as u8)
    } else if 'a' <= c && c <= 'f' {
        Some((c as u32 - 'a' as u32 + 10) as u8)
    } else if 'A' <= c && c <= 'F' {
        Some((c as u32 - 'A' as u32 + 10) as u8)
    } else {
        None
    }
}

/// A two-character channel as `u8::from_str_radix(_, 16)` reads it: two hex
/// digits, or a `+` sign and one digit.
pub open spec fn hex_pair(a: char, b: char) -> Option<u8> {
    if a == '+' {
        hex_digit(b)
    } else {
        match (hex_digit(a), hex_digit(b)) {
            (Some(x), Some(y)) => Some((16 * x + y) as u8),
            _ => None,
        }
    }
}

fn hex_pair_of(a: char, b: char) -> (r: Option<u8>)
    ensures
        r == hex_pair(a, b),
{
    if a == '+' {
        hex_digit_of(b)
    } else {
        match (hex_digit_of(a), hex_digit_of(b)) {
            (Some(x), Some(y)) => Some(16 * x + y),
            _ => None,
        }
    }
}

/// `s` without its leading `#`s (`str::trim_start_matches('#')`).
pub open spec fn strip_hashes(s: Seq<char>) -> Seq<char>
    decreases s.len(),
{
    if s.len() > 0 && s[0] == '#' {
        strip_hashes(s.drop_first())
    } else {
        s
    }
}

/// Every character is ASCII.
pub open spec fn all_ascii(s: Seq<char>) -> bool {
    forall|i: int| 0 <= i < s.len() ==> is_ascii_char(#[trigger] s[i])
}

/// An ASCII character.
pub open spec fn is_ascii_char(c: char) -> bool {
    (c as u32) < 128
}

/// A channel, or 200 where it does not parse.
pub open spec fn or_gray(c: Option<u8>) -> u8 {
    match c {
        Some(v) => v,
        None => 200,
    }
}

/// The color `hex_to_rgb` reads from `s`: leading `#`s dropped; fewer than
/// six characters or any non-ASCII character gives (200, 200, 200);
/// otherwise each of the first three character pairs is a channel, 200 where
/// a pair does not parse.
pub open spec fn hex_rgb(s: Seq<char>) -> (u8, u8, u8) {
    let h = strip_hashes(s);
    if h.len() < 6 || !all_ascii(h) {
        (200, 200, 200)
    } else {
        (or_gray(hex_pair(h[0], h[1])), or_gray(hex_pair(h[2], h[3])), or_gray(hex_pair(h[4], h[5])))
    }
}

/// Parse a hex color string to RGB. Returns (200,200,200) for invalid input.
pub fn hex_to_rgb(hex: &str) -> (rgb: (u8, u8, u8))
    ensures
        rgb == hex_rgb(hex@),
{
    let v = chars_of(hex);
    let n = v.len();
    let mut lo: usize = 0;
    assert(v@.subrange(0, n as int) =~= v@);
    while lo < n && v[lo] == '#'
        invariant
            lo <= n,
            n == v@.len(),
            strip_hashes(v@) == strip_hashes(v@.subrange(lo as int, n as int)),
        decreases n - lo,
    {
        assert(v@.subrange(lo as int, n as int).drop_first() =~= v@.subrange(lo + 1, n as int));
        lo = lo + 1;
    }
    assert(v@.subrange(0, n as int) =~= v@);
    let ghost h = v@.subrange(lo as int, n as int);
    assert(strip_hashes(h) == h);
    if n - lo < 6 {
        return (200, 200, 200);
    }
    let mut i = lo;
    while i < n
        invariant
            lo <= i <= n,
            n == v@.len(),
            h == v@.subrange(lo as int, n as int),
            v@ == hex@,
            strip_hashes(hex@) == h,
            forall|k: int| 0 <= k < i - lo ==> is_ascii_char(#[trigger] h[k]),
        decreases n - i,
    {
        if (v[i] as u32) >= 128 {
            assert(!is_ascii_char(h[i - lo]));
            return (200, 200, 200);
        }
        i = i + 1;
    }
    let r = match hex_pair_of(v[lo], v[lo + 1]) {
        Some(x) => x,
        None => 200,
    };
    let g = match hex_pair_of(v[lo + 2], v[lo + 3]) {
        Some(x) => x,
        None => 200,
    };
    let b = match hex_pair_of(v[lo + 4], v[lo + 5]) {
        Some(x) => x,
        None => 200,
    };
    (r, g, b)
}

/// The xterm cube level (0..=5) of a channel.
pub open spec fn cube_level(v: u8) -> int {
    if v < 48 {
        0
    } else if v < 115 {
        1
    } else if (v - 35) / 40 < 5 {
        (v - 35) / 40
    } else {
        5
    }
}

pub open spec fn max3(r: u8, g: u8, b: u8) -> u8 {
    let m = if r > g {
        r
    } else {
        g
    };
    if m > b {
        m
    } else {
        b
    }
}

pub open spec fn min3(r: u8, g: u8, b: u8) -> u8 {
    let m = if r < g {
        r
    } else {
        g
    };
    if m < b {
        m
    } else {
        b
    }
}

/// The xterm-256 index `rgb_to_256` picks: near-grays (channels within 8 of
/// each other) go to the gray ramp by the red channel (black and white at the
/// ends), everything else to the 6×6×6 cube.
pub open spec fn xterm_index(r: u8, g: u8, b: u8) -> int {
    if max3(r, g, b) - min3(r, g, b) < 8 {
        if r < 8 {
            16
        } else if r > 248 {
            231
        } else {
            232 + (r - 8) * 23 / 240
        }
    } else {
        16 + 36 * cube_level(r) + 6 * cube_level(g) + cube_level(b)
    }
}

fn cube_of(v: u8) -> (c: u8)
    ensures
        c == cube_level(v),
        c <= 5,
{
    if v < 48 {
        0
    } else if v < 115 {
        1
    } else {
        let q = (v - 35) / 40;
        if q < 5 {
            q
        } else {
            5
        }
    }
}

/// Map an RGB triple to the nearest xterm-256 palette index. The index is
/// never below 16: the first sixteen entries are the terminal's own
/// (themeable) colors.
pub fn rgb_to_256(r: u8, g: u8, b: u8) -> (idx: u8)
    ensures
        idx == xterm_index(r, g, b),
        16 <= idx,
{
    let mx = if r > g {
        r
    } else {
        g
    };
    let mx = if mx > b {
        mx
    } else {
        b
    };
    let mn = if r < g {
        r
    } else {
        g
    };
    let mn = if mn < b {
        mn
    } else {
        b
    };
    if mx - mn < 8 {
        if r < 8 {
            return 16;
        }
        if r > 248 {
            return 231;
        }
        assert((r - 8) * 23 / 240 <= 23) by (nonlinear_arith)
            requires
                r <= 248,
                r >= 8,
        ;
        return 232 + ((r as u16 - 8) * 23 / 240) as u8;
    }
    16 + 36 * cube_of(r) + 6 * cube_of(g) + cube_of(b)
}

/// Terminal color capabilities.
#[derive(Debug, Clone, Copy, PartialEq, Eq, Structural)]
pub struct TermCaps {
    /// `NO_COLOR` was set (any value) — strip color, keep text attributes.
    pub no_color: bool,
    /// Terminal advertises 24-bit color (`COLORTERM=truecolor|24bit`, or a
    /// known-truecolor `TERM`).
    pub truecolor: bool,
}

/// `pat` occurs in `s`.
pub open spec fn has_sub(s: Seq<char>, pat: Seq<char>) -> bool {
    exists|i: int| occurs_at(s, pat, i)
}

/// Whether `COLORTERM` and `TERM` advertise 24-bit color.
pub open spec fn advertises_truecolor(colorterm: Seq<char>, term: Seq<char>) -> bool {
    ||| lower_seq(colorterm) == seq!['t', 'r', 'u', 'e', 'c', 'o', 'l', 'o', 'r']
    ||| lower_seq(colorterm) == seq!['2', '4', 'b', 'i', 't']
    ||| has_sub(term, seq!['t', 'r', 'u', 'e', 'c', 'o', 'l', 'o', 'r'])
    ||| has_sub(term, seq!['d', 'i', 'r', 'e', 'c', 't'])
    ||| has_sub(term, seq!['k', 'i', 't', 't', 'y'])
    ||| has_sub(term, seq!['a', 'l', 'a', 'c', 'r', 'i', 't', 't', 'y'])
}

impl TermCaps {
    /// The capabilities an environment gives: `no_color` when `NO_COLOR` is
    /// set; truecolor when `COLORTERM` is `truecolor` or `24bit` (any case),
    /// or `TERM` mentions truecolor, direct, kitty or alacritty. Unset
    /// variables read as empty.
    pub fn from_env_values(no_color: bool, colorterm: &str, term: &str) -> (c: Self)
        ensures
            c.no_color == no_color,
            c.truecolor == advertises_truecolor(colorterm@, term@),
    {
        proof {
            reveal_strlit("truecolor");
            reveal_strlit("24bit");
            reveal_strlit("direct");
            reveal_strlit("kitty");
            reveal_strlit("alacritty");
        }
        let ct = chars_of(colorterm);
        let t = chars_of(term);
        let truecolor_w = chars_of("truecolor");
        let bit24 = chars_of("24bit");
        let direct = chars_of("direct");
        let kitty = chars_of("kitty");
        let alacritty = chars_of("alacritty");
        assert(truecolor_w@ =~= seq!['t', 'r', 'u', 'e', 'c', 'o', 'l', 'o', 'r']);
        assert(bit24@ =~= seq!['2', '4', 'b', 'i', 't']);
        assert(direct@ =~= seq!['d', 'i', 'r', 'e', 'c', 't']);
        assert(kitty@ =~= seq!['k', 'i', 't', 't', 'y']);
        assert(alacritty@ =~= seq!['a', 'l', 'a', 'c', 'r', 'i', 't', 't', 'y']);
        let truecolor = eq_lower(&ct, &truecolor_w) || eq_lower(&ct, &bit24) || contains_seq(
            &t,
            &truecolor_w,
        ) || contains_seq(&t, &direct) || contains_seq(&t, &kitty) || contains_seq(&t, &alacritty);
        TermCaps { no_color, truecolor }
    }
}

/// A terminal color: 24-bit, or an index into the 256-color palette.
#[derive(Debug, Clone, Copy, PartialEq, Eq, Structural)]
pub enum TermColor {
    Rgb(u8, u8, u8),
    Indexed(u8),
}

/// An RGB color adapted to the terminal: dropped under `NO_COLOR`, passed
/// through on a truecolor terminal, else its nearest 256-color index.
pub open spec fn adapted(caps: TermCaps, r: u8, g: u8, b: u8) -> Option<TermColor> {
    if caps.no_color {
        None
    } else if caps.truecolor {
        Some(TermColor::Rgb(r, g, b))
    } else {
        Some(TermColor::Indexed(xterm_index(r, g, b) as u8))
    }
}

/// Adapt an RGB color to the terminal's capabilities.
pub fn adapt_rgb(caps: TermCaps, r: u8, g: u8, b: u8) -> (c: Option<TermColor>)
    ensures
        c == adapted(caps, r, g, b),
{
    if caps.no_color {
        None
    } else if caps.truecolor {
        Some(TermColor::Rgb(r, g, b))
    } else {
        Some(TermColor::Indexed(rgb_to_256(r, g, b)))
    }
}

/// A `#rrggbb` string as a terminal color: 24-bit on a truecolor terminal,
/// else its nearest 256-color index (`NO_COLOR` is not honored here: the
/// full-screen reader always draws in color).
pub fn hex_term_color(hex: &str, truecolor: bool) -> (c: TermColor)
    ensures
        c == (if truecolor {
            TermColor::Rgb(hex_rgb(hex@).0, hex_rgb(hex@).1, hex_rgb(hex@).2)
        } else {
            TermColor::Indexed(xterm_index(hex_rgb(hex@).0, hex_rgb(hex@).1, hex_rgb(hex@).2) as u8)
        }),
{
    let (r, g, b) = hex_to_rgb(hex);
    if truecolor {
        TermColor::Rgb(r, g, b)
    } else {
        TermColor::Indexed(rgb_to_256(r, g, b))
    }
}

/// The position of the last `.` in `s` before index `i`, or -1.
pub open spec fn last_dot_before(s: Seq<char>, i: int) -> int
    decreases i,
{
    if i <= 0 {
        -1
    } else if s[i - 1] == '.' {
        i - 1
    } else {
        last_dot_before(s, i - 1)
    }
}

/// The theme a file in the themes directory provides: the name before a
/// `.toml` extension (a name whose only dot leads it has no extension).
pub open spec fn toml_stem(file: Seq<char>) -> Option<Seq<char>> {
    let k = last_dot_before(file, file.len() as int);
    if k > 0 && file.skip(k + 1) == seq!['t', 'o', 'm', 'l'] {
        Some(file.take(k))
    } else {
        None
    }
}

/// The user themes that files provide, in file order, without the names
/// of built-in themes.
pub open spec fn user_themes(files: Seq<Seq<char>>) -> Seq<Seq<char>>
    decreases files.len(),
{
    if files.len() == 0 {
        Seq::empty()
    } else {
        let rest = user_themes(files.drop_last());
        match toml_stem(files.last()) {
            Some(n) => if builtin_names().contains(n) {
                rest
            } else {
                rest.push(n)
            },
            None => rest,
        }
    }
}

/// The theme name a file provides, if it is a `.toml` file.
fn stem_of(file: &str) -> (r: Option<String>)
    ensures
        match r {
            Some(n) => toml_stem(file@) == Some(n@),
            None => toml_stem(file@) is None,
        },
{
    let v = chars_of(file);
    let n = v.len();
    let mut i: usize = n;
    while i > 0 && v[i - 1] != '.'
        invariant
            i <= n,
            n == v@.len(),
            v@ == file@,
            last_dot_before(v@, n as int) == last_dot_before(v@, i as int),
        decreases i,
    {
        i = i - 1;
    }
    if i <= 1 {
        return None;
    }
    let k = i - 1;
    assert(last_dot_before(v@, n as int) == k as int);
    if n - i == 4 && v[i] == 't' && v[i + 1] == 'o' && v[i + 2] == 'm' && v[i + 3] == 'l' {
        assert(v@.skip(k + 1) =~= seq!['t', 'o', 'm', 'l']);
        let stem = crate::text::string_from(&v, 0, k);
        assert(stem@ =~= v@.take(k as int));
        Some(stem)
    } else {
        proof {
            if v@.skip(k + 1) == seq!['t', 'o', 'm', 'l'] {
                assert(v@.skip(k + 1).len() == 4);
                assert(v@.skip(k + 1)[0] == v@[i as int]);
                assert(v@.skip(k + 1)[1] == v@[i + 1]);
                assert(v@.skip(k + 1)[2] == v@[i + 2]);
                assert(v@.skip(k + 1)[3] == v@[i + 3]);
            }
        }
        None
    }
}

/// `name` is a built-in theme.
fn is_builtin(name: &str) -> (b: bool)
    ensures
        b == builtin_names().contains(name@),
{
    let names = builtin_themes();
    let mut i: usize = 0;
    while i < names.len()
        invariant
            i <= names@.len(),
            names@.map_values(|s: &'static str| s@) == builtin_names(),
            forall|j: int| 0 <= j < i ==> builtin_names()[j] != name@,
        decreases names@.len() - i,
    {
        let a = chars_of(names[i]);
        let b = chars_of(name);
        if crate::text::seq_eq(&a, &b) {
            assert(builtin_names()[i as int] == name@);
            return true;
        }
        assert(builtin_names()[i as int] == names@[i as int]@);
        i = i + 1;
    }
    false
}

/// All available theme names: the built-ins in display order, then the
/// themes of the given files of the user themes directory (`*.toml`, not
/// shadowing a built-in) in string order.
pub fn theme_names(files: &Vec<String>) -> (names: Vec<String>)
    ensures
        names@.len() >= 8,
        names@.take(8).map_values(|s: String| s@) == builtin_names(),
        crate::input::listing::ascending(names@.skip(8).map_values(|s: String| s@)),
        names@.skip(8).map_values(|s: String| s@).to_multiset() == user_themes(
            files@.map_values(|s: String| s@),
        ).to_multiset(),
{
    let ghost fv = files@.map_values(|s: String| s@);
    let mut user: Vec<String> = Vec::new();
    let mut k: usize = 0;
    while k < files.len()
        invariant
            k <= files@.len(),
            fv == files@.map_values(|s: String| s@),
            user@.map_values(|s: String| s@) == user_themes(fv.take(k as int)),
        decreases files@.len() - k,
    {
        proof {
            assert(fv.take(k + 1).drop_last() =~= fv.take(k as int));
        }
        match stem_of(files[k].as_str()) {
            Some(n) => {
                if !is_builtin(n.as_str()) {
                    let ghost before = user@;
                    user.push(n);
                    assert(user@.map_values(|s: String| s@) =~= before.map_values(|s: String| s@).push(
                        fv[k as int].take(last_dot_before(fv[k as int], fv[k as int].len() as int)),
                    ));
                }
            },
            None => {},
        }
        k = k + 1;
    }
    assert(fv.take(files@.len() as int) =~= fv);
    let sorted = crate::input::listing::sort_strings(user);
    let mut names: Vec<String> = Vec::new();
    let b = builtin_themes();
    let mut i: usize = 0;
    while i < b.len()
        invariant
            i <= b@.len(),
            b@.map_values(|s: &'static str| s@) == builtin_names(),
            names@.len() == i,
            names@.map_values(|s: String| s@) == builtin_names().take(i as int),
        decreases b@.len() - i,
    {
        let ghost before = names@;
        assert(b@[i as int]@ == builtin_names()[i as int]);
        names.push(String::from_str(b[i]));
        assert(names@ == before.push(names@[i as int]));
        assert(names@.map_values(|s: String| s@) =~= builtin_names().take(i + 1));
        i = i + 1;
    }
    assert(builtin_names().len() == 8);
    assert(b@.map_values(|s: &'static str| s@).len() == b@.len());
    assert(names@.len() == 8);
    assert(names@.take(8) =~= names@);
    assert(names@.skip(8).map_values(|s: String| s@) =~= sorted@.take(0).map_values(|s: String| s@));
    let mut j: usize = 0;
    while j < sorted.len()
        invariant
            j <= sorted@.len(),
            names@.len() == 8 + j,
            names@.take(8).map_values(|s: String| s@) == builtin_names(),
            names@.skip(8).map_values(|s: String| s@) == sorted@.take(j as int).map_values(|s: String| s@),
        decreases sorted@.len() - j,
    {
        let ghost before = names@;
        let item = sorted[j].clone();
        assert(item@ == sorted@[j as int]@);
        names.push(item);
        assert(names@.take(8) =~= before.take(8));
        assert(names@.skip(8) =~= before.skip(8).push(item));
        assert(sorted@.take(j + 1) =~= sorted@.take(j as int).push(sorted@[j as int]));
        assert(sorted@.take(j + 1).map_values(|s: String| s@) =~= sorted@.take(j as int).map_values(
            |s: String| s@,
        ).push(item@));
        assert(names@.skip(8).map_values(|s: String| s@) =~= sorted@.take(j + 1).map_values(|s: String| s@));
        j = j + 1;
    }
    assert(sorted@.take(sorted@.len() as int) =~= sorted@);
    names
}

} // verus!
