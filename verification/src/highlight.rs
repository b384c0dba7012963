//! Syntax highlighting of code blocks, by syntect's bundled syntaxes and
//! themes.
use syntect::easy::HighlightLines;
use syntect::highlighting::ThemeSet;
use syntect::parsing::SyntaxSet;
use vstd::prelude::*;

verus! {

/// The themes syntect bundles (`ThemeSet::load_defaults`), by name.
pub open spec fn bundled_theme(name: Seq<char>) -> bool {
    ||| name == "base16-ocean.dark"@
    ||| name == "base16-eighties.dark"@
    ||| name == "base16-mocha.dark"@
    ||| name == "base16-ocean.light"@
    ||| name == "InspiredGitHub"@
    ||| name == "Solarized (dark)"@
    ||| name == "Solarized (light)"@
}

/// Whether syntect bundles a theme called `name`. Claimed: exactly the
/// seven themes its documentation of `ThemeSet::load_defaults` lists.
#[verifier::external_body]
pub(crate) fn theme_known(name: &str) -> (b: bool)
    ensures
        b == bundled_theme(name@),
{
    ThemeSet::load_defaults().themes.contains_key(name)
}

/// The index, in the bundled syntax set, of the syntax that
/// `SyntaxSet::find_syntax_by_token` finds for `token`.
pub uninterp spec fn syntax_by_token(token: Seq<char>) -> Option<usize>;

/// The index, in the bundled syntax set, of the syntax that
/// `SyntaxSet::find_syntax_by_name` finds for `name`.
pub uninterp spec fn syntax_by_name(name: Seq<char>) -> Option<usize>;

/// Calls `SyntaxSet::find_syntax_by_token` on the bundled syntaxes
/// (`load_defaults_newlines`) and gives the found syntax's position in
/// `syntaxes()`. Claimed: the result is `syntax_by_token` of `token`.
#[verifier::external_body]
fn find_syntax(token: &str) -> (r: Option<usize>)
    ensures
        r == syntax_by_token(token@),
{
    let set = SyntaxSet::load_defaults_newlines();
    let found = set.find_syntax_by_token(token)?;
    set.syntaxes().iter().position(|s| std::ptr::eq(s, found))
}

/// Calls `SyntaxSet::find_syntax_by_name` on the bundled syntaxes and gives
/// the found syntax's position in `syntaxes()`. Claimed: the result is
/// `syntax_by_name` of `name`.
#[verifier::external_body]
fn find_syntax_named(name: &str) -> (r: Option<usize>)
    ensures
        r == syntax_by_name(name@),
{
    let set = SyntaxSet::load_defaults_newlines();
    let found = set.find_syntax_by_name(name)?;
    set.syntaxes().iter().position(|s| std::ptr::eq(s, found))
}

/// A position that a lookup of the bundled syntaxes gave back: by token or
/// by name, `find_syntax` and `find_syntax_named` only return positions of
/// `syntaxes()`.
pub open spec fn found_syntax(syntax: usize) -> bool {
    exists|t: Seq<char>| syntax_by_token(t) == Some(syntax) || syntax_by_name(t) == Some(syntax)
}

/// The highlighted pieces of each line of a code block in the bundled
/// syntax at `syntax` and the bundled theme `theme`: for each line, its
/// pieces and their foreground colors, or `None` where highlighting the
/// line failed.
pub uninterp spec fn highlighted(syntax: usize, theme: Seq<char>, lines: Seq<Seq<char>>) -> Seq<
    Option<Seq<(Seq<char>, u8, u8, u8)>>,
>;

/// The pieces of a highlighted line as plain values.
pub open spec fn pieces_view(v: Vec<(String, u8, u8, u8)>) -> Seq<(Seq<char>, u8, u8, u8)> {
    v@.map_values(|p: (String, u8, u8, u8)| (p.0@, p.1, p.2, p.3))
}

/// The text of a highlighted line: its pieces joined.
pub open spec fn pieces_text(ps: Seq<(Seq<char>, u8, u8, u8)>) -> Seq<char> {
    ps.map_values(|p: (Seq<char>, u8, u8, u8)| p.0).flatten()
}

/// The highlighted lines as plain values.
pub open spec fn highlight_view(r: Seq<Option<Vec<(String, u8, u8, u8)>>>) -> Seq<Option<Seq<(Seq<char>, u8, u8, u8)>>> {
    r.map_values(
        |o: Option<Vec<(String, u8, u8, u8)>>|
            match o {
                Some(v) => Some(pieces_view(v)),
                None => None,
            },
    )
}

/// Highlights the lines of a code block (each with its line ending) with
/// syntect: each line through `HighlightLines::highlight_line` in turn, in
/// the bundled syntax at `syntax` (a position a lookup returned, so
/// indexing `syntaxes()` with it cannot panic) and the bundled theme
/// `theme`. Claimed: one
/// entry per line (`None` for a line whose highlighting returned an error),
/// and the whole result is `highlighted` of the arguments (the bundled sets
/// are fixed, and each line's result depends on the lines before it only
/// through the highlighter's state); and a highlighted line's pieces join
/// back into the line (`highlight_line` hands out consecutive slices of the
/// line, from its start to its end).
#[verifier::external_body]
fn highlight_with(syntax: usize, theme: &str, lines: &Vec<String>) -> (r: Vec<Option<Vec<(String, u8, u8, u8)>>>)
    requires
        found_syntax(syntax),
        bundled_theme(theme@),
    ensures
        r@.len() == lines@.len(),
        highlight_view(r@) == highlighted(syntax, theme@, lines@.map_values(|l: String| l@)),
        forall|i: int|
            0 <= i < r@.len() ==> (#[trigger] r@[i] matches Some(v) ==> pieces_text(pieces_view(v)) == lines@[i]@),
{
    let syntaxes = SyntaxSet::load_defaults_newlines();
    let themes = ThemeSet::load_defaults();
    let mut h = HighlightLines::new(&syntaxes.syntaxes()[syntax], &themes.themes[theme]);
    lines.iter().map(|l| {
        h.highlight_line(l, &syntaxes).ok().map(|ranges| {
            ranges.iter().map(|(st, t)| (t.to_string(), st.foreground.r, st.foreground.g, st.foreground.b)).collect()
        })
    }).collect()
}

/// The highlighting of a code block's lines for the language `lang`: in
/// the syntax its token names, else in plain text; nothing is highlighted
/// when the bundled set has no plain-text syntax.
pub open spec fn code_highlight(lang: Seq<char>, theme: Seq<char>, lines: Seq<Seq<char>>) -> Seq<
    Option<Seq<(Seq<char>, u8, u8, u8)>>,
> {
    match syntax_by_token(lang) {
        Some(i) => highlighted(i, theme, lines),
        None => match syntax_by_name("Plain Text"@) {
            Some(i) => highlighted(i, theme, lines),
            None => Seq::new(lines.len(), |_k: int| None),
        },
    }
}

/// Highlight the lines of a code block in the language `lang`, falling
/// back to plain text for a language syntect does not know.
pub(crate) fn highlight_lines(lang: &str, theme: &str, lines: &Vec<String>) -> (r: Vec<Option<Vec<(String, u8, u8, u8)>>>)
    requires
        bundled_theme(theme@),
    ensures
        r@.len() == lines@.len(),
        highlight_view(r@) == code_highlight(lang@, theme@, lines@.map_values(|l: String| l@)),
        forall|i: int|
            0 <= i < r@.len() ==> (#[trigger] r@[i] matches Some(v) ==> pieces_text(pieces_view(v)) == lines@[i]@),
{
    let syntax = match find_syntax(lang) {
        Some(i) => i,
        None => match find_syntax_named("Plain Text") {
            Some(i) => i,
            None => {
                let mut r: Vec<Option<Vec<(String, u8, u8, u8)>>> = Vec::new();
                let mut k: usize = 0;
                while k < lines.len()
                    invariant
                        k <= lines@.len(),
                        r@.len() == k,
                        forall|j: int| 0 <= j < k ==> r@[j] is None,
                    decreases lines@.len() - k,
                {
                    r.push(None);
                    k = k + 1;
                }
                assert(highlight_view(r@) =~= code_highlight(lang@, theme@, lines@.map_values(|l: String| l@)));
                return r;
            },
        },
    };
    highlight_with(syntax, theme, lines)
}

} // verus!
