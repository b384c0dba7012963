//! Command-line arguments and how they combine with the config file.
use crate::config::Config;
use crate::text::{chars_of, seq_eq};
use vstd::prelude::*;

verus! {

/// The command line as given.
#[derive(Debug)]
pub struct Cli {
    pub command: Option<Commands>,
    /// Markdown file path(s) or URL (reads stdin if omitted).
    pub input: Vec<String>,
    /// Color theme.
    pub theme: String,
    /// Max rendering width in columns (or: narrow, wide, full).
    pub width: Option<String>,
    /// Presentation mode (split on ---).
    pub slides: bool,
    /// Plain output mode (no TUI, pipe-friendly).
    pub plain: bool,
    /// Watch file for changes and re-render.
    pub watch: bool,
    /// Show table of contents on startup.
    pub toc: bool,
    /// Disable image rendering.
    pub no_images: bool,
    /// Show YAML/TOML frontmatter.
    pub frontmatter: bool,
    /// Line spacing: compact, normal, relaxed.
    pub spacing: String,
}

/// Subcommands.
#[derive(Debug)]
pub enum Commands {
    /// Show document outline (heading structure).
    Outline { file: String },
    /// Show document statistics.
    Stats { file: String },
    /// Show diff between two markdown files.
    Diff { file_a: String, file_b: String },
    /// Print shell integration snippets (bash, zsh, fish).
    ShellSetup { shell: String },
    /// Show the active keybinding map (preset + user overrides).
    Keybindings,
    /// Configuration helpers.
    Config { action: ConfigAction },
}

/// `config` subcommands.
#[derive(Debug)]
pub enum ConfigAction {
    /// Write a starter config.
    Init { force: bool },
    /// Print the path to the active config file.
    Path,
}

/// Blank lines between blocks.
#[derive(Debug, Clone, Copy, PartialEq, Eq, Structural)]
pub enum Spacing {
    Compact,
    Normal,
    Relaxed,
}

/// Resolved arguments for the reader.
#[derive(Debug)]
pub struct Args {
    pub inputs: Vec<String>,
    pub theme: String,
    pub width: Option<u16>,
    pub slides: bool,
    pub plain: bool,
    pub watch: bool,
    pub toc: bool,
    pub no_images: bool,
    pub frontmatter: bool,
    pub spacing: Spacing,
}

/// The spacing a `--spacing` value names: `compact`, `relaxed`, anything
/// else normal.
pub open spec fn spacing_named(s: Seq<char>) -> Spacing {
    if s == "compact"@ {
        Spacing::Compact
    } else if s == "relaxed"@ {
        Spacing::Relaxed
    } else {
        Spacing::Normal
    }
}

/// The spacing a `--spacing` value names.
pub fn parse_spacing(s: &str) -> (sp: Spacing)
    ensures
        sp == spacing_named(s@),
{
    let v = chars_of(s);
    if seq_eq(&v, &chars_of("compact")) {
        Spacing::Compact
    } else if seq_eq(&v, &chars_of("relaxed")) {
        Spacing::Relaxed
    } else {
        Spacing::Normal
    }
}

/// Blank lines a spacing puts between blocks.
pub fn spacing_lines(sp: Spacing) -> (n: usize)
    ensures
        sp == Spacing::Compact ==> n == 0,
        sp == Spacing::Normal ==> n == 1,
        sp == Spacing::Relaxed ==> n == 2,
{
    match sp {
        Spacing::Compact => 0,
        Spacing::Normal => 1,
        Spacing::Relaxed => 2,
    }
}

/// The value of a run of decimal digits.
pub open spec fn digits_value(s: Seq<char>) -> int
    decreases s.len(),
{
    if s.len() == 0 {
        0
    } else {
        10 * digits_value(s.drop_last()) + (s.last() as u32 - '0' as u32)
    }
}

/// All characters are decimal digits.
pub open spec fn all_digits(s: Seq<char>) -> bool {
    forall|i: int| 0 <= i < s.len() ==> '0' <= #[trigger] s[i] && s[i] <= '9'
}

/// `s` as `u16::from_str` reads it: an optional `+`, then one or more
/// decimal digits worth at most 65535.
pub open spec fn parse_u16(s: Seq<char>) -> Option<u16> {
    let d = if s.len() > 0 && s[0] == '+' {
        s.drop_first()
    } else {
        s
    };
    if d.len() == 0 || !all_digits(d) || digits_value(d) > 65535 {
        None
    } else {
        Some(digits_value(d) as u16)
    }
}

proof fn lemma_digits_value_nonneg(s: Seq<char>)
    requires
        all_digits(s),
    ensures
        digits_value(s) >= 0,
    decreases s.len(),
{
    if s.len() > 0 {
        assert(all_digits(s.drop_last()));
        lemma_digits_value_nonneg(s.drop_last());
    }
}

/// Read `s` as a `u16` (`str::parse::<u16>`).
pub fn parse_u16_str(s: &str) -> (r: Option<u16>)
    ensures
        r == parse_u16(s@),
{
    let v = chars_of(s);
    let n = v.len();
    let start: usize = if n > 0 && v[0] == '+' {
        1
    } else {
        0
    };
    let ghost d = v@.subrange(start as int, n as int);
    proof {
        if n > 0 && v@[0] == '+' {
            assert(v@.drop_first() =~= d);
        } else {
            assert(v@ =~= d);
        }
    }
    if start == n {
        return None;
    }
    let mut acc: u32 = 0;
    let mut over = false;
    let mut i = start;
    proof {
        assert(v@.subrange(start as int, start as int) =~= Seq::<char>::empty());
    }
    while i < n
        invariant
            start <= i <= n,
            n == v@.len(),
            v@ == s@,
            d == v@.subrange(start as int, n as int),
            d.len() > 0,
            (if s@.len() > 0 && s@[0] == '+' {
                s@.drop_first()
            } else {
                s@
            }) == d,
            forall|j: int| start <= j < i ==> '0' <= #[trigger] v@[j] && v@[j] <= '9',
            over ==> digits_value(v@.subrange(start as int, i as int)) > 65535,
            !over ==> acc == digits_value(v@.subrange(start as int, i as int)) && acc <= 65535,
        decreases n - i,
    {
        let c = v[i];
        if !('0' <= c && c <= '9') {
            proof {
                assert(d[i - start] == c);
                assert(!all_digits(d));
            }
            return None;
        }
        let ghost pre = v@.subrange(start as int, i as int);
        proof {
            assert(v@.subrange(start as int, i + 1).drop_last() =~= pre);
            assert(v@.subrange(start as int, i + 1).last() == c);
            assert forall|j: int| 0 <= j < pre.len() implies '0' <= #[trigger] pre[j] && pre[j] <= '9' by {
                assert(pre[j] == v@[start + j]);
            }
            lemma_digits_value_nonneg(pre);
        }
        if !over {
            acc = acc * 10 + (c as u32 - '0' as u32);
            if acc > 65535 {
                over = true;
            }
        }
        i = i + 1;
    }
    proof {
        assert forall|j: int| 0 <= j < d.len() implies '0' <= #[trigger] d[j] && d[j] <= '9' by {
            assert(d[j] == v@[start + j]);
        }
    }
    if over {
        None
    } else {
        Some(acc as u16)
    }
}

/// The width `--width` and the config give: `narrow` 60, `wide` 100, `full`
/// no limit, a number that number; otherwise (or without `--width`) the
/// config's width.
pub open spec fn width_of(width: Option<Seq<char>>, config_width: Option<u16>) -> Option<u16> {
    match width {
        Some(w) => if w == "narrow"@ {
            Some(60u16)
        } else if w == "wide"@ {
            Some(100u16)
        } else if w == "full"@ {
            None
        } else if parse_u16(w) is Some {
            parse_u16(w)
        } else {
            config_width
        },
        None => config_width,
    }
}

/// The config file's width, if there is a config.
pub open spec fn config_width(config: Option<Config>) -> Option<u16> {
    match config {
        Some(c) => c.width,
        None => None,
    }
}

/// The text of an optional string.
pub open spec fn opt_view(o: Option<String>) -> Option<Seq<char>> {
    match o {
        Some(s) => Some(s@),
        None => None,
    }
}

/// Resolve the rendering width from `--width` and the config file.
pub fn resolve_width(width_str: &Option<String>, config: &Option<Config>) -> (w: Option<u16>)
    ensures
        w == width_of(opt_view(*width_str), config_width(*config)),
{
    if let Some(w) = width_str {
        let v = chars_of(w.as_str());
        if seq_eq(&v, &chars_of("narrow")) {
            return Some(60);
        }
        if seq_eq(&v, &chars_of("wide")) {
            return Some(100);
        }
        if seq_eq(&v, &chars_of("full")) {
            return None;
        }
        if let Some(n) = parse_u16_str(w.as_str()) {
            return Some(n);
        }
    }
    match config {
        Some(c) => c.width,
        None => None,
    }
}

/// The theme to use: the `--theme` value, or when that is `auto`, the
/// config's theme if it names one.
pub open spec fn theme_of(cli_theme: Seq<char>, config_theme: Option<Seq<char>>) -> Seq<char> {
    if cli_theme == "auto"@ {
        match config_theme {
            Some(t) => t,
            None => "auto"@,
        }
    } else {
        cli_theme
    }
}

/// The config's theme, if there is a config naming one.
pub open spec fn config_theme(config: Option<Config>) -> Option<Seq<char>> {
    match config {
        Some(c) => opt_view(c.theme),
        None => None,
    }
}

fn copy_string(s: &String) -> (r: String)
    ensures
        r@ == s@,
{
    s.clone()
}

fn copy_strings(v: &Vec<String>) -> (r: Vec<String>)
    ensures
        r@.map_values(|s: String| s@) == v@.map_values(|s: String| s@),
{
    let mut out: Vec<String> = Vec::new();
    let mut i: usize = 0;
    while i < v.len()
        invariant
            i <= v@.len(),
            out@.map_values(|s: String| s@) == v@.take(i as int).map_values(|s: String| s@),
        decreases v@.len() - i,
    {
        out.push(copy_string(&v[i]));
        proof {
            assert(v@.take(i + 1).map_values(|s: String| s@) =~= v@.take(i as int).map_values(|s: String| s@).push(v@[i as int]@));
            assert(out@.map_values(|s: String| s@) =~= v@.take(i as int).map_values(|s: String| s@).push(v@[i as int]@));
        }
        i = i + 1;
    }
    assert(v@.take(v@.len() as int) =~= v@);
    out
}

/// The reader's arguments from the command line and the config file: the
/// inputs and flags as given, the width and theme resolved against the
/// config, and the spacing named by `--spacing`.
pub fn resolve_args(cli: &Cli, config: &Option<Config>) -> (a: Args)
    ensures
        a.inputs@.map_values(|s: String| s@) == cli.input@.map_values(|s: String| s@),
        a.theme@ == theme_of(cli.theme@, config_theme(*config)),
        a.width == width_of(opt_view(cli.width), config_width(*config)),
        a.spacing == spacing_named(cli.spacing@),
        a.slides == cli.slides && a.plain == cli.plain && a.watch == cli.watch && a.toc == cli.toc
            && a.no_images == cli.no_images && a.frontmatter == cli.frontmatter,
{
    let width = resolve_width(&cli.width, config);
    let spacing = parse_spacing(cli.spacing.as_str());
    let tv = chars_of(cli.theme.as_str());
    let theme = if seq_eq(&tv, &chars_of("auto")) {
        let from_config = match config {
            Some(c) => match &c.theme {
                Some(t) => Some(copy_string(t)),
                None => None,
            },
            None => None,
        };
        match from_config {
            Some(t) => t,
            None => {
                let mut s = String::new();
                s.append("auto");
                s
            },
        }
    } else {
        copy_string(&cli.theme)
    };
    Args {
        inputs: copy_strings(&cli.input),
        theme,
        width,
        slides: cli.slides,
        plain: cli.plain,
        watch: cli.watch,
        toc: cli.toc,
        no_images: cli.no_images,
        frontmatter: cli.frontmatter,
        spacing,
    }
}

} // verus!
