//! The reader's bottom bar: key hints on the left, the file name and its
//! word count and reading time on the right, padded to the terminal width.
use crate::layout::{space_run, spaces, style_view, SpanStyle, StyleView, StyledLine, StyledSpan};
use crate::render::{decimal, push_decimal_usize};
use crate::text::push_char;
use crate::theme::Theme;
use crate::unicode::{display_width, text_width};
use vstd::prelude::*;

verus! {

/// A status-bar style: the given foreground on the bar's background.
pub open spec fn bar_style(t: Theme, fg: Seq<char>, bold: bool) -> StyleView {
    StyleView {
        fg: Some(fg),
        bg: Some(t.colors.status_bar_bg@),
        bold,
        italic: false,
        underline: false,
        strikethrough: false,
        dim: false,
        link_url: None,
    }
}

/// The key hints, as (key, what it does): scrolling, search, links, the
/// table of contents, help, switching tabs when there are several, quit.
pub open spec fn hint_pairs(multi_tab: bool) -> Seq<(Seq<char>, Seq<char>)> {
    seq![
        ("↑↓/jk"@, "scroll"@),
        ("/"@, "search"@),
        ("f"@, "links"@),
        ("t"@, "toc"@),
        ("?"@, "help"@),
    ] + (if multi_tab {
        seq![("Tab"@, "next"@)]
    } else {
        Seq::empty()
    }) + seq![("q"@, "quit"@)]
}

/// The spans of the key hints: each key in bold, padded by a space on each
/// side, then its description dimmed, hints separated by ` · `.
pub open spec fn hint_spans(t: Theme, keys: Seq<(Seq<char>, Seq<char>)>) -> Seq<(Seq<char>, StyleView)>
    decreases keys.len(),
{
    if keys.len() == 0 {
        Seq::empty()
    } else {
        let k = keys.last();
        let prefix = if keys.len() > 1 {
            hint_spans(t, keys.drop_last()).push((" · "@, bar_style(t, t.colors.link_url@, false)))
        } else {
            Seq::empty()
        };
        prefix.push((seq![' '] + k.0 + seq![' '], bar_style(t, t.colors.status_bar_fg@, true))).push(
            (k.1, bar_style(t, t.colors.link_url@, false)),
        )
    }
}

/// The total display width of some spans.
pub open spec fn views_width(spans: Seq<(Seq<char>, StyleView)>) -> int
    decreases spans.len(),
{
    if spans.len() == 0 {
        0
    } else {
        views_width(spans.drop_last()) + display_width(spans.last().0)
    }
}

/// The file name part on the right: the name, and ` [i/n]` (1-based) when
/// several tabs are open.
pub open spec fn name_part(short_name: Seq<char>, tab_info: Option<(usize, usize)>) -> Seq<char> {
    match tab_info {
        Some((cur, total)) => short_name + " ["@ + decimal((cur + 1) as nat) + "/"@ + decimal(total as nat)
            + "]"@,
        None => short_name,
    }
}

/// The statistics part on the right.
pub open spec fn stats_part(words: usize, minutes: usize) -> Seq<char> {
    "  "@ + decimal(words as nat) + " words · ~"@ + decimal(minutes as nat) + " min  "@
}

/// The note shown when the file on disk is gone.
pub open spec fn missing_part(file_missing: bool) -> Seq<char> {
    if file_missing {
        " [file missing] "@
    } else {
        ""@
    }
}

/// The status bar of `width` cells: the hints, spaces filling what the
/// right side leaves, the missing-file note (bold, in the second heading
/// color), the file name in bold, and the statistics dimmed.
pub open spec fn status_view(
    t: Theme,
    short_name: Seq<char>,
    words: usize,
    minutes: usize,
    multi_tab: bool,
    tab_info: Option<(usize, usize)>,
    file_missing: bool,
    width: u16,
) -> Seq<(Seq<char>, StyleView)> {
    let left = hint_spans(t, hint_pairs(multi_tab));
    let name = name_part(short_name, tab_info);
    let stats = stats_part(words, minutes);
    let missing = missing_part(file_missing);
    let right = display_width(name) + display_width(stats) + display_width(missing);
    let used = views_width(left) + right;
    let pad: nat = if width > used {
        (width - used) as nat
    } else {
        0
    };
    left.push((spaces(pad), bar_style(t, t.colors.status_bar_fg@, false))) + (if file_missing {
        seq![(missing, bar_style(t, t.colors.heading2@, true))]
    } else {
        Seq::empty()
    }) + seq![(name, bar_style(t, t.colors.status_bar_fg@, true)), (stats, bar_style(t, t.colors.link_url@, false))]
}

/// A span of `text` in a status-bar style.
fn bar_span(t: &Theme, text: String, fg: &String, bold: bool) -> (s: StyledSpan)
    ensures
        s.text@ == text@,
        style_view(s.style) == bar_style(*t, fg@, bold),
{
    StyledSpan {
        text,
        style: SpanStyle {
            fg: Some(fg.clone()),
            bg: Some(t.colors.status_bar_bg.clone()),
            bold,
            italic: false,
            underline: false,
            strikethrough: false,
            dim: false,
            link_url: None,
        },
    }
}

/// `a + b`, or `usize::MAX` when that overflows.
fn add_width(a: usize, b: usize) -> (r: usize)
    ensures
        r == if a + b <= usize::MAX {
            a + b
        } else {
            usize::MAX as int
        },
{
    if a <= usize::MAX - b {
        a + b
    } else {
        usize::MAX
    }
}

/// The bottom bar for a document.
pub fn status_bar(
    t: &Theme,
    short_name: &str,
    words: usize,
    minutes: usize,
    multi_tab: bool,
    tab_info: Option<(usize, usize)>,
    file_missing: bool,
    width: u16,
) -> (line: StyledLine)
    requires
        tab_info matches Some((cur, _)) ==> cur < usize::MAX,
    ensures
        crate::layout::line_view(line) == status_view(
            *t,
            short_name@,
            words,
            minutes,
            multi_tab,
            tab_info,
            file_missing,
            width,
        ),
{
    let mut keys: Vec<(&'static str, &'static str)> = vec![
        ("↑↓/jk", "scroll"),
        ("/", "search"),
        ("f", "links"),
        ("t", "toc"),
        ("?", "help"),
    ];
    if multi_tab {
        keys.push(("Tab", "next"));
    }
    keys.push(("q", "quit"));
    let ghost kv = keys@.map_values(|k: (&'static str, &'static str)| (k.0@, k.1@));
    assert(kv =~= hint_pairs(multi_tab));
    let mut spans: Vec<StyledSpan> = Vec::new();
    let mut left_len: usize = 0;
    let mut i: usize = 0;
    while i < keys.len()
        invariant
            i <= keys@.len(),
            kv == keys@.map_values(|k: (&'static str, &'static str)| (k.0@, k.1@)),
            spans@.map_values(|s: StyledSpan| crate::layout::span_view(s)) == hint_spans(*t, kv.take(i as int)),
            left_len == if views_width(hint_spans(*t, kv.take(i as int))) <= usize::MAX {
                views_width(hint_spans(*t, kv.take(i as int)))
            } else {
                usize::MAX as int
            },
        decreases keys@.len() - i,
    {
        let ghost before = spans@.map_values(|s: StyledSpan| crate::layout::span_view(s));
        proof {
            assert(kv.take(i + 1).drop_last() =~= kv.take(i as int));
            assert(kv.take(i + 1).last() == kv[i as int]);
        }
        let ghost s0 = spans@;
        let ghost s1 = spans@;
        if i > 0 {
            let sep = bar_span(t, String::from_str(" · "), &t.colors.link_url, false);
            left_len = add_width(left_len, text_width(sep.text.as_str()));
            spans.push(sep);
            proof {
                s1 = spans@;
                assert(s1.map_values(|s: StyledSpan| crate::layout::span_view(s)) =~= before.push(
                    (" · "@, bar_style(*t, t.colors.link_url@, false)),
                ));
            }
        }
        let mut key = String::new();
        push_char(&mut key, ' ');
        key.append(keys[i].0);
        push_char(&mut key, ' ');
        assert(key@ =~= seq![' '] + kv[i as int].0 + seq![' ']);
        let k = bar_span(t, key, &t.colors.status_bar_fg, true);
        left_len = add_width(left_len, text_width(k.text.as_str()));
        spans.push(k);
        let ghost s2 = spans@;
        let d = bar_span(t, String::from_str(keys[i].1), &t.colors.link_url, false);
        left_len = add_width(left_len, text_width(d.text.as_str()));
        spans.push(d);
        proof {
            let f = |s: StyledSpan| crate::layout::span_view(s);
            if i == 0 {
                assert(s1.map_values(f) =~= before);
            }
            assert(s2.map_values(f) =~= s1.map_values(f).push(
                (seq![' '] + kv[i as int].0 + seq![' '], bar_style(*t, t.colors.status_bar_fg@, true)),
            ));
            assert(spans@.map_values(f) =~= s2.map_values(f).push(
                (kv[i as int].1, bar_style(*t, t.colors.link_url@, false)),
            ));
        }
        proof {
            let v = spans@.map_values(|s: StyledSpan| crate::layout::span_view(s));
            let want = hint_spans(*t, kv.take(i + 1));
            let sep_v = (" · "@, bar_style(*t, t.colors.link_url@, false));
            let key_v = (seq![' '] + kv[i as int].0 + seq![' '], bar_style(*t, t.colors.status_bar_fg@, true));
            let desc_v = (kv[i as int].1, bar_style(*t, t.colors.link_url@, false));
            let prefix = if i > 0 {
                before.push(sep_v)
            } else {
                before
            };
            if i == 0 {
                assert(before =~= Seq::<(Seq<char>, StyleView)>::empty());
            }
            assert(want == prefix.push(key_v).push(desc_v));
            assert(v =~= prefix.push(key_v).push(desc_v));
            assert(want.drop_last() =~= prefix.push(key_v));
            assert(want.drop_last().drop_last() =~= prefix);
            assert(views_width(want.drop_last()) == views_width(prefix) + display_width(key_v.0));
            assert(views_width(want) == views_width(prefix) + display_width(key_v.0) + display_width(desc_v.0));
            if i > 0 {
                assert(prefix.drop_last() =~= before);
                assert(views_width(prefix) == views_width(before) + display_width(sep_v.0));
            }
        }
        i = i + 1;
    }
    assert(kv.take(keys@.len() as int) =~= kv);
    let mut name = String::from_str(short_name);
    match tab_info {
        Some((cur, total)) => {
            name.append(" [");
            push_decimal_usize(&mut name, cur + 1);
            name.append("/");
            push_decimal_usize(&mut name, total);
            name.append("]");
        },
        None => {},
    }
    let mut stats = String::from_str("  ");
    push_decimal_usize(&mut stats, words);
    stats.append(" words · ~");
    push_decimal_usize(&mut stats, minutes);
    stats.append(" min  ");
    let missing: &str = if file_missing {
        " [file missing] "
    } else {
        ""
    };
    let right = add_width(add_width(text_width(name.as_str()), text_width(stats.as_str())), text_width(missing));
    let used = add_width(left_len, right);
    let pad: usize = if (width as usize) > used {
        width as usize - used
    } else {
        0
    };
    let ghost left = spans@.map_values(|s: StyledSpan| crate::layout::span_view(s));
    spans.push(bar_span(t, space_run(pad), &t.colors.status_bar_fg, false));
    if file_missing {
        spans.push(bar_span(t, String::from_str(missing), &t.colors.heading2, true));
    }
    spans.push(bar_span(t, name, &t.colors.status_bar_fg, true));
    spans.push(bar_span(t, stats, &t.colors.link_url, false));
    let line = StyledLine { spans };
    assert(crate::layout::line_view(line) =~= status_view(
        *t,
        short_name@,
        words,
        minutes,
        multi_tab,
        tab_info,
        file_missing,
        width,
    ));
    line
}

} // verus!
