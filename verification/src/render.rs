//! Plain (pipe-friendly) output: styled lines as text with ANSI SGR escape
//! sequences for color and attributes, and OSC 8 hyperlinks.
use crate::layout::{SpanStyle, StyledLine, StyledSpan};
use crate::layout::lines::line_safe;
use crate::sanitize::{all_allowed, sanitize_url, url_allowed};
use crate::text::push_char;
use crate::theme::{hex_rgb, hex_to_rgb, rgb_to_256, xterm_index, TermCaps};
use vstd::prelude::*;

verus! {

/// The decimal digits of `n`.
pub open spec fn decimal(n: nat) -> Seq<char>
    decreases n,
{
    if n < 10 {
        seq![(('0' as u32) + n) as char]
    } else {
        decimal(n / 10).push((('0' as u32) + n % 10) as char)
    }
}

/// Appends the decimal digits of `n` to `s`.
pub(crate) fn push_decimal(s: &mut String, n: u16)
    ensures
        final(s)@ == old(s)@ + decimal(n as nat),
    decreases n,
{
    if n >= 10 {
        push_decimal(s, n / 10);
    }
    let d = ((n % 10) as u8 + 48) as char;
    push_char(s, d);
    proof {
        if n >= 10 {
            assert(old(s)@ + decimal(n as nat) =~= old(s)@ + decimal((n / 10) as nat) + seq![d]);
        } else {
            assert(decimal(n as nat) =~= seq![d]);
        }
    }
}

/// Appends the decimal digits of `n` to `s`.
pub(crate) fn push_decimal_usize(s: &mut String, n: usize)
    ensures
        final(s)@ == old(s)@ + decimal(n as nat),
    decreases n,
{
    if n >= 10 {
        push_decimal_usize(s, n / 10);
    }
    let d = ((n % 10) as u8 + 48) as char;
    push_char(s, d);
    proof {
        if n >= 10 {
            assert(old(s)@ + decimal(n as nat) =~= old(s)@ + decimal((n / 10) as nat) + seq![d]);
        } else {
            assert(decimal(n as nat) =~= seq![d]);
        }
    }
}

/// The SGR sequence selecting a color: 24-bit when `truecolor`, else the
/// 256-color palette; `fg` picks foreground (38) or background (48).
pub open spec fn sgr_color_of(rgb: (u8, u8, u8), fg: bool, truecolor: bool) -> Seq<char> {
    let sel: nat = if fg {
        38
    } else {
        48
    };
    if truecolor {
        seq!['\u{1b}', '['] + decimal(sel) + seq![';', '2', ';'] + decimal(rgb.0 as nat) + seq![';']
            + decimal(rgb.1 as nat) + seq![';'] + decimal(rgb.2 as nat) + seq!['m']
    } else {
        seq!['\u{1b}', '['] + decimal(sel) + seq![';', '5', ';'] + decimal(
            xterm_index(rgb.0, rgb.1, rgb.2) as nat,
        ) + seq!['m']
    }
}

/// Build an SGR color escape: 24-bit when `truecolor`, else the 256-color
/// cube. `fg` selects foreground (38) vs background (48).
pub fn sgr_color(rgb: (u8, u8, u8), fg: bool, truecolor: bool) -> (s: String)
    ensures
        s@ == sgr_color_of(rgb, fg, truecolor),
{
    let mut s = String::new();
    push_char(&mut s, '\u{1b}');
    push_char(&mut s, '[');
    push_decimal(&mut s, if fg {
        38
    } else {
        48
    });
    push_char(&mut s, ';');
    if truecolor {
        push_char(&mut s, '2');
        push_char(&mut s, ';');
        push_decimal(&mut s, rgb.0 as u16);
        push_char(&mut s, ';');
        push_decimal(&mut s, rgb.1 as u16);
        push_char(&mut s, ';');
        push_decimal(&mut s, rgb.2 as u16);
    } else {
        push_char(&mut s, '5');
        push_char(&mut s, ';');
        let idx = rgb_to_256(rgb.0, rgb.1, rgb.2);
        push_decimal(&mut s, idx as u16);
    }
    push_char(&mut s, 'm');
    proof {
        let sel: nat = if fg {
            38
        } else {
            48
        };
        assert(s@ =~= sgr_color_of(rgb, fg, truecolor));
    }
    s
}

/// The attribute codes of a style, in order: bold 1, italic 3, underline 4,
/// strikethrough 9, dim 2.
pub open spec fn attr_codes(st: SpanStyle) -> Seq<char> {
    let c1: Seq<Seq<char>> = if st.bold {
        seq![seq!['1']]
    } else {
        seq![]
    };
    let c2 = if st.italic {
        c1.push(seq!['3'])
    } else {
        c1
    };
    let c3 = if st.underline {
        c2.push(seq!['4'])
    } else {
        c2
    };
    let c4 = if st.strikethrough {
        c3.push(seq!['9'])
    } else {
        c3
    };
    let c5 = if st.dim {
        c4.push(seq!['2'])
    } else {
        c4
    };
    join_semis(c5)
}

/// The codes joined with `;`.
pub open spec fn join_semis(cs: Seq<Seq<char>>) -> Seq<char>
    decreases cs.len(),
{
    if cs.len() == 0 {
        seq![]
    } else if cs.len() == 1 {
        cs[0]
    } else {
        join_semis(cs.drop_last()) + seq![';'] + cs.last()
    }
}

/// The style sets a text attribute.
pub open spec fn has_attr(st: SpanStyle) -> bool {
    st.bold || st.italic || st.underline || st.strikethrough || st.dim
}

/// The color sequences of a style (none under `NO_COLOR`).
pub open spec fn span_colors(st: SpanStyle, caps: TermCaps) -> Seq<char> {
    let color_on = !caps.no_color;
    (if color_on && st.fg is Some {
        sgr_color_of(hex_rgb(st.fg->0@), true, caps.truecolor)
    } else {
        seq![]
    }) + (if color_on && st.bg is Some {
        sgr_color_of(hex_rgb(st.bg->0@), false, caps.truecolor)
    } else {
        seq![]
    })
}

/// The attribute sequence of a style, if it sets any attribute.
pub open spec fn span_attrs(st: SpanStyle) -> Seq<char> {
    if has_attr(st) {
        seq!['\u{1b}', '['] + attr_codes(st) + seq!['m']
    } else {
        seq![]
    }
}

/// The style links to an allowed destination.
pub open spec fn links(st: SpanStyle) -> bool {
    st.link_url is Some && url_allowed(st.link_url->0@)
}

/// The OSC 8 sequence opening the style's hyperlink.
pub open spec fn link_open(st: SpanStyle) -> Seq<char> {
    if links(st) {
        seq!['\u{1b}', ']', '8', ';', ';'] + st.link_url->0@ + seq!['\u{1b}', '\\']
    } else {
        seq![]
    }
}

/// The OSC 8 sequence closing the style's hyperlink.
pub open spec fn link_close(st: SpanStyle) -> Seq<char> {
    if links(st) {
        seq!['\u{1b}', ']', '8', ';', ';', '\u{1b}', '\\']
    } else {
        seq![]
    }
}

/// The reset after a span that set a color or attribute.
pub open spec fn span_reset(st: SpanStyle, caps: TermCaps) -> Seq<char> {
    if (!caps.no_color && (st.fg is Some || st.bg is Some)) || has_attr(st) {
        seq!['\u{1b}', '[', '0', 'm']
    } else {
        seq![]
    }
}

/// A span as plain output: its colors (unless `NO_COLOR`), its attributes,
/// an OSC 8 hyperlink around it when its destination is allowed, its text,
/// and a reset when anything was set.
#[verifier::opaque]
pub open spec fn ansi_span(sp: StyledSpan, caps: TermCaps) -> Seq<char> {
    span_colors(sp.style, caps) + span_attrs(sp.style) + link_open(sp.style) + sp.text@ + link_close(
        sp.style,
    ) + span_reset(sp.style, caps)
}

/// The spans as plain output, one after another.
pub open spec fn ansi_spans(spans: Seq<StyledSpan>, caps: TermCaps) -> Seq<char>
    decreases spans.len(),
{
    if spans.len() == 0 {
        seq![]
    } else {
        ansi_spans(spans.drop_last(), caps) + ansi_span(spans.last(), caps)
    }
}

/// The lines as plain output: each line's spans, then a newline.
pub open spec fn ansi_text(lines: Seq<StyledLine>, caps: TermCaps) -> Seq<char>
    decreases lines.len(),
{
    if lines.len() == 0 {
        seq![]
    } else {
        ansi_text(lines.drop_last(), caps) + ansi_spans(lines.last().spans@, caps) + seq!['\n']
    }
}

fn push_str(s: &mut String, t: &str)
    ensures
        final(s)@ == old(s)@ + t@,
{
    s.append(t);
}

fn push_chars(s: &mut String, cs: &[char])
    ensures
        final(s)@ == old(s)@ + cs@,
{
    crate::text::push_range(s, cs, 0, cs.len());
    assert(cs@.subrange(0, cs@.len() as int) =~= cs@);
}

/// Append one code to a `;`-joined list of codes.
fn push_code(codes: &mut Vec<char>, any: &mut bool, c: char, Ghost(cs): Ghost<Seq<Seq<char>>>)
    requires
        old(codes)@ == join_semis(cs),
        *old(any) == (cs.len() > 0),
    ensures
        final(codes)@ == join_semis(cs.push(seq![c])),
        *final(any),
{
    if *any {
        codes.push(';');
    }
    codes.push(c);
    *any = true;
    proof {
        let n = cs.push(seq![c]);
        assert(n.drop_last() =~= cs);
        if cs.len() == 0 {
            assert(n.len() == 1);
            assert(codes@ =~= seq![c]);
        } else {
            assert(codes@ =~= join_semis(cs) + seq![';'] + seq![c]);
        }
    }
}

fn push_colors(out: &mut String, st: &SpanStyle, caps: TermCaps)
    ensures
        final(out)@ == old(out)@ + span_colors(*st, caps),
{
    let ghost start = out@;
    let color_on = !caps.no_color;
    if color_on {
        if let Some(fg) = &st.fg {
            let c = sgr_color(hex_to_rgb(fg.as_str()), true, caps.truecolor);
            push_str(out, c.as_str());
        }
        let ghost mid = out@;
        if let Some(bg) = &st.bg {
            let c = sgr_color(hex_to_rgb(bg.as_str()), false, caps.truecolor);
            push_str(out, c.as_str());
        }
    }
    assert(out@ =~= start + span_colors(*st, caps));
}

fn push_attrs(out: &mut String, st: &SpanStyle)
    ensures
        final(out)@ == old(out)@ + span_attrs(*st),
{
    let mut codes: Vec<char> = Vec::new();
    let mut any = false;
    let ghost mut cs: Seq<Seq<char>> = seq![];
    if st.bold {
        push_code(&mut codes, &mut any, '1', Ghost(cs));
        proof {
            cs = cs.push(seq!['1']);
        }
    }
    if st.italic {
        push_code(&mut codes, &mut any, '3', Ghost(cs));
        proof {
            cs = cs.push(seq!['3']);
        }
    }
    if st.underline {
        push_code(&mut codes, &mut any, '4', Ghost(cs));
        proof {
            cs = cs.push(seq!['4']);
        }
    }
    if st.strikethrough {
        push_code(&mut codes, &mut any, '9', Ghost(cs));
        proof {
            cs = cs.push(seq!['9']);
        }
    }
    if st.dim {
        push_code(&mut codes, &mut any, '2', Ghost(cs));
        proof {
            cs = cs.push(seq!['2']);
        }
    }
    assert(codes@ == attr_codes(*st));
    let ghost start = out@;
    if any {
        push_char(out, '\u{1b}');
        push_char(out, '[');
        push_chars(out, &codes);
        push_char(out, 'm');
        assert(out@ =~= start + span_attrs(*st));
    } else {
        assert(out@ =~= start + span_attrs(*st));
    }
}

fn push_linked_text(out: &mut String, sp: &StyledSpan)
    ensures
        final(out)@ == old(out)@ + link_open(sp.style) + sp.text@ + link_close(sp.style),
{
    let ghost start = out@;
    let link = match &sp.style.link_url {
        Some(u) => sanitize_url(u.as_str()),
        None => None,
    };
    let has_link = link.is_some();
    if let Some(url) = &link {
        push_char(out, '\u{1b}');
        push_char(out, ']');
        push_char(out, '8');
        push_char(out, ';');
        push_char(out, ';');
        push_str(out, url.as_str());
        push_char(out, '\u{1b}');
        push_char(out, '\\');
    }
    let ghost mid = out@;
    assert(mid =~= start + link_open(sp.style));
    push_str(out, sp.text.as_str());
    let ghost mid2 = out@;
    if has_link {
        push_char(out, '\u{1b}');
        push_char(out, ']');
        push_char(out, '8');
        push_char(out, ';');
        push_char(out, ';');
        push_char(out, '\u{1b}');
        push_char(out, '\\');
    }
    assert(out@ =~= mid2 + link_close(sp.style));
}

fn push_reset(out: &mut String, st: &SpanStyle, caps: TermCaps)
    ensures
        final(out)@ == old(out)@ + span_reset(*st, caps),
{
    let ghost start = out@;
    let emitted_color = !caps.no_color && (st.fg.is_some() || st.bg.is_some());
    if emitted_color || st.bold || st.italic || st.underline || st.strikethrough || st.dim {
        push_char(out, '\u{1b}');
        push_char(out, '[');
        push_char(out, '0');
        push_char(out, 'm');
    }
    assert(out@ =~= start + span_reset(*st, caps));
}

/// Append a span as plain output.
#[verifier::spinoff_prover]
fn push_span_ansi(out: &mut String, sp: &StyledSpan, caps: TermCaps)
    ensures
        final(out)@ == old(out)@ + ansi_span(*sp, caps),
{
    let ghost start = out@;
    push_colors(out, &sp.style, caps);
    let ghost a = out@;
    push_attrs(out, &sp.style);
    let ghost b = out@;
    push_linked_text(out, sp);
    let ghost c = out@;
    push_reset(out, &sp.style, caps);
    proof {
        reveal(ansi_span);
        let st = sp.style;
        let c1 = span_colors(st, caps);
        let l1 = c1 + span_attrs(st);
        let l2 = l1 + link_open(st);
        let l3 = l2 + sp.text@;
        let l4 = l3 + link_close(st);
        vstd::seq_lib::lemma_concat_associative(start, l4, span_reset(st, caps));
        vstd::seq_lib::lemma_concat_associative(start, l3, link_close(st));
        vstd::seq_lib::lemma_concat_associative(start, l2, sp.text@);
        vstd::seq_lib::lemma_concat_associative(start, l1, link_open(st));
        vstd::seq_lib::lemma_concat_associative(start, c1, span_attrs(st));
    }
}

/// Styled lines as plain output: per span its colors (dropped under
/// `NO_COLOR`, quantized without truecolor), attributes, OSC 8 hyperlink
/// (destinations re-checked, so this sink stays safe on its own), text and
/// reset; a newline after each line.
#[verifier::spinoff_prover]
pub fn styled_lines_to_ansi(lines: &[StyledLine], caps: TermCaps) -> (s: String)
    ensures
        s@ == ansi_text(lines@, caps),
{
    let mut out = String::new();
    let mut i: usize = 0;
    while i < lines.len()
        invariant
            i <= lines@.len(),
            out@ == ansi_text(lines@.take(i as int), caps),
        decreases lines@.len() - i,
    {
        let ghost before = out@;
        let spans = &lines[i].spans;
        let mut k: usize = 0;
        while k < spans.len()
            invariant
                k <= spans@.len(),
                spans@ == lines@[i as int].spans@,
                out@ == before + ansi_spans(spans@.take(k as int), caps),
            decreases spans@.len() - k,
        {
            push_span_ansi(&mut out, &spans[k], caps);
            proof {
                let t = spans@.take(k + 1);
                assert(t.drop_last() =~= spans@.take(k as int));
                assert(t.last() == spans@[k as int]);
            }
            k = k + 1;
        }
        push_char(&mut out, '\n');
        proof {
            assert(spans@.take(spans@.len() as int) =~= spans@);
            assert(lines@.take(i + 1).drop_last() =~= lines@.take(i as int));
            assert(lines@.take(i + 1).last() == lines@[i as int]);
        }
        i = i + 1;
    }
    assert(lines@.take(lines@.len() as int) =~= lines@);
    out
}


/// Characters of an SGR parameter list: digits and `;`.
pub open spec fn codes_ok(b: Seq<char>) -> bool {
    forall|i: int| 0 <= i < b.len() ==> ('0' <= #[trigger] b[i] && b[i] <= '9') || b[i] == ';'
}

/// The SGR escape with parameters `b`: `ESC [ b m`.
pub open spec fn sgr(b: Seq<char>) -> Seq<char> {
    seq!['\u{1b}', '['] + b + seq!['m']
}

/// The OSC 8 hyperlink sequence for `u` (an empty `u` closes the link).
pub open spec fn osc8(u: Seq<char>) -> Seq<char> {
    seq!['\u{1b}', ']', '8', ';', ';'] + u + seq!['\u{1b}', '\\']
}

/// A piece of plain output that is safe to show: a newline, text without
/// control characters (tabs aside), an SGR escape of digits and `;`, or an
/// OSC 8 hyperlink to an allowed destination (or closing one).
pub open spec fn safe_piece(t: Seq<char>) -> bool {
    ||| t == seq!['\n']
    ||| all_allowed(t)
    ||| exists|b: Seq<char>| codes_ok(b) && t == #[trigger] sgr(b)
    ||| t == osc8(seq![])
    ||| exists|u: Seq<char>| url_allowed(u) && t == #[trigger] osc8(u)
}

/// Output made of safe pieces only.
pub open spec fn safe_output(s: Seq<char>) -> bool {
    exists|ps: Seq<Seq<char>>| #[trigger] ps.flatten() == s && forall|i: int| 0 <= i < ps.len() ==> safe_piece(#[trigger] ps[i])
}

proof fn lemma_safe_one(t: Seq<char>)
    requires
        safe_piece(t),
    ensures
        safe_output(t),
{
    let ps = seq![t];
    assert(ps.len() == 1);
    ps.lemma_flatten_singleton();
    assert(ps[0] == t);
    assert(ps.flatten() == t);
}

proof fn lemma_safe_concat(a: Seq<char>, b: Seq<char>)
    requires
        safe_output(a),
        safe_output(b),
    ensures
        safe_output(a + b),
{
    let pa = choose|ps: Seq<Seq<char>>| #[trigger] ps.flatten() == a && forall|i: int| 0 <= i < ps.len() ==> safe_piece(#[trigger] ps[i]);
    let pb = choose|ps: Seq<Seq<char>>| #[trigger] ps.flatten() == b && forall|i: int| 0 <= i < ps.len() ==> safe_piece(#[trigger] ps[i]);
    vstd::seq_lib::lemma_flatten_concat(pa, pb);
    let pc = pa + pb;
    assert forall|i: int| 0 <= i < pc.len() implies safe_piece(#[trigger] pc[i]) by {
        if i < pa.len() {
            assert(pc[i] == pa[i]);
        } else {
            assert(pc[i] == pb[i - pa.len()]);
        }
    }
    assert(pc.flatten() == a + b);
}

proof fn lemma_safe_empty()
    ensures
        safe_output(Seq::<char>::empty()),
{
    let ps = Seq::<Seq<char>>::empty();
    assert(ps.flatten() == Seq::<char>::empty());
}

proof fn lemma_decimal_codes(n: nat)
    ensures
        codes_ok(decimal(n)),
    decreases n,
{
    if n >= 10 {
        lemma_decimal_codes(n / 10);
        let d = decimal(n / 10);
        let c = (('0' as u32) + n % 10) as char;
        assert('0' <= c && c <= '9');
        assert forall|i: int| 0 <= i < d.push(c).len() implies ('0' <= #[trigger] d.push(c)[i] && d.push(c)[i] <= '9')
            || d.push(c)[i] == ';' by {
            if i < d.len() {
                assert(d.push(c)[i] == d[i]);
            }
        }
    } else {
        let c = (('0' as u32) + n) as char;
        assert('0' <= c && c <= '9');
    }
}

proof fn lemma_codes_concat(a: Seq<char>, b: Seq<char>)
    requires
        codes_ok(a),
        codes_ok(b),
    ensures
        codes_ok(a + b),
{
    assert forall|i: int| 0 <= i < (a + b).len() implies ('0' <= #[trigger] (a + b)[i] && (a + b)[i] <= '9') || (a
        + b)[i] == ';' by {
        if i < a.len() {
            assert((a + b)[i] == a[i]);
        } else {
            assert((a + b)[i] == b[i - a.len()]);
        }
    }
}

proof fn lemma_color_safe(rgb: (u8, u8, u8), fg: bool, truecolor: bool)
    ensures
        safe_output(sgr_color_of(rgb, fg, truecolor)),
{
    let sel: nat = if fg {
        38
    } else {
        48
    };
    lemma_decimal_codes(sel);
    lemma_decimal_codes(rgb.0 as nat);
    lemma_decimal_codes(rgb.1 as nat);
    lemma_decimal_codes(rgb.2 as nat);
    lemma_decimal_codes(xterm_index(rgb.0, rgb.1, rgb.2) as nat);
    let semi = seq![';'];
    let two = seq![';', '2', ';'];
    let five = seq![';', '5', ';'];
    assert(codes_ok(semi) && codes_ok(two) && codes_ok(five));
    let b = if truecolor {
        decimal(sel) + two + decimal(rgb.0 as nat) + semi + decimal(rgb.1 as nat) + semi + decimal(rgb.2 as nat)
    } else {
        decimal(sel) + five + decimal(xterm_index(rgb.0, rgb.1, rgb.2) as nat)
    };
    if truecolor {
        lemma_codes_concat(decimal(sel), two);
        lemma_codes_concat(decimal(sel) + two, decimal(rgb.0 as nat));
        lemma_codes_concat(decimal(sel) + two + decimal(rgb.0 as nat), semi);
        lemma_codes_concat(decimal(sel) + two + decimal(rgb.0 as nat) + semi, decimal(rgb.1 as nat));
        lemma_codes_concat(decimal(sel) + two + decimal(rgb.0 as nat) + semi + decimal(rgb.1 as nat), semi);
        lemma_codes_concat(
            decimal(sel) + two + decimal(rgb.0 as nat) + semi + decimal(rgb.1 as nat) + semi,
            decimal(rgb.2 as nat),
        );
    } else {
        lemma_codes_concat(decimal(sel), five);
        lemma_codes_concat(decimal(sel) + five, decimal(xterm_index(rgb.0, rgb.1, rgb.2) as nat));
    }
    lemma_color_sgr(rgb, fg, truecolor, b);
    lemma_safe_one(sgr(b));
}

/// A color sequence is the SGR escape of its parameters.
proof fn lemma_color_sgr(rgb: (u8, u8, u8), fg: bool, truecolor: bool, b: Seq<char>)
    requires
        b == (if truecolor {
            decimal(if fg { 38nat } else { 48nat }) + seq![';', '2', ';'] + decimal(rgb.0 as nat) + seq![';'] + decimal(
                rgb.1 as nat,
            ) + seq![';'] + decimal(rgb.2 as nat)
        } else {
            decimal(if fg { 38nat } else { 48nat }) + seq![';', '5', ';'] + decimal(xterm_index(rgb.0, rgb.1, rgb.2) as nat)
        }),
    ensures
        sgr_color_of(rgb, fg, truecolor) == sgr(b),
{
    assert(sgr_color_of(rgb, fg, truecolor) =~= sgr(b));
}

proof fn lemma_join_semis_codes(cs: Seq<Seq<char>>)
    requires
        forall|i: int| 0 <= i < cs.len() ==> codes_ok(#[trigger] cs[i]),
    ensures
        codes_ok(join_semis(cs)),
    decreases cs.len(),
{
    if cs.len() > 1 {
        assert forall|i: int| 0 <= i < cs.drop_last().len() implies codes_ok(#[trigger] cs.drop_last()[i]) by {
            assert(cs.drop_last()[i] == cs[i]);
        }
        lemma_join_semis_codes(cs.drop_last());
        assert(codes_ok(seq![';']));
        lemma_codes_concat(join_semis(cs.drop_last()), seq![';']);
        assert(codes_ok(cs[cs.len() - 1]));
        lemma_codes_concat(join_semis(cs.drop_last()) + seq![';'], cs.last());
    } else if cs.len() == 1 {
        assert(codes_ok(cs[0]));
    }
}

/// Whether one of the codes `cs` holds the character `x`.
pub open spec fn some_code_has(cs: Seq<Seq<char>>, x: char) -> bool
    decreases cs.len(),
{
    cs.len() > 0 && (some_code_has(cs.drop_last(), x) || cs.last().contains(x))
}

proof fn lemma_concat_contains(a: Seq<char>, b: Seq<char>, x: char)
    ensures
        (a + b).contains(x) == (a.contains(x) || b.contains(x)),
{
    if (a + b).contains(x) {
        let i = choose|i: int| 0 <= i < (a + b).len() && (a + b)[i] == x;
        if i < a.len() {
            assert(a[i] == x);
        } else {
            assert(b[i - a.len()] == x);
        }
    }
    if a.contains(x) {
        let i = choose|i: int| 0 <= i < a.len() && a[i] == x;
        assert((a + b)[i] == x);
    }
    if b.contains(x) {
        let i = choose|i: int| 0 <= i < b.len() && b[i] == x;
        assert((a + b)[a.len() + i] == x);
    }
}

proof fn lemma_single_contains(d: char, x: char)
    ensures
        seq![d].contains(x) == (d == x),
{
    if d == x {
        assert(seq![d][0] == x);
    }
}

/// Joining codes with `;` keeps every other character of them and adds none.
proof fn lemma_join_semis_contains(cs: Seq<Seq<char>>, x: char)
    requires
        x != ';',
    ensures
        join_semis(cs).contains(x) == some_code_has(cs, x),
    decreases cs.len(),
{
    if cs.len() == 0 {
        assert(!join_semis(cs).contains(x));
        assert(!some_code_has(cs, x));
    } else if cs.len() == 1 {
        assert(!some_code_has(cs.drop_last(), x));
        assert(cs.last() == cs[0]);
        assert(join_semis(cs) == cs[0]);
    } else {
        assert(join_semis(cs) == join_semis(cs.drop_last()) + seq![';'] + cs.last());
        lemma_join_semis_contains(cs.drop_last(), x);
        lemma_concat_contains(join_semis(cs.drop_last()), seq![';'], x);
        lemma_single_contains(';', x);
        lemma_concat_contains(join_semis(cs.drop_last()) + seq![';'], cs.last(), x);
    }
}

proof fn lemma_code_pushed(cs: Seq<Seq<char>>, d: char, x: char)
    ensures
        some_code_has(cs.push(seq![d]), x) == (some_code_has(cs, x) || d == x),
{
    assert(cs.push(seq![d]).drop_last() =~= cs);
    lemma_single_contains(d, x);
}

/// Each text attribute is sent as its own standard SGR code and no other
/// attribute's: the attribute sequence of a style holds `1` exactly when it
/// is bold, `3` when italic, `4` when underlined, `9` when struck through
/// and `2` when dim; it is empty exactly when no attribute is set.
pub proof fn law_attr_codes_exact(st: SpanStyle)
    ensures
        span_attrs(st).contains('1') == st.bold,
        span_attrs(st).contains('3') == st.italic,
        span_attrs(st).contains('4') == st.underline,
        span_attrs(st).contains('9') == st.strikethrough,
        span_attrs(st).contains('2') == st.dim,
        (span_attrs(st).len() == 0) == !has_attr(st),
{
    let digits = seq!['1', '3', '4', '9', '2'];
    assert forall|j: int| 0 <= j < 5 implies span_attrs(st).contains(#[trigger] digits[j]) == (if j == 0 {
        st.bold
    } else if j == 1 {
        st.italic
    } else if j == 2 {
        st.underline
    } else if j == 3 {
        st.strikethrough
    } else {
        st.dim
    }) by {
        let x = digits[j];
        let e: Seq<Seq<char>> = seq![];
        let c1: Seq<Seq<char>> = if st.bold {
            e.push(seq!['1'])
        } else {
            e
        };
        let c2 = if st.italic {
            c1.push(seq!['3'])
        } else {
            c1
        };
        let c3 = if st.underline {
            c2.push(seq!['4'])
        } else {
            c2
        };
        let c4 = if st.strikethrough {
            c3.push(seq!['9'])
        } else {
            c3
        };
        let c5 = if st.dim {
            c4.push(seq!['2'])
        } else {
            c4
        };
        assert(e.push(seq!['1']) =~= seq![seq!['1']]);
        assert(attr_codes(st) == join_semis(c5));
        if st.bold {
            lemma_code_pushed(e, '1', x);
        }
        if st.italic {
            lemma_code_pushed(c1, '3', x);
        }
        if st.underline {
            lemma_code_pushed(c2, '4', x);
        }
        if st.strikethrough {
            lemma_code_pushed(c3, '9', x);
        }
        if st.dim {
            lemma_code_pushed(c4, '2', x);
        }
        lemma_join_semis_contains(c5, x);
        if has_attr(st) {
            let pre = seq!['\u{1b}', '['];
            lemma_concat_contains(pre, attr_codes(st), x);
            lemma_concat_contains(pre + attr_codes(st), seq!['m'], x);
            lemma_single_contains('m', x);
            assert(!pre.contains(x)) by {
                if pre.contains(x) {
                    let i = choose|i: int| 0 <= i < pre.len() && pre[i] == x;
                }
            }
        } else {
            assert(!(Seq::<char>::empty()).contains(x));
        }
    }
    assert(digits[0] == '1' && digits[1] == '3' && digits[2] == '4' && digits[3] == '9' && digits[4] == '2');
    if has_attr(st) {
        assert(span_attrs(st).len() > 0);
    }
}

proof fn lemma_span_safe(sp: StyledSpan, caps: TermCaps)
    requires
        all_allowed(sp.text@),
        sp.style.link_url matches Some(u) ==> url_allowed(u@),
    ensures
        safe_output(ansi_span(sp, caps)),
{
    reveal(ansi_span);
    let st = sp.style;
    lemma_safe_empty();
    let color_on = !caps.no_color;
    let f = if color_on && st.fg is Some {
        sgr_color_of(hex_rgb(st.fg->0@), true, caps.truecolor)
    } else {
        seq![]
    };
    let g = if color_on && st.bg is Some {
        sgr_color_of(hex_rgb(st.bg->0@), false, caps.truecolor)
    } else {
        seq![]
    };
    if color_on && st.fg is Some {
        lemma_color_safe(hex_rgb(st.fg->0@), true, caps.truecolor);
    }
    if color_on && st.bg is Some {
        lemma_color_safe(hex_rgb(st.bg->0@), false, caps.truecolor);
    }
    lemma_safe_concat(f, g);
    assert(span_colors(st, caps) == f + g);
    if has_attr(st) {
        let c1: Seq<Seq<char>> = if st.bold {
            seq![seq!['1']]
        } else {
            seq![]
        };
        let c2 = if st.italic {
            c1.push(seq!['3'])
        } else {
            c1
        };
        let c3 = if st.underline {
            c2.push(seq!['4'])
        } else {
            c2
        };
        let c4 = if st.strikethrough {
            c3.push(seq!['9'])
        } else {
            c3
        };
        let c5 = if st.dim {
            c4.push(seq!['2'])
        } else {
            c4
        };
        assert(codes_ok(seq!['1']) && codes_ok(seq!['2']) && codes_ok(seq!['3']) && codes_ok(seq!['4']) && codes_ok(
            seq!['9'],
        ));
        assert forall|i: int| 0 <= i < c5.len() implies codes_ok(#[trigger] c5[i]) by {}
        lemma_join_semis_codes(c5);
        assert(span_attrs(st) == sgr(attr_codes(st)));
        lemma_safe_one(span_attrs(st));
    }
    lemma_safe_concat(span_colors(st, caps), span_attrs(st));
    if links(st) {
        assert(link_open(st) == osc8(st.link_url->0@));
        assert(url_allowed(st.link_url->0@));
        lemma_safe_one(link_open(st));
        assert(link_close(st) == osc8(seq![]));
        lemma_safe_one(link_close(st));
    }
    lemma_safe_one(sp.text@);
    if span_reset(st, caps).len() > 0 {
        assert(span_reset(st, caps) == sgr(seq!['0']));
        assert(codes_ok(seq!['0']));
        lemma_safe_one(span_reset(st, caps));
    }
    let a = span_colors(st, caps) + span_attrs(st);
    lemma_safe_concat(a, link_open(st));
    lemma_safe_concat(a + link_open(st), sp.text@);
    lemma_safe_concat(a + link_open(st) + sp.text@, link_close(st));
    lemma_safe_concat(a + link_open(st) + sp.text@ + link_close(st), span_reset(st, caps));
}

proof fn lemma_spans_safe(spans: Seq<StyledSpan>, caps: TermCaps)
    requires
        forall|j: int| 0 <= j < spans.len() ==> {
            &&& all_allowed(#[trigger] spans[j].text@)
            &&& (spans[j].style.link_url matches Some(u) ==> url_allowed(u@))
        },
    ensures
        safe_output(ansi_spans(spans, caps)),
    decreases spans.len(),
{
    if spans.len() == 0 {
        lemma_safe_empty();
    } else {
        assert forall|j: int| 0 <= j < spans.drop_last().len() implies {
            &&& all_allowed(#[trigger] spans.drop_last()[j].text@)
            &&& (spans.drop_last()[j].style.link_url matches Some(u) ==> url_allowed(u@))
        } by {
            assert(spans.drop_last()[j] == spans[j]);
        }
        lemma_spans_safe(spans.drop_last(), caps);
        let last = spans[spans.len() - 1];
        assert(all_allowed(last.text@));
        lemma_span_safe(spans.last(), caps);
        lemma_safe_concat(ansi_spans(spans.drop_last(), caps), ansi_span(spans.last(), caps));
    }
}

/// Plain output of safe lines (as `layout_document` lays out) holds nothing
/// a terminal could take as another command: it is made of newlines, text
/// without control characters (tabs aside), SGR escapes of digits and `;`,
/// and OSC 8 hyperlinks to allowed destinations (no `javascript:`, `file:`
/// or `data:` link) or closing them.
pub proof fn law_plain_output_is_safe(lines: Seq<StyledLine>, caps: TermCaps)
    requires
        forall|i: int| 0 <= i < lines.len() ==> line_safe(#[trigger] lines[i]),
    ensures
        safe_output(ansi_text(lines, caps)),
    decreases lines.len(),
{
    if lines.len() == 0 {
        lemma_safe_empty();
    } else {
        assert forall|i: int| 0 <= i < lines.drop_last().len() implies line_safe(#[trigger] lines.drop_last()[i]) by {
            assert(lines.drop_last()[i] == lines[i]);
        }
        law_plain_output_is_safe(lines.drop_last(), caps);
        let l = lines[lines.len() - 1];
        assert(line_safe(l));
        lemma_spans_safe(l.spans@, caps);
        lemma_safe_one(seq!['\n']);
        lemma_safe_concat(ansi_text(lines.drop_last(), caps), ansi_spans(lines.last().spans@, caps));
        lemma_safe_concat(ansi_text(lines.drop_last(), caps) + ansi_spans(lines.last().spans@, caps), seq!['\n']);
    }
}
} // verus!
