//! Putting text on the system clipboard from inside a full-screen TUI.
//!
//! Two independent, best-effort deliveries, because neither one covers every
//! terminal the reader runs in:
//!
//! * **OSC 52** — an escape sequence the terminal itself acts on, so it crosses
//!   an SSH boundary. Some terminals ship it disabled and none of them report
//!   back, so it can silently do nothing.
//! * **A native helper** (`pbcopy`, `wl-copy`, `xclip`, `xsel`, `clip.exe`) —
//!   reliable locally, useless over SSH.
//!
//! Running both can write the same bytes twice. That is harmless, and cheaper
//! than trying to detect which one worked.
use crate::text::{chars_of, lower_chars, lower_seq, seq_eq, trim, trim_end_at, trim_start_at};
use base64::engine::general_purpose::STANDARD;
use base64::Engine;
use vstd::prelude::*;
use vstd::string::StringSliceAdditionalSpecFns;

verus! {

/// How `copy` is allowed to reach the clipboard.
#[derive(Debug, Clone, Copy, PartialEq, Eq, Structural)]
pub enum ClipboardMode {
    /// Escape sequence *and* native helper (default).
    Auto,
    /// Escape sequence only.
    Osc52,
    /// Native helper only.
    Native,
    /// Copy is a no-op.
    Off,
}

impl Default for ClipboardMode {
    fn default() -> (m: Self)
        ensures
            m == ClipboardMode::Auto,
    {
        ClipboardMode::Auto
    }
}

/// The mode a config value names, trimmed and compared ASCII-case-
/// insensitively.
pub open spec fn mode_named(s: Seq<char>) -> Option<ClipboardMode> {
    let l = lower_seq(trim(s));
    if l == "auto"@ || l == "both"@ {
        Some(ClipboardMode::Auto)
    } else if l == "osc52"@ || l == "osc"@ {
        Some(ClipboardMode::Osc52)
    } else if l == "native"@ || l == "helper"@ {
        Some(ClipboardMode::Native)
    } else if l == "off"@ || l == "none"@ || l == "false"@ {
        Some(ClipboardMode::Off)
    } else {
        None
    }
}

impl ClipboardMode {
    /// Parse the config spelling of a mode: `auto`/`both`, `osc52`/`osc`,
    /// `native`/`helper`, `off`/`none`/`false`, in any ASCII case, with
    /// surrounding whitespace ignored.
    pub fn parse(s: &str) -> (m: Option<Self>)
        ensures
            m == mode_named(s@),
    {
        let v = chars_of(s);
        let lo = trim_start_at(&v, 0, v.len());
        let hi = trim_end_at(&v, lo, v.len());
        proof {
            assert(v@.subrange(0, v@.len() as int) =~= v@);
        }
        let t = crate::text::string_from(&v, lo, hi);
        let l = lower_chars(t.as_str());
        if seq_eq(&l, &chars_of("auto")) || seq_eq(&l, &chars_of("both")) {
            Some(ClipboardMode::Auto)
        } else if seq_eq(&l, &chars_of("osc52")) || seq_eq(&l, &chars_of("osc")) {
            Some(ClipboardMode::Osc52)
        } else if seq_eq(&l, &chars_of("native")) || seq_eq(&l, &chars_of("helper")) {
            Some(ClipboardMode::Native)
        } else if seq_eq(&l, &chars_of("off")) || seq_eq(&l, &chars_of("none")) || seq_eq(
            &l,
            &chars_of("false"),
        ) {
            Some(ClipboardMode::Off)
        } else {
            None
        }
    }
}

/// What happened, for the status-bar flash.
#[derive(Debug, Clone, Copy, PartialEq, Eq, Structural)]
pub enum CopyOutcome {
    /// Reached at least one delivery path.
    Copied,
    /// Clipboard is turned off in config.
    Disabled,
    /// Nothing to copy (empty selection).
    Empty,
    /// Too big for OSC 52 and no helper took it.
    TooLarge,
    /// Every available path failed.
    Failed,
}

/// xterm's hard cap on an OSC 52 payload, in base64 bytes. Past it terminals
/// drop the whole sequence, so a huge selection would silently copy nothing.
pub const OSC52_MAX_B64: usize = 74994;

/// The character of the standard base64 alphabet for the six bits `v`.
pub open spec fn base64_digit(v: int) -> char {
    if v < 26 {
        (65 + v) as char
    } else if v < 52 {
        (97 + v - 26) as char
    } else if v < 62 {
        (48 + v - 52) as char
    } else if v == 62 {
        '+'
    } else {
        '/'
    }
}

/// The standard base64 encoding (with padding) of `bytes` (RFC 4648): each
/// group of three bytes becomes four characters of six bits each; a last
/// group of one or two bytes is padded with `=` to four.
pub open spec fn base64_standard(bytes: Seq<u8>) -> Seq<char>
    decreases bytes.len(),
{
    if bytes.len() == 0 {
        seq![]
    } else if bytes.len() == 1 {
        seq![base64_digit((bytes[0] as int) / 4), base64_digit(((bytes[0] as int) % 4) * 16), '=', '=']
    } else if bytes.len() == 2 {
        seq![
            base64_digit((bytes[0] as int) / 4),
            base64_digit(((bytes[0] as int) % 4) * 16 + (bytes[1] as int) / 16),
            base64_digit(((bytes[1] as int) % 16) * 4),
            '=',
        ]
    } else {
        seq![
            base64_digit((bytes[0] as int) / 4),
            base64_digit(((bytes[0] as int) % 4) * 16 + (bytes[1] as int) / 16),
            base64_digit(((bytes[1] as int) % 16) * 4 + (bytes[2] as int) / 64),
            base64_digit((bytes[2] as int) % 64),
        ] + base64_standard(bytes.skip(3))
    }
}

/// A character of the standard base64 alphabet, or the padding `=`.
pub open spec fn base64_char(c: char) -> bool {
    ('A' <= c && c <= 'Z') || ('a' <= c && c <= 'z') || ('0' <= c && c <= '9') || c == '+' || c
        == '/' || c == '='
}

/// Calls `base64::engine::general_purpose::STANDARD.encode`. Claimed: the
/// result is `base64_standard` of `bytes`; it is four characters for every
/// started group of three bytes (the crate's `encoded_len` with padding),
/// each from the standard alphabet or `=`. The crate panics when that length
/// overflows, which `requires` rules out.
#[verifier::external_body]
fn base64_encode(bytes: &[u8]) -> (s: String)
    requires
        4 * ((bytes@.len() + 2) / 3) <= usize::MAX,
    ensures
        s@ == base64_standard(bytes@),
        s@.len() == 4 * ((bytes@.len() + 2) / 3),
        forall|i: int| 0 <= i < s@.len() ==> base64_char(#[trigger] s@[i]),
{
    STANDARD.encode(bytes)
}

/// The ESC character.
pub open spec fn esc() -> char {
    '\u{1b}'
}

/// `s` with every ESC doubled.
pub open spec fn double_esc(s: Seq<char>) -> Seq<char>
    decreases s.len(),
{
    if s.len() == 0 {
        seq![]
    } else if s.last() == esc() {
        double_esc(s.drop_last()) + seq![esc(), esc()]
    } else {
        double_esc(s.drop_last()).push(s.last())
    }
}

/// The OSC 52 "set clipboard" sequence carrying `encoded`.
pub open spec fn osc52_sequence(encoded: Seq<char>) -> Seq<char> {
    seq![esc(), ']', '5', '2', ';', 'c', ';'] + encoded + seq!['\u{7}']
}

/// What `osc52_payload_in` yields for text whose UTF-8 bytes are `bytes`:
/// nothing when the encoding exceeds the cap; the OSC 52 sequence; inside
/// tmux, that sequence with every ESC doubled, in a passthrough envelope.
pub open spec fn osc52_of(bytes: Seq<u8>, tmux: bool) -> Option<Seq<char>> {
    let encoded = base64_standard(bytes);
    if 4 * ((bytes.len() + 2) / 3) > OSC52_MAX_B64 {
        None
    } else if !tmux {
        Some(osc52_sequence(encoded))
    } else {
        Some(seq![esc(), 'P', 't', 'm', 'u', 'x', ';'] + double_esc(osc52_sequence(encoded)) + seq![
            esc(),
            '\\',
        ])
    }
}

fn push_all(out: &mut String, cs: &Vec<char>)
    ensures
        final(out)@ == old(out)@ + cs@,
{
    crate::text::push_range(out, cs, 0, cs.len());
    assert(cs@.subrange(0, cs@.len() as int) =~= cs@);
}

/// The OSC 52 sequence for `text`, or `None` if its encoding exceeds the cap.
/// With `tmux` the sequence is wrapped in a passthrough envelope with every
/// inner ESC doubled, or tmux swallows it instead of forwarding it.
pub fn osc52_payload_in(text: &str, tmux: bool) -> (r: Option<String>)
    ensures
        match r {
            Some(p) => osc52_of(text.spec_bytes(), tmux) == Some(p@),
            None => osc52_of(text.spec_bytes(), tmux) is None,
        },
{
    let bytes = text.as_bytes();
    let n = bytes.len();
    if n / 3 > OSC52_MAX_B64 / 4 {
        return None;
    }
    let groups = n / 3 + if n % 3 > 0 {
        1
    } else {
        0
    };
    assert(groups == (n + 2) / 3);
    if groups * 4 > OSC52_MAX_B64 {
        return None;
    }
    let encoded = base64_encode(bytes);
    let mut inner: Vec<char> = Vec::new();
    inner.push('\u{1b}');
    inner.push(']');
    inner.push('5');
    inner.push('2');
    inner.push(';');
    inner.push('c');
    inner.push(';');
    let enc = chars_of(encoded.as_str());
    let mut k: usize = 0;
    while k < enc.len()
        invariant
            k <= enc@.len(),
            inner@ == seq![esc(), ']', '5', '2', ';', 'c', ';'] + enc@.take(k as int),
        decreases enc@.len() - k,
    {
        inner.push(enc[k]);
        assert(enc@.take(k + 1) =~= enc@.take(k as int).push(enc@[k as int]));
        k = k + 1;
    }
    inner.push('\u{7}');
    assert(enc@.take(enc@.len() as int) =~= enc@);
    assert(inner@ =~= osc52_sequence(base64_standard(bytes@)));
    let mut out = String::new();
    if !tmux {
        push_all(&mut out, &inner);
        return Some(out);
    }
    crate::text::push_char(&mut out, '\u{1b}');
    crate::text::push_char(&mut out, 'P');
    crate::text::push_char(&mut out, 't');
    crate::text::push_char(&mut out, 'm');
    crate::text::push_char(&mut out, 'u');
    crate::text::push_char(&mut out, 'x');
    crate::text::push_char(&mut out, ';');
    let ghost head = out@;
    let mut i: usize = 0;
    while i < inner.len()
        invariant
            i <= inner@.len(),
            out@ == head + double_esc(inner@.take(i as int)),
        decreases inner@.len() - i,
    {
        proof {
            assert(inner@.take(i + 1).drop_last() =~= inner@.take(i as int));
            assert(inner@.take(i + 1).last() == inner@[i as int]);
        }
        if inner[i] == '\u{1b}' {
            crate::text::push_char(&mut out, '\u{1b}');
            crate::text::push_char(&mut out, '\u{1b}');
            assert(out@ =~= head + double_esc(inner@.take(i + 1)));
        } else {
            crate::text::push_char(&mut out, inner[i]);
            assert(out@ =~= head + double_esc(inner@.take(i + 1)));
        }
        i = i + 1;
    }
    assert(inner@.take(inner@.len() as int) =~= inner@);
    crate::text::push_char(&mut out, '\u{1b}');
    crate::text::push_char(&mut out, '\\');
    assert(out@ =~= seq![esc(), 'P', 't', 'm', 'u', 'x', ';'] + double_esc(inner@) + seq![esc(), '\\']);
    Some(out)
}

/// Where `copy` delivers: the terminal (for OSC 52) and the native
/// clipboard helper. The reader's terminal front end implements it.
pub trait ClipboardSink {
    /// Whether the reader runs inside tmux.
    fn in_tmux(&self) -> bool;

    /// Write an escape sequence to the terminal; whether it was written.
    fn write_terminal(&mut self, payload: &str) -> bool;

    /// Hand text to the native clipboard helper, if there is one; whether it
    /// took it.
    fn copy_native(&mut self, text: &str) -> bool;
}

/// The OSC 52 route is open in `Auto` and `Osc52`.
pub open spec fn osc_route(mode: ClipboardMode) -> bool {
    mode == ClipboardMode::Auto || mode == ClipboardMode::Osc52
}

/// The native helper route is open in `Auto` and `Native`.
pub open spec fn native_route(mode: ClipboardMode) -> bool {
    mode == ClipboardMode::Auto || mode == ClipboardMode::Native
}

/// The outcome of a copy of non-empty text, from what the routes reported:
/// `Copied` when a route took the text, else `TooLarge` when the text was
/// too big for OSC 52, else `Failed`.
pub open spec fn outcome_of(osc_ok: bool, native_ok: bool, oversized: bool) -> CopyOutcome {
    if osc_ok || native_ok {
        CopyOutcome::Copied
    } else if oversized {
        CopyOutcome::TooLarge
    } else {
        CopyOutcome::Failed
    }
}

/// The outcome of a copy of non-empty text, from what the routes reported.
pub fn copy_outcome(osc_ok: bool, native_ok: bool, oversized: bool) -> (r: CopyOutcome)
    ensures
        r == outcome_of(osc_ok, native_ok, oversized),
{
    if osc_ok || native_ok {
        CopyOutcome::Copied
    } else if oversized {
        CopyOutcome::TooLarge
    } else {
        CopyOutcome::Failed
    }
}

/// What happened on the way to the clipboard: whether the terminal said it
/// runs inside tmux, the OSC 52 sequence written (`None` when the route was
/// closed or the text too big), whether the terminal took it, whether the
/// native helper was tried, and whether it took the text.
#[derive(Debug, Clone, PartialEq, Eq)]
pub struct CopyReport {
    pub tmux: bool,
    pub payload: Option<String>,
    pub osc_ok: bool,
    pub native_tried: bool,
    pub native_ok: bool,
}

/// The report of a copy that tried no route.
pub open spec fn untried(rep: CopyReport) -> bool {
    rep.payload is None && !rep.osc_ok && !rep.native_tried && !rep.native_ok
}

/// `rep` reports the routes `mode` opens, for text whose UTF-8 bytes are
/// `bytes`: the sequence written is the OSC 52 payload of the text (for
/// the tmux answer given), and a route not tried took nothing.
pub open spec fn report_fits(bytes: Seq<u8>, mode: ClipboardMode, rep: CopyReport) -> bool {
    &&& (osc_route(mode) ==> match rep.payload {
        Some(p) => osc52_of(bytes, rep.tmux) == Some(p@),
        None => osc52_of(bytes, rep.tmux) is None,
    })
    &&& (!osc_route(mode) ==> rep.payload is None)
    &&& (rep.payload is None ==> !rep.osc_ok)
    &&& rep.native_tried == native_route(mode)
    &&& (!rep.native_tried ==> !rep.native_ok)
}

/// What `copy` reports for text of `chars` characters in `mode`, given what
/// the routes said.
pub open spec fn copy_result(chars: nat, mode: ClipboardMode, rep: CopyReport) -> CopyOutcome {
    if mode == ClipboardMode::Off {
        CopyOutcome::Disabled
    } else if chars == 0 {
        CopyOutcome::Empty
    } else {
        outcome_of(rep.osc_ok, rep.native_ok, osc_route(mode) && rep.payload is None)
    }
}

/// Put `text` on the clipboard by every route `mode` allows, and report
/// what each route did. `Off` and empty text touch nothing. Otherwise the
/// OSC 52 sequence of the text (inside a tmux envelope when the terminal
/// runs in tmux) is written when the route is open and the text not too
/// big, the native helper is tried when its route is open, and the outcome
/// follows from their answers.
pub fn copy_reported<S: ClipboardSink>(text: &str, mode: ClipboardMode, sink: &mut S) -> (r: (
    CopyOutcome,
    CopyReport,
))
    ensures
        (mode == ClipboardMode::Off || text@.len() == 0) ==> *final(sink) == *old(sink) && untried(r.1),
        mode != ClipboardMode::Off && text@.len() > 0 ==> report_fits(text.spec_bytes(), mode, r.1),
        r.0 == copy_result(text@.len(), mode, r.1),
{
    let none = CopyReport { tmux: false, payload: None, osc_ok: false, native_tried: false, native_ok: false };
    if mode == ClipboardMode::Off {
        return (CopyOutcome::Disabled, none);
    }
    if text.is_empty() {
        return (CopyOutcome::Empty, none);
    }
    let want_osc = mode == ClipboardMode::Auto || mode == ClipboardMode::Osc52;
    let want_native = mode == ClipboardMode::Auto || mode == ClipboardMode::Native;
    let mut rep = none;
    if want_osc {
        let tmux = sink.in_tmux();
        rep.tmux = tmux;
        match osc52_payload_in(text, tmux) {
            Some(p) => {
                let ok = sink.write_terminal(p.as_str());
                rep.payload = Some(p);
                rep.osc_ok = ok;
            },
            None => {},
        }
    }
    if want_native {
        rep.native_tried = true;
        rep.native_ok = sink.copy_native(text);
    }
    let oversized = want_osc && rep.payload.is_none();
    let out = copy_outcome(rep.osc_ok, rep.native_ok, oversized);
    (out, rep)
}

/// Put `text` on the clipboard by every route `mode` allows: the OSC 52
/// sequence for `Auto` and `Osc52`, the native helper for `Auto` and
/// `Native`.
///
/// `Off` does nothing and reports `Disabled`; empty text does nothing and
/// reports `Empty`. Otherwise the outcome is `Copied` when a route took the
/// text, else `TooLarge` when the text was too big for OSC 52, else `Failed`
/// (`copy_reported` gives what each route said).
pub fn copy<S: ClipboardSink>(text: &str, mode: ClipboardMode, sink: &mut S) -> (r: CopyOutcome)
    ensures
        (mode == ClipboardMode::Off || text@.len() == 0) ==> *final(sink) == *old(sink),
        mode == ClipboardMode::Off ==> r == CopyOutcome::Disabled,
        mode != ClipboardMode::Off && text@.len() == 0 ==> r == CopyOutcome::Empty,
        exists|rep: CopyReport|
            #![trigger copy_result(text@.len(), mode, rep)]
            (mode != ClipboardMode::Off && text@.len() > 0 ==> report_fits(text.spec_bytes(), mode, rep))
                && r == copy_result(text@.len(), mode, rep),
{
    let (r, rep) = copy_reported(text, mode, sink);
    assert((mode != ClipboardMode::Off && text@.len() > 0 ==> report_fits(text.spec_bytes(), mode, rep))
        && r == copy_result(text@.len(), mode, rep));
    r
}

} // verus!
