use base64::engine::general_purpose::STANDARD;
use base64::Engine;
use ink_md::clipboard::{
    copy, copy_outcome, copy_reported, osc52_payload_in, ClipboardMode, ClipboardSink, CopyOutcome, OSC52_MAX_B64,
};

/// A sink that must never be reached.
struct Untouched;

impl ClipboardSink for Untouched {
    fn in_tmux(&self) -> bool {
        panic!("consulted the environment")
    }
    fn write_terminal(&mut self, _payload: &str) -> bool {
        panic!("wrote to the terminal")
    }
    fn copy_native(&mut self, _text: &str) -> bool {
        panic!("ran a clipboard helper")
    }
}

/// A sink that records what it was given.
struct Recorder {
    written: Vec<String>,
    native: Vec<String>,
    native_ok: bool,
}

impl ClipboardSink for Recorder {
    fn in_tmux(&self) -> bool {
        false
    }
    fn write_terminal(&mut self, payload: &str) -> bool {
        self.written.push(payload.to_string());
        true
    }
    fn copy_native(&mut self, text: &str) -> bool {
        self.native.push(text.to_string());
        self.native_ok
    }
}

#[test]
fn off_writes_nothing() {
    assert_eq!(copy("anything", ClipboardMode::Off, &mut Untouched), CopyOutcome::Disabled);
}

#[test]
fn empty_selection_is_not_a_copy() {
    assert_eq!(copy("", ClipboardMode::Auto, &mut Untouched), CopyOutcome::Empty);
}

#[test]
fn mode_parses_its_config_spellings() {
    assert_eq!(ClipboardMode::parse("auto"), Some(ClipboardMode::Auto));
    assert_eq!(ClipboardMode::parse("OSC52"), Some(ClipboardMode::Osc52));
    assert_eq!(ClipboardMode::parse(" native "), Some(ClipboardMode::Native));
    assert_eq!(ClipboardMode::parse("off"), Some(ClipboardMode::Off));
    assert_eq!(ClipboardMode::parse("sometimes"), None);
}

#[test]
fn osc52_payload_is_base64_in_an_osc_52_sequence() {
    assert_eq!(osc52_payload_in("hi", false).unwrap(), "\x1b]52;c;aGk=\x07");
}

#[test]
fn osc52_payload_wraps_for_tmux_and_doubles_escapes() {
    let wrapped = osc52_payload_in("hi", true).unwrap();
    assert_eq!(wrapped, "\x1bPtmux;\x1b\x1b]52;c;aGk=\x07\x1b\\");
    let body = &wrapped["\x1bPtmux;".len()..wrapped.len() - 2];
    assert!(!body.replace("\x1b\x1b", "").contains('\x1b'));
}

#[test]
fn osc52_payload_refuses_an_oversized_selection() {
    let big = "x".repeat(200_000);
    assert!(osc52_payload_in(&big, false).is_none());
    let ok = "x".repeat(OSC52_MAX_B64 / 4 * 3);
    assert!(osc52_payload_in(&ok, false).is_some());
}

#[test]
fn osc52_payload_survives_non_ascii() {
    let payload = osc52_payload_in("héllo → 世界", false).unwrap();
    let b64 = payload.trim_start_matches("\x1b]52;c;").trim_end_matches('\x07');
    let decoded = STANDARD.decode(b64).unwrap();
    assert_eq!(String::from_utf8(decoded).unwrap(), "héllo → 世界");
}

#[test]
fn copy_uses_the_routes_the_mode_allows() {
    let mut r = Recorder { written: Vec::new(), native: Vec::new(), native_ok: false };
    assert_eq!(copy("hi", ClipboardMode::Auto, &mut r), CopyOutcome::Copied);
    assert_eq!(r.written, vec!["\x1b]52;c;aGk=\x07".to_string()]);
    assert_eq!(r.native, vec!["hi".to_string()]);
    let mut n = Recorder { written: Vec::new(), native: Vec::new(), native_ok: false };
    assert_eq!(copy("hi", ClipboardMode::Native, &mut n), CopyOutcome::Failed);
    assert!(n.written.is_empty());
    let big = "x".repeat(200_000);
    let mut o = Recorder { written: Vec::new(), native: Vec::new(), native_ok: false };
    assert_eq!(copy(&big, ClipboardMode::Osc52, &mut o), CopyOutcome::TooLarge);
    assert_eq!(ClipboardMode::default(), ClipboardMode::Auto);
}

#[test]
fn copy_outcome_follows_the_routes() {
    assert_eq!(copy_outcome(true, false, false), CopyOutcome::Copied);
    assert_eq!(copy_outcome(false, true, true), CopyOutcome::Copied);
    assert_eq!(copy_outcome(false, false, true), CopyOutcome::TooLarge);
    assert_eq!(copy_outcome(false, false, false), CopyOutcome::Failed);
}

#[test]
fn copy_reported_hands_the_terminal_the_osc52_payload() {
    let mut r = Recorder { written: Vec::new(), native: Vec::new(), native_ok: true };
    let (out, rep) = copy_reported("héllo", ClipboardMode::Osc52, &mut r);
    assert_eq!(out, CopyOutcome::Copied);
    assert_eq!(rep.payload, osc52_payload_in("héllo", false));
    assert_eq!(r.written, vec![osc52_payload_in("héllo", false).unwrap()]);
    assert!(rep.osc_ok);
    assert!(!rep.native_tried);
    assert!(r.native.is_empty());
}

#[test]
fn copy_reported_off_and_empty_try_nothing() {
    let (out, rep) = copy_reported("x", ClipboardMode::Off, &mut Untouched);
    assert_eq!(out, CopyOutcome::Disabled);
    assert!(rep.payload.is_none() && !rep.osc_ok && !rep.native_tried);
    let (out, rep) = copy_reported("", ClipboardMode::Native, &mut Untouched);
    assert_eq!(out, CopyOutcome::Empty);
    assert!(!rep.native_tried);
}

#[test]
fn copy_reported_oversized_text_still_reaches_the_native_helper() {
    let big = "x".repeat(200_000);
    let mut r = Recorder { written: Vec::new(), native: Vec::new(), native_ok: true };
    let (out, rep) = copy_reported(&big, ClipboardMode::Auto, &mut r);
    assert_eq!(out, CopyOutcome::Copied);
    assert!(rep.payload.is_none());
    assert!(r.written.is_empty());
    assert_eq!(r.native.len(), 1);
    let mut f = Recorder { written: Vec::new(), native: Vec::new(), native_ok: false };
    let (out, _) = copy_reported(&big, ClipboardMode::Auto, &mut f);
    assert_eq!(out, CopyOutcome::TooLarge);
}
