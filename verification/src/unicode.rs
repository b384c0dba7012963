//! Grapheme clusters, word boundaries and display widths, as computed by the
//! `unicode-segmentation` and `unicode-width` crates.
use unicode_segmentation::UnicodeSegmentation;
use unicode_width::{UnicodeWidthChar, UnicodeWidthStr};
use vstd::prelude::*;

verus! {

/// The extended grapheme clusters of `s`, in order
/// (`UnicodeSegmentation::graphemes(s, true)`).
pub uninterp spec fn grapheme_split(s: Seq<char>) -> Seq<Seq<char>>;

/// The pieces of `s` between UAX #29 word boundaries, in order
/// (`UnicodeSegmentation::split_word_bounds`).
pub uninterp spec fn word_split(s: Seq<char>) -> Seq<Seq<char>>;

/// The display width of `s` in terminal cells (`UnicodeWidthStr::width`).
pub uninterp spec fn display_width(s: Seq<char>) -> usize;

/// The display width of a single character, `None` for a control character
/// (`UnicodeWidthChar::width`).
pub uninterp spec fn char_display_width(c: char) -> Option<usize>;

/// Calls `UnicodeSegmentation::graphemes(s, true)` and copies each cluster
/// out. Claimed: the result is `grapheme_split` of `s`, and the clusters
/// concatenate back to `s` (the iterator hands out consecutive slices from
/// the start of `s` to its end).
#[verifier::external_body]
pub(crate) fn graphemes(s: &str) -> (res: Vec<String>)
    ensures
        res@.map_values(|g: String| g@) == grapheme_split(s@),
        res@.map_values(|g: String| g@).flatten() == s@,
{
    let mut out = Vec::new();
    for g in s.graphemes(true) {
        out.push(g.to_string());
    }
    out
}

/// Calls `UnicodeSegmentation::split_word_bounds(s)` and copies each piece
/// out. Claimed: the result is `word_split` of `s`, and the pieces
/// concatenate back to `s` (the crate documents this).
#[verifier::external_body]
pub(crate) fn word_pieces(s: &str) -> (res: Vec<String>)
    ensures
        res@.map_values(|w: String| w@) == word_split(s@),
        res@.map_values(|w: String| w@).flatten() == s@,
{
    let mut out = Vec::new();
    for w in s.split_word_bounds() {
        out.push(w.to_string());
    }
    out
}

/// Calls `UnicodeWidthStr::width(s)`. Claimed: the result is `display_width`
/// of `s`; the empty string is zero cells wide (the crate folds over the
/// characters starting from zero); and printable ASCII takes one cell a
/// character (`width_in_str` gives every character up to U+00A0 one cell,
/// unless the character after it is U+FE0F or it is a carriage return before
/// a line feed, which printable ASCII never has). Nothing else about its
/// value is stated.
#[verifier::external_body]
pub(crate) fn text_width(s: &str) -> (w: usize)
    ensures
        w == display_width(s@),
        s@.len() == 0 ==> w == 0,
        (forall|i: int| 0 <= i < s@.len() ==> ' ' <= #[trigger] s@[i] && s@[i] <= '~') ==> w == s@.len(),
{
    UnicodeWidthStr::width(s)
}

/// Calls `UnicodeWidthChar::width(c)`. Claimed: the result is
/// `char_display_width` of `c`; `None` exactly for the control characters
/// U+0000–U+001F and U+007F–U+009F, and `Some(1)` for printable ASCII (the
/// crate's `single_char_width` tests these ranges before its tables).
#[verifier::external_body]
pub(crate) fn char_width(c: char) -> (w: Option<usize>)
    ensures
        w == char_display_width(c),
        w is None <==> (c < '\u{20}' || ('\u{7f}' <= c && c < '\u{a0}')),
        ('\u{20}' <= c && c < '\u{7f}') ==> w == Some(1usize),
        w matches Some(n) ==> n <= 3,
{
    UnicodeWidthChar::width(c)
}

} // verus!
