//! How images are drawn: the user's choice of terminal graphics protocol,
//! and how many terminal cells an image occupies.
use crate::text::{lower_chars, lower_seq, seq_eq};
use vstd::prelude::*;

verus! {

/// How the user asked images to be rendered (`--image-protocol`).
#[derive(Debug, Clone, Copy, PartialEq, Eq, Structural)]
pub enum ProtocolChoice {
    /// Detect the best supported protocol; fall back to half-blocks.
    Auto,
    /// Force Unicode half-blocks (works anywhere with truecolor).
    HalfBlocks,
    Kitty,
    Iterm2,
    Sixel,
}

/// The choice a spelling names, compared ASCII-case-insensitively.
pub open spec fn protocol_named(s: Seq<char>) -> Option<ProtocolChoice> {
    let l = lower_seq(s);
    if l == "auto"@ {
        Some(ProtocolChoice::Auto)
    } else if l == "halfblocks"@ || l == "half-blocks"@ || l == "blocks"@ || l == "unicode"@ {
        Some(ProtocolChoice::HalfBlocks)
    } else if l == "kitty"@ {
        Some(ProtocolChoice::Kitty)
    } else if l == "iterm2"@ || l == "iterm"@ {
        Some(ProtocolChoice::Iterm2)
    } else if l == "sixel"@ {
        Some(ProtocolChoice::Sixel)
    } else {
        None
    }
}

impl ProtocolChoice {
    /// Parse a `--image-protocol` value: `auto`; `halfblocks`, `half-blocks`,
    /// `blocks` or `unicode`; `kitty`; `iterm2` or `iterm`; `sixel` — in any
    /// ASCII case. Anything else is `None`.
    pub fn parse(s: &str) -> (r: Option<Self>)
        ensures
            r == protocol_named(s@),
    {
        let l = lower_chars(s);
        let auto = crate::text::chars_of("auto");
        let halfblocks = crate::text::chars_of("halfblocks");
        let half_blocks = crate::text::chars_of("half-blocks");
        let blocks = crate::text::chars_of("blocks");
        let unicode = crate::text::chars_of("unicode");
        let kitty = crate::text::chars_of("kitty");
        let iterm2 = crate::text::chars_of("iterm2");
        let iterm = crate::text::chars_of("iterm");
        let sixel = crate::text::chars_of("sixel");
        if seq_eq(&l, &auto) {
            Some(ProtocolChoice::Auto)
        } else if seq_eq(&l, &halfblocks) || seq_eq(&l, &half_blocks) || seq_eq(&l, &blocks) || seq_eq(
            &l,
            &unicode,
        ) {
            Some(ProtocolChoice::HalfBlocks)
        } else if seq_eq(&l, &kitty) {
            Some(ProtocolChoice::Kitty)
        } else if seq_eq(&l, &iterm2) || seq_eq(&l, &iterm) {
            Some(ProtocolChoice::Iterm2)
        } else if seq_eq(&l, &sixel) {
            Some(ProtocolChoice::Sixel)
        } else {
            None
        }
    }
}

/// A font dimension, at least 1.
pub open spec fn at_least_one(v: u16) -> int {
    if v > 1 {
        v as int
    } else {
        1
    }
}

/// The columns an image `img_w` pixels wide takes: its natural width in
/// cells, at least 1, capped at `max_cols` (itself taken as at least 1).
pub open spec fn image_cols(img_w: u32, font: (u16, u16), max_cols: u16) -> int {
    let q: int = (img_w as int) / at_least_one(font.0);
    let nat_cols: int = if q > 1 {
        q
    } else {
        1
    };
    let capped: int = if nat_cols < max_cols {
        nat_cols
    } else {
        max_cols as int
    };
    if capped > 1 {
        capped
    } else {
        1
    }
}

/// `a / b` rounded up.
pub open spec fn ceil_div(a: int, b: int) -> int {
    (a + b - 1) / b
}

/// The rows an image takes at `cols` columns: its height at that display
/// width, in cells rounded up, between 1 and `max_rows`.
pub open spec fn image_rows(img_w: u32, img_h: u32, font: (u16, u16), cols: int, max_rows: u16) -> int {
    let display_w_px = cols * at_least_one(font.0);
    let display_h_px = display_w_px * (img_h as int) / (img_w as int);
    let rows = ceil_div(display_h_px, at_least_one(font.1));
    if rows < 1 {
        1
    } else if rows > max_rows {
        max_rows as int
    } else {
        rows
    }
}

/// Given an image's pixel dimensions and the cell size, compute how many
/// terminal cells (cols × rows) it should occupy, fitted to `max_cols` and a
/// row cap, preserving aspect ratio. A degenerate image takes one cell.
pub fn cell_dimensions(img_w: u32, img_h: u32, font: (u16, u16), max_cols: u16, max_rows: u16) -> (r: (
    u16,
    u16,
))
    requires
        max_rows >= 1,
    ensures
        img_w == 0 || img_h == 0 ==> r == (1u16, 1u16),
        img_w > 0 && img_h > 0 ==> r.0 == image_cols(img_w, font, max_cols) && r.1 == image_rows(
            img_w,
            img_h,
            font,
            image_cols(img_w, font, max_cols),
            max_rows,
        ),
        1 <= r.0,
        1 <= r.1 <= max_rows,
        max_cols >= 1 ==> r.0 <= max_cols,
{
    let fw: u64 = if font.0 > 1 {
        font.0 as u64
    } else {
        1
    };
    let fh: u64 = if font.1 > 1 {
        font.1 as u64
    } else {
        1
    };
    if img_w == 0 || img_h == 0 {
        return (1, 1);
    }
    let q = img_w as u64 / fw;
    let nat_cols = if q > 1 {
        q
    } else {
        1
    };
    let capped = if nat_cols < max_cols as u64 {
        nat_cols
    } else {
        max_cols as u64
    };
    let cols = if capped > 1 {
        capped
    } else {
        1
    };
    assert(cols <= 65535);
    assert(cols * fw <= 65535 * 65535) by (nonlinear_arith)
        requires
            cols <= 65535,
            fw <= 65535,
    ;
    let display_w_px = cols * fw;
    assert(display_w_px * (img_h as u64) <= 65535 * 65535 * 0xffff_ffff) by (nonlinear_arith)
        requires
            display_w_px <= 65535 * 65535,
            img_h <= 0xffff_ffff,
    ;
    let display_h_px = display_w_px * (img_h as u64) / (img_w as u64);
    assert(display_h_px % fh > 0 ==> display_h_px / fh < u64::MAX) by (nonlinear_arith)
        requires
            fh >= 1,
    ;
    let rows_up = display_h_px / fh + if display_h_px % fh > 0 {
        1
    } else {
        0
    };
    assert(rows_up == ceil_div(display_h_px as int, fh as int)) by (nonlinear_arith)
        requires
            fh >= 1,
            rows_up == display_h_px / fh + if display_h_px % fh > 0 {
                1int
            } else {
                0int
            },
    ;
    let rows = if rows_up < 1 {
        1
    } else if rows_up > max_rows as u64 {
        max_rows as u64
    } else {
        rows_up
    };
    (cols as u16, rows as u16)
}

} // verus!
