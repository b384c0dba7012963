//! Images in documents: which may load, how a source is classified, SVG
//! detection and theming, `data:` URI payloads, and the bounded cache of
//! decoded images.
use crate::net::IMAGE_FETCH_CAP;
use crate::sanitize::{percent_decode_bytes, percent_decoded_bytes};
use crate::text::{
    chars_of, eq_lower, find_at, find_from, lemma_find_from, lower_seq, occurs_at, string_from,
    string_from_utf8,
};
use crate::layout::blocks::{color_hex, LineView};
use crate::layout::{default_style, line_view, pad_span, spaces, StyleView, StyledLine, StyledSpan, SpanStyle};
use base64::engine::general_purpose::STANDARD;
use base64::Engine;
use flate2::read::GzDecoder;
use image::ImageDecoder;
use std::io::Read;
use vstd::prelude::*;
use vstd::utf8::{decode_utf8, valid_utf8};

verus! {

/// Which images a document is allowed to load.
#[derive(Debug, Clone, Copy, PartialEq, Eq, Structural)]
pub enum ImageMode {
    /// No image rendering at all (`--no-images`).
    Off,
    /// Local files only — remote URLs show a placeholder (default; remote
    /// fetches from inside untrusted documents are tracking vectors).
    LocalOnly,
    /// Local files and remote URLs (`--remote-images`).
    All,
}

/// Why an image could not be loaded.
#[derive(Debug, Clone, Copy, PartialEq, Eq, Structural)]
pub enum ImageUnavailable {
    /// Remote image while remote fetching is disabled.
    RemoteBlocked,
    /// The local path does not exist or is not a readable file.
    NotFound,
    /// Oversized, network, or decode failure.
    Failed,
}

/// End of the path part of an image source: the first `?` or `#`, or its
/// length.
pub open spec fn path_end(s: Seq<char>, i: int) -> int
    decreases s.len() - i,
{
    if i < 0 || i >= s.len() {
        s.len() as int
    } else if s[i] == '?' || s[i] == '#' {
        i
    } else {
        path_end(s, i + 1)
    }
}

/// Start of the extension of `p`: just past its last `.`, or 0.
pub open spec fn ext_start(p: Seq<char>) -> int
    decreases p.len(),
{
    if p.len() == 0 {
        0
    } else if p.last() == '.' {
        p.len() as int
    } else {
        ext_start(p.drop_last())
    }
}

/// ASCII lowercase of a byte.
pub open spec fn lower_byte(b: u8) -> u8 {
    if 65 <= b && b <= 90 {
        (b + 32) as u8
    } else {
        b
    }
}

/// `<svg` (any case) at byte `i`.
pub open spec fn svg_tag_at(b: Seq<u8>, i: int) -> bool {
    lower_byte(b[i]) == 60 && lower_byte(b[i + 1]) == 115 && lower_byte(b[i + 2]) == 118
        && lower_byte(b[i + 3]) == 103
}

/// The first 1024 bytes hold `<svg` in any case.
pub open spec fn sniffs_svg(b: Seq<u8>) -> bool {
    let n: int = if b.len() < 1024 {
        b.len() as int
    } else {
        1024
    };
    exists|i: int| 0 <= i && i + 4 <= n && #[trigger] svg_tag_at(b, i)
}

/// An SVG source: the extension of its path (before any `?` or `#`) is
/// `svg` or `svgz` in any case, or its bytes start with an `<svg` tag
/// within the first 1024.
pub open spec fn svg_source(src: Seq<char>, bytes: Seq<u8>) -> bool {
    let p = src.take(path_end(src, 0));
    let e = p.subrange(ext_start(p), p.len() as int);
    ||| lower_seq(e) == "svg"@
    ||| lower_seq(e) == "svgz"@
    ||| sniffs_svg(bytes)
}

fn lower_b(b: u8) -> (r: u8)
    ensures
        r == lower_byte(b),
{
    if 65 <= b && b <= 90 {
        b + 32
    } else {
        b
    }
}

/// Is this an SVG? The raster decoder cannot read SVGs (or gzipped `.svgz`),
/// so they go to the vector rasterizer instead. Checked by extension first,
/// then by sniffing for an `<svg` tag in the header — covers URLs and files
/// with the wrong or no extension.
pub fn is_svg(src: &str, bytes: &[u8]) -> (r: bool)
    ensures
        r == svg_source(src@, bytes@),
{
    let v = chars_of(src);
    let n = v.len();
    let mut pe: usize = 0;
    while pe < n && v[pe] != '?' && v[pe] != '#'
        invariant
            pe <= n,
            n == v@.len(),
            path_end(v@, 0) == path_end(v@, pe as int),
        decreases n - pe,
    {
        pe = pe + 1;
    }
    let ghost p = v@.take(pe as int);
    assert(p.take(pe as int) =~= p);
    let mut es = pe;
    while es > 0 && v[es - 1] != '.'
        invariant
            es <= pe <= n,
            n == v@.len(),
            p == v@.take(pe as int),
            ext_start(p) == ext_start(p.take(es as int)),
        decreases es,
    {
        assert(p.take(es as int).drop_last() =~= p.take(es - 1));
        es = es - 1;
    }
    assert(p.take(pe as int) =~= p);
    let ext = crate::text::sub_vec(&v, es, pe);
    assert(ext@ =~= p.subrange(ext_start(p), p.len() as int));
    if eq_lower(&ext, &chars_of("svg")) || eq_lower(&ext, &chars_of("svgz")) {
        return true;
    }
    let m: usize = if bytes.len() < 1024 {
        bytes.len()
    } else {
        1024
    };
    if m < 4 {
        return false;
    }
    let mut i: usize = 0;
    while m - i >= 4
        invariant
            i <= m,
            m <= bytes@.len(),
            m == (if bytes@.len() < 1024 {
                bytes@.len() as int
            } else {
                1024
            }),
            forall|j: int| 0 <= j < i ==> !#[trigger] svg_tag_at(bytes@, j),
        decreases m - i,
    {
        if lower_b(bytes[i]) == 60 && lower_b(bytes[i + 1]) == 115 && lower_b(bytes[i + 2]) == 118
            && lower_b(bytes[i + 3]) == 103 {
            assert(svg_tag_at(bytes@, i as int));
            return true;
        }
        i = i + 1;
    }
    false
}

/// Index of the root tag's closing `>` in `s` from `i` on, `quote` being
/// the open quote if inside a quoted attribute value.
pub open spec fn tag_end_from(s: Seq<char>, i: int, quote: Option<char>) -> Option<int>
    decreases s.len() - i,
{
    if i < 0 || i >= s.len() {
        None
    } else {
        let c = s[i];
        match quote {
            Some(q) => if c == q {
                tag_end_from(s, i + 1, None)
            } else {
                tag_end_from(s, i + 1, quote)
            },
            None => if c == '"' || c == '\'' {
                tag_end_from(s, i + 1, Some(c))
            } else if c == '>' {
                Some(i)
            } else {
                tag_end_from(s, i + 1, None)
            },
        }
    }
}

proof fn lemma_tag_end(s: Seq<char>, i: int, quote: Option<char>)
    ensures
        tag_end_from(s, i, quote) matches Some(e) ==> i <= e < s.len() && s[e] == '>',
    decreases s.len() - i,
{
    if !(i < 0 || i >= s.len()) {
        let c = s[i];
        match quote {
            Some(q) => if c == q {
                lemma_tag_end(s, i + 1, None);
            } else {
                lemma_tag_end(s, i + 1, quote);
            },
            None => if c == '"' || c == '\'' {
                lemma_tag_end(s, i + 1, Some(c));
            } else if c != '>' {
                lemma_tag_end(s, i + 1, None);
            },
        }
    }
}

/// Index of the root tag's closing `>` in `v[lo..]` (relative to `lo`) —
/// quote-aware, so a `>` inside a quoted attribute value does not end the
/// tag.
fn svg_root_tag_end(v: &Vec<char>, lo: usize) -> (r: Option<usize>)
    requires
        lo <= v@.len(),
    ensures
        match r {
            Some(e) => tag_end_from(v@.subrange(lo as int, v@.len() as int), 0, None) == Some(e as int),
            None => tag_end_from(v@.subrange(lo as int, v@.len() as int), 0, None) is None,
        },
{
    let ghost s = v@.subrange(lo as int, v@.len() as int);
    let n = v.len();
    let mut quote: Option<char> = None;
    let mut i = lo;
    while i < n
        invariant
            lo <= i <= n,
            n == v@.len(),
            s == v@.subrange(lo as int, n as int),
            tag_end_from(s, 0, None) == tag_end_from(s, i - lo, quote),
        decreases n - i,
    {
        let c = v[i];
        assert(s[i - lo] == c);
        match quote {
            Some(q) => {
                if c == q {
                    quote = None;
                }
            },
            None => {
                if c == '"' || c == '\'' {
                    quote = Some(c);
                } else if c == '>' {
                    return Some(i - lo);
                }
            },
        }
        i = i + 1;
    }
    None
}

/// A color that may be spliced into markup: only `#` and hex digits.
pub open spec fn plain_hex_color(color: Seq<char>) -> bool {
    forall|i: int|
        0 <= i < color.len() ==> {
            let c = #[trigger] color[i];
            c == '#' || ('0' <= c && c <= '9') || ('a' <= c && c <= 'f') || ('A' <= c && c <= 'F')
        }
}

/// The SVG text with `color="..."` set on its root tag, as
/// `inject_current_color` builds it; `None` when it leaves the document
/// alone: the color is not a plain hex value, the bytes are not UTF-8, there
/// is no `<svg` root tag (or it never closes), or the root tag already
/// mentions `color`.
pub open spec fn color_injected(bytes: Seq<u8>, color: Seq<char>) -> Option<Seq<char>> {
    if !plain_hex_color(color) || !valid_utf8(bytes) {
        None
    } else {
        let t = decode_utf8(bytes);
        match find_from(t, "<svg"@, 0) {
            None => None,
            Some(start) => match tag_end_from(t.subrange(start, t.len() as int), 0, None) {
                None => None,
                Some(e) => {
                    let end = start + e;
                    if exists|i: int| occurs_at(t.subrange(start, end), "color"@, i) {
                        None
                    } else {
                        let ins = if end > 0 && t[end - 1] == '/' {
                            end - 1
                        } else {
                            end
                        };
                        Some(t.take(ins) + " color=\""@ + color + "\""@ + t.subrange(ins, t.len() as int))
                    }
                },
            },
        }
    }
}

fn is_plain_hex(color: &str) -> (b: bool)
    ensures
        b == plain_hex_color(color@),
{
    let v = chars_of(color);
    let mut i: usize = 0;
    while i < v.len()
        invariant
            v@ == color@,
            i <= v@.len(),
            forall|j: int|
                0 <= j < i ==> {
                    let c = #[trigger] v@[j];
                    c == '#' || ('0' <= c && c <= '9') || ('a' <= c && c <= 'f') || ('A' <= c && c <= 'F')
                },
        decreases v@.len() - i,
    {
        let c = v[i];
        if !(c == '#' || ('0' <= c && c <= '9') || ('a' <= c && c <= 'f') || ('A' <= c && c <= 'F')) {
            return false;
        }
        i = i + 1;
    }
    true
}

/// Set the SVG root's `color` presentation attribute so `currentColor`
/// resolves to the theme foreground. Skipped when the document sets its own
/// `color`, when the color string isn't a plain hex value (it is spliced
/// into markup), or for non-UTF-8 input (gzipped `.svgz`). Returns the new
/// document text.
pub fn inject_current_color(bytes: &[u8], color: &str) -> (r: Option<String>)
    ensures
        match r {
            Some(t) => color_injected(bytes@, color@) == Some(t@),
            None => color_injected(bytes@, color@) is None,
        },
{
    if !is_plain_hex(color) {
        return None;
    }
    let mut owned: Vec<u8> = Vec::new();
    let mut k: usize = 0;
    while k < bytes.len()
        invariant
            k <= bytes@.len(),
            owned@ == bytes@.take(k as int),
        decreases bytes@.len() - k,
    {
        owned.push(bytes[k]);
        assert(bytes@.take(k + 1) =~= bytes@.take(k as int).push(bytes@[k as int]));
        k = k + 1;
    }
    assert(bytes@.take(bytes@.len() as int) =~= bytes@);
    let text = match string_from_utf8(owned) {
        Some(t) => t,
        None => return None,
    };
    let v = chars_of(text.as_str());
    let n = v.len();
    let pat = chars_of("<svg");
    proof {
        reveal_strlit("<svg");
        reveal_strlit("color");
        assert(v@.subrange(0, n as int) =~= v@);
    }
    let start = match find_at(&v, 0, &pat) {
        Some(j) => j,
        None => return None,
    };
    proof {
        lemma_find_from(v@, pat@, 0);
    }
    let e = match svg_root_tag_end(&v, start) {
        Some(e) => e,
        None => return None,
    };
    proof {
        lemma_tag_end(v@.subrange(start as int, n as int), 0, None);
    }
    let end = start + e;
    let tag = crate::text::sub_vec(&v, start, end);
    let word = chars_of("color");
    if crate::text::contains_seq(&tag, &word) {
        return None;
    }
    let ins = if end > 0 && v[end - 1] == '/' {
        end - 1
    } else {
        end
    };
    let mut out = string_from(&v, 0, ins);
    out.append(" color=\"");
    out.append(color);
    out.append("\"");
    crate::text::push_range(&mut out, &v, ins, n);
    proof {
        assert(v@.subrange(0, ins as int) =~= v@.take(ins as int));
    }
    Some(out)
}

/// The standard base64 decoding of `bytes`, when they are valid base64.
pub uninterp spec fn base64_decoded(bytes: Seq<u8>) -> Option<Seq<u8>>;

/// Calls `base64::engine::general_purpose::STANDARD.decode`. Claimed: the
/// result is `base64_decoded` of `bytes` (`None` for the decode error).
#[verifier::external_body]
fn base64_decode(bytes: &[u8]) -> (r: Option<Vec<u8>>)
    ensures
        match r {
            Some(v) => base64_decoded(bytes@) == Some(v@),
            None => base64_decoded(bytes@) is None,
        },
{
    STANDARD.decode(bytes).ok()
}

/// The payload bytes of a `data:` URI remainder
/// (`[<mediatype>][;base64],<payload>`): base64-decoded (the payload
/// trimmed) when the metadata ends in `;base64` in any case, else
/// percent-decoded; `None` without a comma, for bad base64, or past the
/// image size cap.
pub open spec fn data_uri_bytes(rest: Seq<char>) -> Option<Seq<u8>> {
    let c = crate::text::first_index(rest, ',') as int;
    if c >= rest.len() {
        None
    } else {
        {
            let meta = rest.take(c);
            let payload = rest.subrange(c + 1, rest.len() as int);
            let lm = lower_seq(meta);
            let decoded = if lm.len() >= 7 && lm.subrange(lm.len() - 7, lm.len() as int) == ";base64"@ {
                base64_decoded(vstd::utf8::encode_utf8(crate::text::trim(payload)))
            } else {
                Some(percent_decoded_bytes(vstd::utf8::encode_utf8(payload), 0))
            };
            match decoded {
                None => None,
                Some(b) => if b.len() <= IMAGE_FETCH_CAP {
                    Some(b)
                } else {
                    None
                },
            }
        }
    }
}


/// Decode the remainder of a `data:` URI (`[<mediatype>][;base64],<payload>`).
pub fn decode_data_uri(rest: &str) -> (r: Option<Vec<u8>>)
    ensures
        match r {
            Some(b) => data_uri_bytes(rest@) == Some(b@),
            None => data_uri_bytes(rest@) is None,
        },
{
    let v = chars_of(rest);
    let n = v.len();
    let c = crate::text::first_index_at(&v, 0, n, ',');
    proof {
        assert(v@.subrange(0, n as int) =~= v@);
    }
    if c >= n {
        return None;
    }
    let meta = crate::text::string_from(&v, 0, c);
    let lm = crate::text::lower_chars(meta.as_str());
    let b64 = chars_of(";base64");
    let is_b64 = lm.len() >= 7 && crate::text::range_eq(&lm, lm.len() - 7, lm.len(), &b64);
    proof {
        assert(meta@ =~= v@.take(c as int));
    }
    let bytes = if is_b64 {
        let lo = crate::text::trim_start_at(&v, c + 1, n);
        let hi = crate::text::trim_end_at(&v, lo, n);
        let t = string_from(&v, lo, hi);
        proof {
            assert(t@ == crate::text::trim(v@.subrange(c + 1, n as int)));
        }
        match base64_decode(t.as_str().as_bytes()) {
            Some(b) => b,
            None => return None,
        }
    } else {
        let payload = string_from(&v, c + 1, n);
        percent_decode_bytes(payload.as_str().as_bytes())
    };
    if (bytes.len() as u64) <= IMAGE_FETCH_CAP {
        Some(bytes)
    } else {
        None
    }
}

/// Most bytes a gzipped SVG may expand to (a tiny `.svgz` must not expand
/// into gigabytes).
pub const GUNZIP_CAP: u64 = 67108864;

/// The first `limit` bytes (or fewer) that gzip-decompressing `bytes`
/// yields, when the stream decodes that far.
pub uninterp spec fn gunzipped(bytes: Seq<u8>, limit: u64) -> Option<Seq<u8>>;

/// Reads at most `limit` bytes from `flate2::read::GzDecoder` over `bytes`
/// (`Read::take` then `read_to_end`). Claimed: the result is `gunzipped` of
/// the arguments (`None` for a read error), never longer than `limit`.
#[verifier::external_body]
fn gunzip_prefix(bytes: &[u8], limit: u64) -> (r: Option<Vec<u8>>)
    ensures
        match r {
            Some(v) => gunzipped(bytes@, limit) == Some(v@) && v@.len() <= limit,
            None => gunzipped(bytes@, limit) is None,
        },
{
    let mut out = Vec::new();
    GzDecoder::new(bytes).take(limit).read_to_end(&mut out).ok()?;
    Some(out)
}

/// The decompressed bytes of a gzip stream, unless it does not decode or
/// expands past `GUNZIP_CAP`.
pub open spec fn gunzip_capped_of(bytes: Seq<u8>) -> Option<Seq<u8>> {
    match gunzipped(bytes, (GUNZIP_CAP + 1) as u64) {
        Some(v) => if v.len() <= GUNZIP_CAP {
            Some(v)
        } else {
            None
        },
        None => None,
    }
}

/// Decompress gzip input with a hard output cap.
pub fn gunzip_capped(bytes: &[u8]) -> (r: Option<Vec<u8>>)
    ensures
        match r {
            Some(v) => gunzip_capped_of(bytes@) == Some(v@),
            None => gunzip_capped_of(bytes@) is None,
        },
{
    match gunzip_prefix(bytes, GUNZIP_CAP + 1) {
        Some(v) => if (v.len() as u64) <= GUNZIP_CAP {
            Some(v)
        } else {
            None
        },
        None => None,
    }
}

/// The SVG text handed to the rasterizer: gzip input (magic `1f 8b`)
/// decompressed when that succeeds, then the theme color injected into the
/// root tag when one is given and the injection applies.
pub open spec fn prepared_svg(bytes: Seq<u8>, color: Option<Seq<char>>) -> Seq<u8> {
    let unz = if bytes.len() >= 2 && bytes[0] == 0x1f && bytes[1] == 0x8b {
        match gunzip_capped_of(bytes) {
            Some(v) => v,
            None => bytes,
        }
    } else {
        bytes
    };
    match color {
        Some(c) => match color_injected(unz, c) {
            Some(t) => vstd::utf8::encode_utf8(t),
            None => unz,
        },
        None => unz,
    }
}

/// Prepare SVG bytes for rasterizing: gunzip `.svgz` input, then make
/// `currentColor` follow `color`.
pub fn prepare_svg(bytes: &[u8], color: Option<&str>) -> (r: Vec<u8>)
    ensures
        r@ == prepared_svg(bytes@, match color {
            Some(c) => Some(c@),
            None => None,
        }),
{
    let gz = bytes.len() >= 2 && bytes[0] == 0x1f && bytes[1] == 0x8b;
    let unz: Vec<u8> = if gz {
        match gunzip_capped(bytes) {
            Some(v) => v,
            None => vstd::slice::slice_to_vec(bytes),
        }
    } else {
        vstd::slice::slice_to_vec(bytes)
    };
    match color {
        Some(c) => match inject_current_color(unz.as_slice(), c) {
            Some(t) => vstd::slice::slice_to_vec(t.as_str().as_bytes()),
            None => unz,
        },
        None => unz,
    }
}

/// The pixels that decoding `bytes` as a raster image gives (format guessed
/// from the content, EXIF orientation applied): width, height and RGBA
/// bytes, when the bytes decode.
pub uninterp spec fn decoded_raster(bytes: Seq<u8>) -> Option<(u32, u32, Seq<u8>)>;

/// Decodes with `image::ImageReader` (`with_guessed_format`,
/// `into_decoder`, `DynamicImage::from_decoder`), applies the decoder's
/// orientation, and converts `to_rgba8`. Claimed: the result is
/// `decoded_raster(bytes)` (`None` for any decode error), and an RGBA buffer
/// holds four bytes per pixel.
#[verifier::external_body]
pub(crate) fn decode_raster(bytes: &[u8]) -> (r: Option<(u32, u32, Vec<u8>)>)
    ensures
        match r {
            Some((w, h, v)) => decoded_raster(bytes@) == Some((w, h, v@)) && v@.len() == w * h * 4,
            None => decoded_raster(bytes@) is None,
        },
{
    let reader = image::ImageReader::new(std::io::Cursor::new(bytes)).with_guessed_format().ok()?;
    let mut decoder = reader.into_decoder().ok()?;
    let orientation = decoder.orientation().ok();
    let mut img = image::DynamicImage::from_decoder(decoder).ok()?;
    if let Some(o) = orientation {
        img.apply_orientation(o);
    }
    let rgba = img.to_rgba8();
    Some((rgba.width(), rgba.height(), rgba.into_raw()))
}

/// What to do with an image's bytes: an SVG goes to the rasterizer
/// prepared (decompressed and themed), anything else is decoded as a raster
/// image here.
#[derive(Debug, Clone)]
pub enum Decoding {
    Svg(Vec<u8>),
    Raster(Option<(u32, u32, Vec<u8>)>),
}

/// Route the bytes of the image `src`: an SVG (by extension or by its
/// markup) is prepared for the rasterizer with `svg_color` as its
/// `currentColor`; other bytes are decoded, `None` when they do not decode.
pub fn decode_source(src: &str, bytes: &[u8], svg_color: Option<&str>) -> (r: Decoding)
    ensures
        svg_source(src@, bytes@) ==> (r matches Decoding::Svg(b) && b@ == prepared_svg(
            bytes@,
            match svg_color {
                Some(c) => Some(c@),
                None => None,
            },
        )),
        !svg_source(src@, bytes@) ==> (r matches Decoding::Raster(d) && match d {
            Some((w, h, v)) => decoded_raster(bytes@) == Some((w, h, v@)) && v@.len() == w * h * 4,
            None => decoded_raster(bytes@) is None,
        }),
{
    if is_svg(src, bytes) {
        Decoding::Svg(prepare_svg(bytes, svg_color))
    } else {
        Decoding::Raster(decode_raster(bytes))
    }
}

/// Does the raster decoder work on this build: do `bytes` decode?
pub fn self_test_decode(bytes: &[u8]) -> (ok: bool)
    ensures
        ok == decoded_raster(bytes@) is Some,
{
    decode_raster(bytes).is_some()
}

/// Where an image's bytes come from.
#[derive(Debug, Clone, PartialEq, Eq)]
pub enum SourceKind {
    /// A remote URL (only reachable in `ImageMode::All`).
    Remote,
    /// A `data:` URI; the text after the scheme.
    DataUri(String),
    /// A local path (a `file://` URL's path, or the source itself).
    Local(String),
}

/// `s` starts with `p`.
pub open spec fn has_prefix(s: Seq<char>, p: Seq<char>) -> bool {
    p.len() <= s.len() && s.take(p.len() as int) == p
}

/// `s` without the prefix `p` when it has it.
pub open spec fn without_prefix(s: Seq<char>, p: Seq<char>) -> Seq<char> {
    if has_prefix(s, p) {
        s.subrange(p.len() as int, s.len() as int)
    } else {
        s
    }
}

/// The kind of source `src` is: `http://` and `https://` are remote (blocked
/// unless remote images are on); `data:` is inline data; anything else is a
/// local path, a `file://` URL (with an optional `localhost` host) read as
/// its path.
pub open spec fn source_kind(src: Seq<char>, mode: ImageMode) -> Result<(bool, Seq<char>), ImageUnavailable> {
    if has_prefix(src, "http://"@) || has_prefix(src, "https://"@) {
        if mode != ImageMode::All {
            Err(ImageUnavailable::RemoteBlocked)
        } else {
            Ok((true, src))
        }
    } else if has_prefix(src, "data:"@) {
        Ok((false, src.subrange(5, src.len() as int)))
    } else if has_prefix(src, "file://"@) {
        Ok((false, without_prefix(src.subrange(7, src.len() as int), "localhost"@)))
    } else {
        Ok((false, src))
    }
}

fn starts_with(v: &Vec<char>, lo: usize, p: &str) -> (b: bool)
    requires
        lo <= v@.len(),
    ensures
        b == has_prefix(v@.subrange(lo as int, v@.len() as int), p@),
{
    let pv = chars_of(p);
    if v.len() - lo < pv.len() {
        return false;
    }
    let r = crate::text::range_eq(v, lo, lo + pv.len(), &pv);
    assert(v@.subrange(lo as int, v@.len() as int).take(pv@.len() as int) =~= v@.subrange(
        lo as int,
        lo + pv@.len(),
    ));
    r
}

/// Classify an image source, without any I/O. A remote URL while remote
/// images are off is `RemoteBlocked`.
pub fn classify_source(src: &str, mode: ImageMode) -> (r: Result<SourceKind, ImageUnavailable>)
    ensures
        match r {
            Err(e) => source_kind(src@, mode) == Err::<(bool, Seq<char>), ImageUnavailable>(e),
            Ok(SourceKind::Remote) => source_kind(src@, mode) == Ok::<(bool, Seq<char>), ImageUnavailable>((true, src@)),
            Ok(SourceKind::DataUri(rest)) => has_prefix(src@, "data:"@) && source_kind(src@, mode) == Ok::<(bool, Seq<char>), ImageUnavailable>((false, rest@)),
            Ok(SourceKind::Local(path)) => !has_prefix(src@, "data:"@) && source_kind(src@, mode) == Ok::<(bool, Seq<char>), ImageUnavailable>((false, path@)),
        },
{
    let v = chars_of(src);
    let n = v.len();
    proof {
        assert(v@.subrange(0, n as int) =~= v@);
        reveal_strlit("data:");
        reveal_strlit("file://");
    }
    if starts_with(&v, 0, "http://") || starts_with(&v, 0, "https://") {
        if mode != ImageMode::All {
            return Err(ImageUnavailable::RemoteBlocked);
        }
        return Ok(SourceKind::Remote);
    }
    if starts_with(&v, 0, "data:") {
        return Ok(SourceKind::DataUri(string_from(&v, 5, n)));
    }
    if starts_with(&v, 0, "file://") {
        if starts_with(&v, 7, "localhost") {
            proof {
                reveal_strlit("localhost");
                assert(v@.subrange(7, n as int).subrange(9, n - 7) =~= v@.subrange(16, n as int));
            }
            return Ok(SourceKind::Local(string_from(&v, 16, n)));
        }
        return Ok(SourceKind::Local(string_from(&v, 7, n)));
    }
    Ok(SourceKind::Local(string_from(&v, 0, n)))
}

/// Bound on cached images. When an insert of a new key would exceed it, the
/// whole cache is cleared first — crude generational eviction; re-decoding
/// one screenful after a rare purge is cheap.
pub const IMAGE_CACHE_CAP: usize = 64;

/// The value cached under `k`, looking from the newest entry back.
pub open spec fn lookup<V>(es: Seq<(Seq<char>, V)>, k: Seq<char>) -> Option<V>
    decreases es.len(),
{
    if es.len() == 0 {
        None
    } else if es.last().0 == k {
        Some(es.last().1)
    } else {
        lookup(es.drop_last(), k)
    }
}

/// No key occurs twice.
pub open spec fn keys_distinct<V>(es: Seq<(Seq<char>, V)>) -> bool {
    forall|i: int, j: int| 0 <= i < j < es.len() ==> #[trigger] es[i].0 != #[trigger] es[j].0
}

proof fn lemma_lookup_at<V>(es: Seq<(Seq<char>, V)>, i: int)
    requires
        keys_distinct(es),
        0 <= i < es.len(),
    ensures
        lookup(es, es[i].0) == Some(es[i].1),
    decreases es.len(),
{
    if i < es.len() - 1 {
        assert(es[i].0 != es[es.len() - 1].0);
        assert(es.drop_last()[i] == es[i]);
        lemma_lookup_at(es.drop_last(), i);
    }
}

proof fn lemma_lookup_absent<V>(es: Seq<(Seq<char>, V)>, k: Seq<char>)
    requires
        forall|i: int| 0 <= i < es.len() ==> #[trigger] es[i].0 != k,
    ensures
        lookup(es, k) is None,
    decreases es.len(),
{
    if es.len() > 0 {
        assert(es[es.len() - 1].0 != k);
        assert forall|i: int| 0 <= i < es.drop_last().len() implies #[trigger] es.drop_last()[i].0 != k by {
            assert(es.drop_last()[i] == es[i]);
        }
        lemma_lookup_absent(es.drop_last(), k);
    }
}

proof fn lemma_lookup_found<V>(es: Seq<(Seq<char>, V)>, k: Seq<char>)
    requires
        lookup(es, k) is Some,
    ensures
        exists|i: int| 0 <= i < es.len() && #[trigger] es[i].0 == k && lookup(es, k) == Some(es[i].1),
    decreases es.len(),
{
    if es.last().0 != k {
        lemma_lookup_found(es.drop_last(), k);
        let i = choose|i: int| 0 <= i < es.drop_last().len() && #[trigger] es.drop_last()[i].0 == k && lookup(es.drop_last(), k) == Some(es.drop_last()[i].1);
        assert(es[i] == es.drop_last()[i]);
    } else {
        assert(es[es.len() - 1].0 == k);
    }
}

/// Removing an entry keeps the keys distinct.
proof fn lemma_remove_distinct<V>(es: Seq<(Seq<char>, V)>, i: int)
    requires
        keys_distinct(es),
        0 <= i < es.len(),
    ensures
        keys_distinct(es.remove(i)),
{
    let r = es.remove(i);
    assert forall|a: int, b: int| 0 <= a < b < r.len() implies #[trigger] r[a].0 != #[trigger] r[b].0 by {
        let ia = if a < i { a } else { a + 1 };
        let ib = if b < i { b } else { b + 1 };
        assert(r[a] == es[ia]);
        assert(r[b] == es[ib]);
    }
}

/// Looking up any other key is unaffected by removing entry `i`.
proof fn lemma_lookup_remove<V>(es: Seq<(Seq<char>, V)>, i: int, k: Seq<char>)
    requires
        keys_distinct(es),
        0 <= i < es.len(),
        k != es[i].0,
    ensures
        lookup(es.remove(i), k) == lookup(es, k),
{
    let r = es.remove(i);
    lemma_remove_distinct(es, i);
    if lookup(es, k) is Some {
        lemma_lookup_found(es, k);
        let j = choose|j: int| 0 <= j < es.len() && #[trigger] es[j].0 == k && lookup(es, k) == Some(es[j].1);
        let jr = if j < i { j } else { j - 1 };
        assert(r[jr] == es[j]);
        lemma_lookup_at(r, jr);
    } else {
        assert forall|a: int| 0 <= a < r.len() implies #[trigger] r[a].0 != k by {
            let ia = if a < i { a } else { a + 1 };
            assert(r[a] == es[ia]);
            if es[ia].0 == k {
                lemma_lookup_at(es, ia);
            }
        }
        lemma_lookup_absent(r, k);
    }
}

/// A bounded cache of decoded images (or of why they failed), keyed by a
/// stable identity of their source.
pub struct ImageCache<V> {
    entries: Vec<(String, V)>,
}

impl<V> ImageCache<V> {
    /// The entries as keys and values, oldest first.
    pub closed spec fn entries_view(&self) -> Seq<(Seq<char>, V)> {
        self.entries@.map_values(|e: (String, V)| (e.0@, e.1))
    }

    /// The value cached under `k`, if any.
    pub open spec fn cached(&self, k: Seq<char>) -> Option<V> {
        lookup(self.entries_view(), k)
    }

    /// Number of cached entries.
    pub open spec fn size(&self) -> nat {
        self.entries_view().len()
    }

    /// Keys are distinct and the cache holds at most `IMAGE_CACHE_CAP`
    /// entries.
    pub open spec fn wf(&self) -> bool {
        keys_distinct(self.entries_view()) && self.size() <= IMAGE_CACHE_CAP
    }

    /// An empty cache.
    pub fn new() -> (c: Self)
        ensures
            c.wf(),
            c.size() == 0,
            forall|k: Seq<char>| #[trigger] c.cached(k) is None,
    {
        let c = ImageCache { entries: Vec::new() };
        assert(c.entries_view() =~= Seq::<(Seq<char>, V)>::empty());
        c
    }

    /// Number of cached entries.
    pub fn len(&self) -> (n: usize)
        ensures
            n == self.size(),
    {
        self.entries.len()
    }

    fn index_of(&self, key: &str) -> (r: Option<usize>)
        ensures
            match r {
                Some(i) => i < self.size() && self.entries_view()[i as int].0 == key@,
                None => forall|i: int| 0 <= i < self.size() ==> #[trigger] self.entries_view()[i].0 != key@,
            },
    {
        let k = chars_of(key);
        let mut i: usize = 0;
        while i < self.entries.len()
            invariant
                i <= self.entries@.len(),
                k@ == key@,
                forall|j: int| 0 <= j < i ==> #[trigger] self.entries_view()[j].0 != key@,
            decreases self.entries@.len() - i,
        {
            let e = chars_of(self.entries[i].0.as_str());
            if crate::text::seq_eq(&e, &k) {
                return Some(i);
            }
            i = i + 1;
        }
        None
    }

    /// The value cached under `key`, if any.
    pub fn get(&self, key: &str) -> (r: Option<&V>)
        requires
            self.wf(),
        ensures
            match r {
                Some(v) => self.cached(key@) == Some(*v),
                None => self.cached(key@) is None,
            },
    {
        match self.index_of(key) {
            Some(i) => {
                proof {
                    lemma_lookup_at(self.entries_view(), i as int);
                }
                Some(&self.entries[i].1)
            },
            None => {
                proof {
                    lemma_lookup_absent(self.entries_view(), key@);
                }
                None
            },
        }
    }

    /// Cache `value` under `key`, replacing any value it had. When the cache
    /// is full and `key` is new, everything else is evicted first.
    pub fn insert(&mut self, key: String, value: V)
        requires
            old(self).wf(),
        ensures
            final(self).wf(),
            1 <= final(self).size() <= IMAGE_CACHE_CAP,
            final(self).cached(key@) == Some(value),
            forall|k: Seq<char>|
                k != key@ ==> #[trigger] final(self).cached(k) == (if old(self).size() >= IMAGE_CACHE_CAP
                    && old(self).cached(key@) is None {
                    None
                } else {
                    old(self).cached(k)
                }),
    {
        let ghost before = self.entries_view();
        match self.index_of(key.as_str()) {
            Some(i) => {
                let _ = self.entries.remove(i);
                proof {
                    assert(self.entries_view() =~= before.remove(i as int));
                    assert forall|k: Seq<char>| k != key@ implies lookup(self.entries_view(), k) == lookup(before, k) by {
                        lemma_lookup_remove(before, i as int, k);
                    }
                    lemma_remove_distinct(before, i as int);
                    assert forall|j: int| 0 <= j < self.entries_view().len() implies #[trigger] self.entries_view()[j].0 != key@ by {
                        let ij = if j < i { j } else { j + 1 };
                        assert(self.entries_view()[j] == before[ij]);
                        assert(before[i as int].0 == key@);
                    }
                    lemma_lookup_at(before, i as int);
                }
            },
            None => {
                proof {
                    lemma_lookup_absent(before, key@);
                }
                if self.entries.len() >= IMAGE_CACHE_CAP {
                    self.entries.clear();
                    proof {
                        assert(self.entries_view() =~= Seq::<(Seq<char>, V)>::empty());
                    }
                }
            },
        }
        let ghost mid = self.entries_view();
        proof {
            assert forall|k: Seq<char>| k != key@ implies #[trigger] lookup(mid, k) == (if before.len()
                >= IMAGE_CACHE_CAP && lookup(before, key@) is None {
                None
            } else {
                lookup(before, k)
            }) by {
                if lookup(before, key@) is None && before.len() >= IMAGE_CACHE_CAP {
                    assert(mid =~= Seq::<(Seq<char>, V)>::empty());
                }
            }
        }
        self.entries.push((key, value));
        proof {
            let kv = key@;
            assert(self.entries_view() =~= mid.push((kv, value)));
            assert(self.entries_view().drop_last() =~= mid);
            assert forall|k: Seq<char>| k != key@ implies #[trigger] lookup(self.entries_view(), k) == lookup(mid, k) by {
                assert(self.entries_view().last().0 == key@);
            }
            assert forall|a: int, b: int| 0 <= a < b < self.entries_view().len() implies #[trigger] self.entries_view()[a].0 != #[trigger] self.entries_view()[b].0 by {
                if b == mid.len() {
                    assert(self.entries_view()[a] == mid[a]);
                } else {
                    assert(self.entries_view()[a] == mid[a]);
                    assert(self.entries_view()[b] == mid[b]);
                }
            }
        }
    }
}

/// A decoded image, as layout needs it.
#[derive(Debug, Clone)]
pub struct Picture {
    /// The number the caller finds the image by again.
    pub id: usize,
    pub width: u32,
    pub height: u32,
    /// RGBA pixels, row by row, four bytes each.
    pub rgba: Vec<u8>,
    /// Entry `w - 1`: the height the image keeps when scaled to width `w`
    /// (the aspect-preserving height in floating point, truncated), for `w`
    /// from 1 up.
    pub scaled_heights: Vec<u32>,
}

/// What loading the image of an image-only paragraph gave.
#[derive(Debug, Clone)]
pub enum ImageLoad {
    /// Not loaded: images are off, or the image shares its paragraph.
    Skipped,
    /// A remote image while remote images are not allowed.
    RemoteBlocked,
    /// A local image that does not exist or is not a readable file.
    NotFound,
    /// Too large, unreachable, or undecodable.
    Failed,
    Loaded(Picture),
}

/// The widest a half-block image is drawn, in cells.
pub const MAX_IMAGE_WIDTH: u32 = 60;

/// The tallest a half-block image is drawn, in rows (two pixels each).
pub const MAX_IMAGE_HEIGHT: u32 = 24;

/// The RGBA pixels of an image `w` × `h` resized to `tw` × `th` with a
/// triangle filter (`image::imageops::resize`).
pub uninterp spec fn resized(w: u32, h: u32, rgba: Seq<u8>, tw: u32, th: u32) -> Seq<u8>;

/// Calls `image::RgbaImage::from_raw` on the pixels, then
/// `image::imageops::resize` with `FilterType::Triangle`, and hands back
/// the raw pixels. Claimed: `None` exactly when the pixels are fewer than
/// `w * h * 4` bytes (`from_raw` returns `None` when its container is not
/// big enough); otherwise `tw * th * 4` bytes, named `resized`.
#[verifier::external_body]
fn resize_rgba(w: u32, h: u32, rgba: &Vec<u8>, tw: u32, th: u32) -> (r: Option<Vec<u8>>)
    ensures
        r is Some <==> rgba@.len() >= w * h * 4,
        r matches Some(v) ==> v@.len() == tw * th * 4 && v@ == resized(w, h, rgba@, tw, th),
{
    let img = image::RgbaImage::from_raw(w, h, rgba.clone())?;
    Some(image::imageops::resize(&img, tw, th, image::imageops::FilterType::Triangle).into_raw())
}

/// The smaller of two widths.
pub open spec fn min_u32(a: u32, b: u32) -> u32 {
    if a < b {
        a
    } else {
        b
    }
}

/// The width a half-block image is drawn at: its own, at most 60 and at
/// most the text width.
pub open spec fn target_width(pic: Picture, max_width: usize) -> u32 {
    min_u32(
        if max_width < MAX_IMAGE_WIDTH {
            max_width as u32
        } else {
            MAX_IMAGE_WIDTH
        },
        pic.width,
    )
}

/// The height the image keeps at width `tw`.
pub open spec fn scaled_height(pic: Picture, tw: u32) -> u32 {
    if 1 <= tw <= pic.scaled_heights@.len() {
        pic.scaled_heights@[tw - 1]
    } else {
        ((pic.height as int * tw as int) / (pic.width as int)) as u32
    }
}

/// The pixel height a half-block image is drawn at: the scaled height, at
/// most 48, made even, at least 2.
pub open spec fn target_height(pic: Picture, tw: u32) -> u32 {
    let h0 = min_u32(scaled_height(pic, tw), (MAX_IMAGE_HEIGHT * 2) as u32);
    let h1 = if h0 % 2 == 1 {
        (h0 + 1) as u32
    } else {
        h0
    };
    if h1 == 0 {
        2
    } else {
        h1
    }
}

/// A channel `c` at opacity `a` over the background channel `b`.
pub open spec fn over(c: u8, b: u8, a: u8) -> u8 {
    ((c as int * a as int + b as int * (255 - a as int)) / 255) as u8
}

/// The pixel at (`x`, `y`) of RGBA pixels `tw` wide, blended over `bg`.
pub open spec fn blended(px: Seq<u8>, tw: int, x: int, y: int, bg: (u8, u8, u8)) -> (u8, u8, u8) {
    let i = (y * tw + x) * 4;
    (over(px[i], bg.0, px[i + 3]), over(px[i + 1], bg.1, px[i + 3]), over(px[i + 2], bg.2, px[i + 3]))
}

/// A half-block cell: the lower half in `bottom`, the upper in `top`.
pub open spec fn half_cell(top: (u8, u8, u8), bottom: (u8, u8, u8)) -> (Seq<char>, StyleView) {
    (
        seq!['\u{2584}'],
        StyleView {
            fg: Some(color_hex(bottom.0, bottom.1, bottom.2)),
            bg: Some(color_hex(top.0, top.1, top.2)),
            ..default_style()
        },
    )
}

/// The row of cells for pixel rows `y` and `y + 1`, behind the margin; past
/// the last pixel row the lower halves are the background.
pub open spec fn half_row(px: Seq<u8>, tw: u32, th: u32, y: int, margin: usize, bg: (u8, u8, u8)) -> LineView {
    (if margin > 0 {
        seq![(spaces(margin as nat), default_style())]
    } else {
        seq![]
    }) + Seq::new(
        tw as nat,
        |x: int|
            half_cell(
                blended(px, tw as int, x, y, bg),
                if y + 1 < th {
                    blended(px, tw as int, x, y + 1, bg)
                } else {
                    bg
                },
            ),
    )
}

/// Half-block lines of pixels `tw` × `th`: a blank line, a row of cells
/// per two pixel rows, a blank line.
pub open spec fn half_lines(px: Seq<u8>, tw: u32, th: u32, margin: usize, bg: (u8, u8, u8)) -> Seq<LineView> {
    seq![seq![]] + Seq::new(((th as int + 1) / 2) as nat, |r: int| half_row(px, tw, th, 2 * r, margin, bg)) + seq![
        seq![],
    ]
}

/// An image drawn in half-block cells: `None` for an image without pixels;
/// else resized to its target size and drawn two pixel rows to a line,
/// each pixel blended over the background `bg`.
pub open spec fn halfblock(pic: Picture, max_width: usize, margin: usize, bg: (u8, u8, u8)) -> Option<Seq<LineView>> {
    if pic.width == 0 || pic.height == 0 || pic.rgba@.len() < pic.width * pic.height * 4 {
        None
    } else {
        let tw = target_width(pic, max_width);
        let th = target_height(pic, tw);
        Some(half_lines(resized(pic.width, pic.height, pic.rgba@, tw, th), tw, th, margin, bg))
    }
}

/// A channel at opacity `a` over the background channel `b`.
fn over_exec(c: u8, b: u8, a: u8) -> (r: u8)
    ensures
        r == over(c, b, a),
{
    let ca: u32 = c as u32;
    let aa: u32 = a as u32;
    let ba: u32 = b as u32;
    assert(ca * aa <= 255 * aa && ba * (255 - aa) <= 255 * (255 - aa)) by (nonlinear_arith)
        requires
            ca <= 255,
            ba <= 255,
            aa <= 255,
    ;
    let v: u32 = ca * aa + ba * (255 - aa);
    assert(v / 255 <= 255);
    (v / 255) as u8
}

/// A half-block cell span.
fn half_cell_span(top: (u8, u8, u8), bottom: (u8, u8, u8)) -> (s: StyledSpan)
    ensures
        crate::layout::span_view(s) == half_cell(top, bottom),
{
    let mut text = String::new();
    crate::text::push_char(&mut text, '\u{2584}');
    assert(text@ =~= seq!['\u{2584}']);
    let mut st = SpanStyle::default();
    st.fg = Some(crate::layout::blocks::hex_color(bottom.0, bottom.1, bottom.2));
    st.bg = Some(crate::layout::blocks::hex_color(top.0, top.1, top.2));
    StyledSpan { text, style: st }
}

proof fn lemma_pixel_index(tw: int, th: int, x: int, y: int)
    requires
        0 <= x < tw,
        0 <= y < th,
    ensures
        (y * tw + x) * 4 + 3 < tw * th * 4,
        0 <= (y * tw + x) * 4,
{
    assert((y * tw + x) * 4 + 3 < tw * th * 4) by (nonlinear_arith)
        requires
            0 <= x < tw,
            0 <= y < th,
    ;
    assert(0 <= (y * tw + x) * 4) by (nonlinear_arith)
        requires
            0 <= x,
            0 <= y,
            0 <= tw,
    ;
}

/// The blended pixel at (`x`, `y`).
fn blended_at(px: &Vec<u8>, tw: u32, th: u32, x: u32, y: u32, bg: (u8, u8, u8)) -> (r: (u8, u8, u8))
    requires
        px@.len() == tw * th * 4,
        x < tw,
        y < th,
    ensures
        r == blended(px@, tw as int, x as int, y as int, bg),
{
    let n = px.len();
    proof {
        lemma_pixel_index(tw as int, th as int, x as int, y as int);
        assert(0 <= (y as int) * (tw as int)) by (nonlinear_arith)
            requires
                y >= 0,
                tw >= 0,
        ;
        assert((y as int) * (tw as int) + x <= ((y as int) * (tw as int) + x) * 4);
        assert(((y as int) * (tw as int) + x) * 4 < n);
    }
    let yt = (y as usize) * (tw as usize);
    let i = (yt + (x as usize)) * 4;
    let a = px[i + 3];
    (over_exec(px[i], bg.0, a), over_exec(px[i + 1], bg.1, a), over_exec(px[i + 2], bg.2, a))
}

/// Half-block lines of resized pixels.
fn half_lines_exec(px: &Vec<u8>, tw: u32, th: u32, margin: usize, bg: (u8, u8, u8)) -> (ls: Vec<StyledLine>)
    requires
        px@.len() == tw * th * 4,
    ensures
        crate::layout::wrap::lines_view(ls@) == half_lines(px@, tw, th, margin, bg),
{
    let mut ls: Vec<StyledLine> = Vec::new();
    let e = StyledLine::empty();
    assert(line_view(e) =~= Seq::<(Seq<char>, StyleView)>::empty());
    ls.push(e);
    let ghost rows = Seq::new(((th as int + 1) / 2) as nat, |r: int| half_row(px@, tw, th, 2 * r, margin, bg));
    let mut y: u32 = 0;
    while y < th
        invariant
            y % 2 == 0,
            y <= th + 1,
            px@.len() == tw * th * 4,
            rows == Seq::new(((th as int + 1) / 2) as nat, |r: int| half_row(px@, tw, th, 2 * r, margin, bg)),
            crate::layout::wrap::lines_view(ls@) == seq![Seq::<(Seq<char>, StyleView)>::empty()] + rows.take(y as int / 2),
        decreases th - y,
    {
        let mut line = StyledLine::new();
        if margin > 0 {
            line.push(pad_span(margin));
        }
        let ghost head = line_view(line);
        assert(head =~= (if margin > 0 {
            seq![(spaces(margin as nat), default_style())]
        } else {
            Seq::<(Seq<char>, StyleView)>::empty()
        }));
        let mut x: u32 = 0;
        while x < tw
            invariant
                x <= tw,
                y < th,
                px@.len() == tw * th * 4,
                line_view(line) == head + Seq::new(
                    x as nat,
                    |k: int|
                        half_cell(
                            blended(px@, tw as int, k, y as int, bg),
                            if y + 1 < th {
                                blended(px@, tw as int, k, y + 1, bg)
                            } else {
                                bg
                            },
                        ),
                ),
            decreases tw - x,
        {
            let top = blended_at(px, tw, th, x, y, bg);
            let bottom = if y + 1 < th {
                blended_at(px, tw, th, x, y + 1, bg)
            } else {
                bg
            };
            let ghost before = line_view(line);
            line.push(half_cell_span(top, bottom));
            assert(line_view(line) =~= before.push(half_cell(top, bottom)));
            assert(line_view(line) =~= head + Seq::new(
                (x + 1) as nat,
                |k: int|
                    half_cell(
                        blended(px@, tw as int, k, y as int, bg),
                        if y + 1 < th {
                            blended(px@, tw as int, k, y + 1, bg)
                        } else {
                            bg
                        },
                    ),
            ));
            x = x + 1;
        }
        assert(line_view(line) =~= rows[y as int / 2]);
        let ghost before = crate::layout::wrap::lines_view(ls@);
        ls.push(line);
        assert(crate::layout::wrap::lines_view(ls@) =~= before.push(rows[y as int / 2]));
        assert(rows.take(y as int / 2 + 1) =~= rows.take(y as int / 2).push(rows[y as int / 2]));
        if th - y == 1 {
            y = y + 1;
            assert(rows.take(y as int / 2 + 1) =~= rows);
            let e2 = StyledLine::empty();
            assert(line_view(e2) =~= Seq::<(Seq<char>, StyleView)>::empty());
            ls.push(e2);
            assert(crate::layout::wrap::lines_view(ls@) =~= half_lines(px@, tw, th, margin, bg));
            return ls;
        }
        y = y + 2;
    }
    assert(rows.take(y as int / 2) =~= rows);
    let e2 = StyledLine::empty();
    assert(line_view(e2) =~= Seq::<(Seq<char>, StyleView)>::empty());
    let ghost before = crate::layout::wrap::lines_view(ls@);
    ls.push(e2);
    assert(crate::layout::wrap::lines_view(ls@) =~= half_lines(px@, tw, th, margin, bg));
    ls
}

/// Render an image as Unicode half-block characters: each terminal cell
/// shows two pixel rows (upper half in the cell's background color, lower
/// in its foreground), every pixel alpha-blended over `bg`, the theme
/// background. `None` when the image has no pixels.
pub fn render_halfblock(pic: &Picture, max_width: usize, margin: usize, bg: (u8, u8, u8)) -> (r: Option<Vec<StyledLine>>)
    ensures
        match r {
            Some(ls) => halfblock(*pic, max_width, margin, bg) == Some(crate::layout::wrap::lines_view(ls@)),
            None => halfblock(*pic, max_width, margin, bg) is None,
        },
{
    if pic.width == 0 || pic.height == 0 {
        return None;
    }
    let a: u32 = if max_width < 60 { max_width as u32 } else { MAX_IMAGE_WIDTH };
    let tw = if a < pic.width { a } else { pic.width };
    let sh = if 1 <= tw && (tw as usize) <= pic.scaled_heights.len() {
        pic.scaled_heights[(tw - 1) as usize]
    } else {
        assert(pic.height as int * tw as int <= 0xffff_ffff * 60) by (nonlinear_arith)
            requires
                tw <= 60,
        ;
        ((pic.height as u64 * tw as u64) / (pic.width as u64)) as u32
    };
    let h0 = if sh < MAX_IMAGE_HEIGHT * 2 { sh } else { MAX_IMAGE_HEIGHT * 2 };
    let h1 = if h0 % 2 == 1 { h0 + 1 } else { h0 };
    let th = if h1 == 0 { 2 } else { h1 };
    assert(tw == target_width(*pic, max_width));
    assert(th == target_height(*pic, tw));
    match resize_rgba(pic.width, pic.height, &pic.rgba, tw, th) {
        Some(px) => Some(half_lines_exec(&px, tw, th, margin, bg)),
        None => None,
    }
}


/// The cell `x` of a line after its first `m` spans.
pub open spec fn cell_after(l: LineView, m: int, x: int) -> (Seq<char>, StyleView) {
    l[m + x]
}

/// The shape of a half-block image: `None` exactly for an image without
/// pixels; otherwise an empty line, then one line per two pixel rows of the
/// target height (even, from 2 to 48), then an empty line, so 3 to 26
/// lines; every line between is the margin (when there is one) followed by
/// one `▄` cell per column of the target width (from 1 to 60, and at most
/// `max_width`), each with a foreground and a background color.
pub proof fn law_halfblock_shape(pic: Picture, max_width: usize, margin: usize, bg: (u8, u8, u8))
    requires
        max_width >= 1,
    ensures
        halfblock(pic, max_width, margin, bg) is None <==> (pic.width == 0 || pic.height == 0 || pic.rgba@.len()
            < pic.width * pic.height * 4),
        halfblock(pic, max_width, margin, bg) matches Some(ls) ==> {
            let tw = target_width(pic, max_width);
            let th = target_height(pic, tw);
            let m: int = if margin > 0 {
                1
            } else {
                0
            };
            &&& 1 <= tw <= MAX_IMAGE_WIDTH && tw <= max_width && tw <= pic.width
            &&& 2 <= th <= 2 * MAX_IMAGE_HEIGHT && th % 2 == 0
            &&& ls.len() == th / 2 + 2 && ls.len() <= 26
            &&& ls[0].len() == 0 && ls[ls.len() - 1].len() == 0
            &&& forall|r: int| 1 <= r < ls.len() - 1 ==> (#[trigger] ls[r]).len() == m + tw
            &&& forall|r: int, x: int|
                1 <= r < ls.len() - 1 && 0 <= x < tw ==> {
                    let c = #[trigger] cell_after(ls[r], m, x);
                    &&& c.0 == seq!['\u{2584}']
                    &&& c.1.fg is Some
                    &&& c.1.bg is Some
                }
        },
{
    if let Some(ls) = halfblock(pic, max_width, margin, bg) {
        let tw = target_width(pic, max_width);
        let th = target_height(pic, tw);
        let px = resized(pic.width, pic.height, pic.rgba@, tw, th);
        let rows = Seq::new(((th as int + 1) / 2) as nat, |r: int| half_row(px, tw, th, 2 * r, margin, bg));
        assert(ls == seq![seq![]] + rows + seq![seq![]]);
        assert((th as int + 1) / 2 == th / 2);
        let m: int = if margin > 0 {
            1
        } else {
            0
        };
        assert forall|r: int| 1 <= r < ls.len() - 1 implies (#[trigger] ls[r]).len() == m + tw by {
            assert(ls[r] == rows[r - 1]);
        }
        assert forall|r: int, x: int| 1 <= r < ls.len() - 1 && 0 <= x < tw implies {
            let c = #[trigger] cell_after(ls[r], m, x);
            &&& c.0 == seq!['\u{2584}']
            &&& c.1.fg is Some
            &&& c.1.bg is Some
        } by {
            assert(ls[r] == rows[r - 1]);
            assert(rows[r - 1] == half_row(px, tw, th, 2 * (r - 1), margin, bg));
        }
    }
}
} // verus!
