use std::io::Write;
use base64::engine::general_purpose::STANDARD;
use base64::Engine;
use ink_md::image::{
    classify_source, decode_data_uri, inject_current_color, is_svg, ImageCache, ImageMode, ImageUnavailable,
    SourceKind, IMAGE_CACHE_CAP,
};

const SAMPLE_SVG: &str = r#"<?xml version="1.0" encoding="UTF-8"?>
<!DOCTYPE svg PUBLIC "-//W3C//DTD SVG 1.1//EN"
  "http://www.w3.org/Graphics/SVG/1.1/DTD/svg11.dtd">
<svg xmlns="http://www.w3.org/2000/svg" version="1.1"
     width="120" height="120">
  <rect x="14" y="23" width="200" height="50" fill="lime"
      stroke="black" />
</svg>"#;

#[test]
fn svg_detected_by_extension_and_content() {
    assert!(is_svg("diagram.svg", b""));
    assert!(is_svg("diagram.SVG", b""));
    assert!(is_svg("diagram.svgz", b""));
    assert!(is_svg("https://x.test/a.svg?v=2#frag", b""));
    assert!(is_svg("logo.xml", SAMPLE_SVG.as_bytes()));
    assert!(!is_svg("photo.png", &[0x89, b'P', b'N', b'G']));
}

#[test]
fn cache_stays_bounded_under_many_distinct_images() {
    let mut cache: ImageCache<usize> = ImageCache::new();
    for i in 0..(IMAGE_CACHE_CAP + 8) {
        let key = format!("data:{i}");
        cache.insert(key.clone(), i);
        assert!(cache.len() <= IMAGE_CACHE_CAP, "cache exceeded its cap");
        assert_eq!(cache.get(&key), Some(&i));
    }
    assert!(cache.len() > 0, "eviction must not leave the cache useless");
}

#[test]
fn cache_replaces_and_evicts_only_when_full() {
    let mut cache: ImageCache<&str> = ImageCache::new();
    cache.insert("a".to_string(), "one");
    cache.insert("a".to_string(), "two");
    assert_eq!(cache.len(), 1);
    assert_eq!(cache.get("a"), Some(&"two"));
    for i in 1..IMAGE_CACHE_CAP {
        cache.insert(format!("k{i}"), "x");
    }
    assert_eq!(cache.len(), IMAGE_CACHE_CAP);
    cache.insert("a".to_string(), "three");
    assert_eq!(cache.len(), IMAGE_CACHE_CAP);
    cache.insert("new".to_string(), "y");
    assert_eq!(cache.len(), 1);
    assert_eq!(cache.get("a"), None);
    assert_eq!(cache.get("new"), Some(&"y"));
}

#[test]
fn current_color_goes_on_the_root_tag() {
    let out = inject_current_color(b"<svg width=\"1\"><path/></svg>", "#ffffff").unwrap();
    assert_eq!(out, "<svg width=\"1\" color=\"#ffffff\"><path/></svg>");
    let selfclosing = inject_current_color(b"<svg a='>'/>", "#abc").unwrap();
    assert_eq!(selfclosing, "<svg a='>' color=\"#abc\"/>");
    assert!(inject_current_color(b"<svg color=\"red\">", "#fff").is_none());
    assert!(inject_current_color(b"<svg>", "red").is_none());
    assert!(inject_current_color(&[0x1f, 0x8b, 0xff], "#fff").is_none());
}

#[test]
fn data_uri_payloads_decode() {
    let b64 = STANDARD.encode("hello");
    assert_eq!(decode_data_uri(&format!("image/svg+xml;BASE64, {b64} ")), Some(b"hello".to_vec()));
    assert_eq!(decode_data_uri("image/svg+xml,%3Csvg%3E"), Some(b"<svg>".to_vec()));
    assert_eq!(decode_data_uri("image/png;base64,!!!"), None);
    assert_eq!(decode_data_uri("no comma"), None);
}

#[test]
fn sources_are_classified_without_io() {
    assert_eq!(classify_source("https://x/a.png", ImageMode::LocalOnly), Err(ImageUnavailable::RemoteBlocked));
    assert_eq!(classify_source("http://x/a.png", ImageMode::All), Ok(SourceKind::Remote));
    assert_eq!(classify_source("data:image/png;base64,AA", ImageMode::Off), Ok(SourceKind::DataUri("image/png;base64,AA".to_string())));
    assert_eq!(classify_source("file://localhost/tmp/a.png", ImageMode::LocalOnly), Ok(SourceKind::Local("/tmp/a.png".to_string())));
    assert_eq!(classify_source("file:///tmp/a.png", ImageMode::LocalOnly), Ok(SourceKind::Local("/tmp/a.png".to_string())));
    assert_eq!(classify_source("pics/a.png", ImageMode::LocalOnly), Ok(SourceKind::Local("pics/a.png".to_string())));
}

fn png_bytes(w: u32, h: u32, px: [u8; 4]) -> Vec<u8> {
    let mut png = Vec::new();
    image::RgbaImage::from_pixel(w, h, image::Rgba(px))
        .write_to(&mut std::io::Cursor::new(&mut png), image::ImageFormat::Png)
        .unwrap();
    png
}

#[test]
fn raster_decode_still_works_through_orientation_path() {
    let png = png_bytes(3, 2, [255, 0, 0, 255]);
    let (w, h, rgba) = match ink_md::image::decode_source("dot.png", &png, None) {
        ink_md::image::Decoding::Raster(d) => d.expect("png decodes"),
        other => panic!("not routed to the raster decoder: {other:?}"),
    };
    assert_eq!((w, h), (3, 2));
    assert_eq!(rgba.len(), 3 * 2 * 4);
    assert_eq!(&rgba[0..4], &[255, 0, 0, 255]);
}

#[test]
fn percent_encoded_binary_data_uri_loads() {
    let png = png_bytes(2, 2, [9, 8, 7, 255]);
    let encoded: String = png.iter().map(|b| format!("%{b:02X}")).collect();
    let uri = format!("data:image/png,{encoded}");
    let bytes = decode_data_uri(&uri["data:".len()..]).expect("binary data uri");
    let (w, h, _) = match ink_md::image::decode_source(&uri, &bytes, None) {
        ink_md::image::Decoding::Raster(d) => d.expect("binary data uri"),
        other => panic!("not routed to the raster decoder: {other:?}"),
    };
    assert_eq!((w, h), (2, 2));
}

#[test]
fn remote_images_blocked_by_default() {
    assert_eq!(
        classify_source("https://example.com/x.png", ImageMode::LocalOnly),
        Err(ImageUnavailable::RemoteBlocked)
    );
}

#[test]
fn decode_self_test_tells_images_from_text() {
    assert!(ink_md::image::self_test_decode(&png_bytes(1, 1, [0, 0, 0, 255])));
    assert!(!ink_md::image::self_test_decode(b"TOP-SECRET-CONTENTS"));
}

#[test]
fn svgz_is_gunzipped_and_themed() {
    let svg = br#"<svg xmlns="http://www.w3.org/2000/svg" width="4" height="4"><rect fill="currentColor"/></svg>"#;
    let mut enc = flate2::write::GzEncoder::new(Vec::new(), flate2::Compression::default());
    enc.write_all(svg).unwrap();
    let gz = enc.finish().unwrap();
    assert_eq!(ink_md::image::gunzip_capped(&gz).as_deref(), Some(&svg[..]));
    assert_eq!(ink_md::image::gunzip_capped(b"\x1f\x8bnot gzip"), None);
    let themed = String::from_utf8(ink_md::image::prepare_svg(&gz, Some("#e0e0e0"))).unwrap();
    assert!(themed.starts_with(r##"<svg xmlns="http://www.w3.org/2000/svg" width="4" height="4" color="#e0e0e0">"##));
    // Without a color the bytes pass through (decompressed).
    assert_eq!(ink_md::image::prepare_svg(&gz, None), svg.to_vec());
    assert_eq!(ink_md::image::prepare_svg(b"plain", None), b"plain".to_vec());
}

#[test]
fn svg_bytes_go_to_the_rasterizer_prepared() {
    let svg = br#"<svg xmlns="http://www.w3.org/2000/svg" width="4" height="4"/>"#;
    match ink_md::image::decode_source("pic.svg", svg, Some("#ffffff")) {
        ink_md::image::Decoding::Svg(b) => {
            assert!(String::from_utf8(b).unwrap().contains(r##"color="#ffffff""##));
        }
        other => panic!("expected svg: {other:?}"),
    }
    match ink_md::image::decode_source("notes.txt", b"TOP-SECRET-CONTENTS", None) {
        ink_md::image::Decoding::Raster(d) => assert!(d.is_none()),
        other => panic!("expected raster: {other:?}"),
    }
}

#[test]
fn data_uri_images_load() {
    let b64 = STANDARD.encode(SAMPLE_SVG);
    let uri = format!("data:image/svg+xml;base64,{b64}");
    let bytes = decode_data_uri(&uri["data:".len()..]).expect("base64 data uri");
    assert_eq!(bytes, SAMPLE_SVG.as_bytes());
    assert!(matches!(ink_md::image::decode_source(&uri, &bytes, None), ink_md::image::Decoding::Svg(_)));
    let encoded: String = SAMPLE_SVG
        .chars()
        .map(|c| match c {
            '#' => "%23".to_string(),
            '\n' => "%0A".to_string(),
            c => c.to_string(),
        })
        .collect();
    let uri = format!("data:image/svg+xml,{encoded}");
    let bytes = decode_data_uri(&uri["data:".len()..]).expect("plain data uri");
    assert_eq!(bytes, SAMPLE_SVG.as_bytes());
    assert_eq!(decode_data_uri("image/png;base64,!!!"), None);
}

#[test]
fn halfblock_shape_holds_for_any_width() {
    let pic = ink_md::image::Picture { id: 0, width: 4, height: 4, rgba: vec![255; 64], scaled_heights: vec![1, 2, 3, 4] };
    for max in [1usize, 3, 60, usize::MAX] {
        let lines = ink_md::image::render_halfblock(&pic, max, 2, (0, 0, 0)).unwrap();
        let tw = max.min(4);
        let th = (pic.scaled_heights[tw - 1] + 1) / 2 * 2;
        assert_eq!(lines.len(), th as usize / 2 + 2);
        assert!(lines[0].spans.is_empty() && lines[lines.len() - 1].spans.is_empty());
        for l in &lines[1..lines.len() - 1] {
            assert_eq!(l.spans.len(), 1 + tw);
            assert!(l.spans[1..].iter().all(|s| s.text == "\u{2584}" && s.style.fg.is_some() && s.style.bg.is_some()));
        }
    }
    let empty = ink_md::image::Picture { id: 1, width: 0, height: 4, rgba: vec![], scaled_heights: vec![] };
    assert!(ink_md::image::render_halfblock(&empty, 10, 0, (0, 0, 0)).is_none());
}
