use ink_md::graphics::{cell_dimensions, ProtocolChoice};

#[test]
fn choice_parsing() {
    assert_eq!(ProtocolChoice::parse("auto"), Some(ProtocolChoice::Auto));
    assert_eq!(ProtocolChoice::parse("Kitty"), Some(ProtocolChoice::Kitty));
    assert_eq!(ProtocolChoice::parse("half-blocks"), Some(ProtocolChoice::HalfBlocks));
    assert_eq!(ProtocolChoice::parse("nope"), None);
}

#[test]
fn cell_dims_preserve_aspect_and_clamp() {
    let (c, r) = cell_dimensions(100, 50, (10, 20), 80, 30);
    assert_eq!(c, 10);
    assert!((2..=5).contains(&r), "rows {r}");
    let (c2, _) = cell_dimensions(2000, 1000, (10, 20), 40, 30);
    assert_eq!(c2, 40);
    assert_eq!(cell_dimensions(0, 0, (10, 20), 80, 30), (1, 1));
}

#[test]
fn cell_dims_exact_values() {
    assert_eq!(cell_dimensions(100, 50, (10, 20), 80, 30), (10, 3));
    assert_eq!(cell_dimensions(10, 1000, (10, 20), 80, 30), (1, 30));
    assert_eq!(cell_dimensions(5, 5, (0, 0), 80, 30), (5, 5));
}

#[test]
fn protocol_aliases() {
    assert_eq!(ProtocolChoice::parse("ITERM"), Some(ProtocolChoice::Iterm2));
    assert_eq!(ProtocolChoice::parse("unicode"), Some(ProtocolChoice::HalfBlocks));
    assert_eq!(ProtocolChoice::parse("sixel"), Some(ProtocolChoice::Sixel));
    assert_eq!(ProtocolChoice::parse(" sixel"), None);
}
