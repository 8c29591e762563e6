use domstyle::runtime::cascade::{bg_color_rgb, color_to_hex, parse_color, text_color_rgb};

#[test]
fn test_packed_colors_are_opaque() {
    assert_eq!(bg_color_rgb(0xF5, 0xF5, 0xF5), 0xFFF5F5F5);
    assert_eq!(bg_color_rgb(0, 0, 0), 0xFF000000);
    assert_eq!(text_color_rgb(0x12, 0x34, 0x56), 0xFF123456);
    assert_eq!(text_color_rgb(255, 255, 255), 0xFFFFFFFF);
}

#[test]
fn test_color_to_hex_drops_alpha() {
    assert_eq!(color_to_hex(0xFF00FF00), "#00FF00");
    assert_eq!(color_to_hex(0x12ABCDEF), "#ABCDEF");
    assert_eq!(color_to_hex(0), "#000000");
    assert_eq!(color_to_hex(0xFF0A0B0C), "#0A0B0C");
}

#[test]
fn test_parsed_color_round_trips_to_hex() {
    assert_eq!(color_to_hex(parse_color("#a1b2c3").unwrap()), "#A1B2C3");
    assert_eq!(parse_color("rgb(1, 2, 3)"), Some(bg_color_rgb(1, 2, 3)));
}
