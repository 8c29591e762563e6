use domstyle::style::properties::{
    parse_backface_visibility, parse_contain, parse_content_visibility, parse_font_stretch, parse_font_variant,
    parse_overflow_wrap, parse_perspective_origin, parse_touch_action, parse_transform_style, parse_will_change,
    parse_word_break,
};

#[test]
fn test_keyword_properties_keep_the_keyword() {
    assert_eq!(parse_word_break("  break-all "), "break-all");
    assert_eq!(parse_word_break("odd"), "odd");
    assert_eq!(parse_overflow_wrap("anywhere"), "anywhere");
    assert_eq!(parse_content_visibility(" hidden"), "hidden");
    assert_eq!(parse_touch_action("pan-x "), "pan-x");
    assert_eq!(parse_contain("layout paint"), "layout paint");
    assert_eq!(parse_font_variant("small-caps"), "small-caps");
    assert_eq!(parse_font_stretch("condensed"), "condensed");
    assert_eq!(parse_perspective_origin(" left top "), "left top");
    assert_eq!(parse_will_change("transform"), "transform");
}

#[test]
fn test_two_valued_properties_default() {
    assert_eq!(parse_transform_style(" preserve-3d "), "preserve-3d");
    assert_eq!(parse_transform_style("flat"), "flat");
    assert_eq!(parse_transform_style("other"), "flat");
    assert_eq!(parse_backface_visibility("hidden"), "hidden");
    assert_eq!(parse_backface_visibility("x"), "visible");
}
