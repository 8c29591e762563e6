use domstyle::runtime::cascade::parse_color;

#[test]
fn test_parse_color() {
    assert_eq!(parse_color("#fff"), Some(0xFFFFFFFF));
    assert_eq!(parse_color("#000000"), Some(0xFF000000));
    assert_eq!(parse_color("red"), Some(0xFFFF0000));
    assert_eq!(parse_color("transparent"), Some(0x00000000));
}
