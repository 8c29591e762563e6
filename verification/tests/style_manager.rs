use domstyle::runtime::style_manager::parse_css;

#[test]
fn test_parse_simple_css() {
    let css = r"
        body { margin: 0; padding: 0; }
        .container { background: #f5f5f5; }
    ";
    let rules = parse_css(css);
    assert_eq!(rules.len(), 2);
    assert_eq!(rules[0].style.len(), 2);
    assert_eq!(rules[1].style.len(), 1);
}

#[test]
fn test_parse_css_with_comments() {
    let css = r"
        /* 注释 */
        body { margin: 0; }
        /* 另一条注释 */
        h1 { font-size: 24px; }
    ";
    let rules = parse_css(css);
    assert_eq!(rules.len(), 2);
}
