use domstyle::style::stylesheet::parse_stylesheet;

#[test]
fn test_parse_stylesheet_one_rule() {
    let s = parse_stylesheet("div { color: red; }", "a.css");
    assert_eq!(s.url, "a.css");
    assert_eq!(s.rules.len(), 1);
    assert_eq!(s.rules[0].selectors, vec!["div".to_string()]);
    assert_eq!(s.rules[0].declarations.len(), 1);
    assert_eq!(s.rules[0].declarations[0].property, "color");
    assert_eq!(s.rules[0].declarations[0].value, "red");
    assert!(!s.rules[0].declarations[0].important);
}

#[test]
fn test_parse_stylesheet_lists_comments_and_at_rules() {
    let css = "@import \"base.css\";\n/* heading */ h1, .title , { margin: 0; color: blue !important }\n@media screen { p { color: red } }\n}\np{padding:2px;bad;}";
    let s = parse_stylesheet(css, "");
    assert_eq!(s.rules.len(), 2);
    assert_eq!(s.rules[0].selectors, vec!["h1".to_string(), ".title".to_string()]);
    assert_eq!(s.rules[0].declarations.len(), 2);
    assert_eq!(s.rules[0].declarations[1].property, "color");
    assert_eq!(s.rules[0].declarations[1].value, "blue");
    assert!(s.rules[0].declarations[1].important);
    assert_eq!(s.rules[1].selectors, vec!["p".to_string()]);
    assert_eq!(s.rules[1].declarations.len(), 1);
    assert_eq!(s.rules[1].declarations[0].value, "2px");
}

#[test]
fn test_parse_stylesheet_unclosed_block_ends_the_sheet() {
    let s = parse_stylesheet("a { color: red } b { color: blue", "");
    assert_eq!(s.rules.len(), 1);
    assert_eq!(s.rules[0].selectors, vec!["a".to_string()]);
}

#[test]
fn test_parse_font_face() {
    let f = domstyle::style::stylesheet::parse_font_face(
        "@font-face { font-family: 'Inter'; src: url(a.woff2), url(b.woff); font-weight: 400; font-display: swap; }",
    )
    .unwrap();
    assert_eq!(f.family, "Inter");
    assert_eq!(f.sources, vec!["url(a.woff2)".to_string(), "url(b.woff)".to_string()]);
    assert_eq!(f.style, None);
    assert_eq!(f.weight, Some("400".to_string()));
    assert_eq!(f.display, Some("swap".to_string()));
    assert!(domstyle::style::stylesheet::parse_font_face("@font-face { src: url(a.woff) }").is_none());
}
