use domstyle::style::selector::{try_compute_specificity, try_parse_selector, try_parse_selector_list, try_parse_selector_parts};
use domstyle::style::selector::{compute_specificity, matches_an_b, parse_selector_list};
use domstyle::style::stylesheet::parse_inline_style;
use domstyle::style::values::is_current_color;
use domstyle::toolchain::html::{parse_html, try_parse_html, HtmlElement};

#[test]
fn test_element_tag_lowercased() {
    assert_eq!(HtmlElement::new("DIV").tag, "div");
}

#[test]
fn test_parse_html_body() {
    let els = parse_html("<html><body><div id='x' class='a b'>hi</div></body></html>");
    assert_eq!(els.len(), 1);
    assert_eq!(els[0].tag, "div");
    assert_eq!(els[0].attributes.get("id").unwrap(), "x");
    assert_eq!(els[0].attributes.get("class").unwrap(), "a b");
    assert!(try_parse_html("<body><p>t</p></body>").is_some());
}

#[test]
fn test_compute_specificity_values() {
    assert_eq!(compute_specificity("div#a.b"), (1, 1, 1));
    assert_eq!(compute_specificity("#a .b c"), (1, 1, 1));
    assert_eq!(compute_specificity("div span"), (0, 0, 2));
    assert_eq!(compute_specificity("a::before"), (0, 0, 2));
    assert_eq!(compute_specificity("ul > li.x:hover::after"), (0, 2, 3));
    assert_eq!(compute_specificity("div"), (0, 0, 1));
    assert_eq!(compute_specificity("a:hover"), (0, 1, 1));
}

#[test]
fn test_selector_list_and_nth() {
    assert_eq!(parse_selector_list("a, .b").len(), 2);
    assert!(matches_an_b(2, 1, 3));
    assert!(!matches_an_b(2, 0, 3));
    assert!(matches_an_b(0, 3, 3));
}

#[test]
fn test_inline_style_and_current_color() {
    let d = parse_inline_style("color: red; width : 10px; junk");
    assert_eq!(d.len(), 2);
    assert_eq!(d[0].property, "color");
    assert_eq!(d[0].value, "red");
    assert_eq!(d[1].property, "width");
    assert_eq!(d[1].value, "10px");
    assert!(is_current_color("  CurrentColor "));
    assert!(!is_current_color("red"));
}

#[test]
fn test_open_elements_become_roots() {
    let r = parse_html("<div>hi");
    assert_eq!(r.len(), 1);
    assert_eq!(r[0].tag, "div");
    assert_eq!(r[0].text_content, "hi");
    let r = parse_html("<p>a</p><div><span>x");
    assert_eq!(r.len(), 3);
    assert_eq!(r[0].tag, "p");
    assert_eq!(r[1].tag, "div");
    assert_eq!(r[2].tag, "span");
}

#[test]
fn test_self_closing_element_at_top_level_is_a_root() {
    let r = parse_html("<img src='a.png'/><p>t</p>");
    assert_eq!(r.len(), 2);
    assert_eq!(r[0].tag, "img");
    assert_eq!(r[1].tag, "p");
}

#[test]
fn test_checked_selector_readers() {
    let (p, pe) = try_parse_selector("div > p::after").unwrap();
    assert_eq!(p.segments.len(), 2);
    assert!(pe.is_some());
    // a combinator at a character position that falls inside a multi-byte character
    assert!(try_parse_selector("éé > p").is_none());
    assert!(try_compute_specificity("éé > p").is_none());
    assert_eq!(try_compute_specificity("div span"), Some((0, 0, 2)));
    assert_eq!(try_parse_selector_parts("a.b#c").unwrap().len(), 3);
    assert_eq!(try_parse_selector_list("a, b , ,c").unwrap().len(), 3);
}
