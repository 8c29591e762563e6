use domstyle::runtime::css_rule::CssRule;
use domstyle::runtime::index::RuleIndex;
use domstyle::runtime::registry::DomRegistry;
use domstyle::runtime::style_manager::StyleEngine;
use domstyle::runtime::vnode::{VElementVNode, VNode};
use domstyle::runtime::select::Select;
use domstyle::runtime::selector_match::ComplexSelector;
use domstyle::runtime::style_sheet::CssStyleSheet;
use domstyle::toolchain::cli::relative_path;
use domstyle::toolchain::html::{HtmlElement, StrMap};
use domstyle::toolchain::js::build_html_lookup;

fn sheet_with(rules: Vec<CssRule>) -> CssStyleSheet {
    CssStyleSheet {
        sheetType: "text/css".to_string(),
        href: None,
        title: None,
        media: "all".to_string(),
        disabled: false,
        cssRules: rules,
    }
}

#[test]
fn test_delete_undoes_insert() {
    let mut sheet = sheet_with(vec![
        CssRule::on(Select::tag("div")).decl("color", "red"),
        CssRule::on(Select::class("a")).decl("margin", "0"),
    ]);
    sheet.insertRule(CssRule::on(Select::id("x")).decl("width", "1px"), 1);
    assert_eq!(sheet.cssRules.len(), 3);
    assert_eq!(sheet.cssRules[1].style[0].0, "width");
    sheet.deleteRule(1);
    assert_eq!(sheet.cssRules.len(), 2);
    assert_eq!(sheet.cssRules[0].style[0].0, "color");
    assert_eq!(sheet.cssRules[1].style[0].0, "margin");
    sheet.deleteRule(7);
    assert_eq!(sheet.cssRules.len(), 2);
}

#[test]
fn test_map_read_after_write() {
    let mut m = StrMap::new();
    m.insert("a", "1");
    m.insert("b", "2");
    m.insert("a", "3");
    assert_eq!(m.get("a").unwrap(), "3");
    assert_eq!(m.get("b").unwrap(), "2");
    assert!(m.get("c").is_none());
    assert_eq!(m.len(), 2);
    assert!(m.contains_key("b"));
}

#[test]
fn test_candidates_once() {
    let rules = vec![
        CssRule {
            selectorText: "div.a".to_string(),
            selector: ComplexSelector::parse("div.a").unwrap(),
            style: vec![],
        },
        CssRule {
            selectorText: ".a.b".to_string(),
            selector: ComplexSelector::parse(".a.b").unwrap(),
            style: vec![],
        },
    ];
    let index = RuleIndex::build(&rules);
    let c = index.find_candidates(Some("div"), &["a".to_string(), "b".to_string()], None, &[]);
    let mut sorted = c.clone();
    sorted.sort();
    sorted.dedup();
    assert_eq!(sorted.len(), c.len());
}

#[test]
fn test_relative_path_to_itself() {
    let p = vec!["home".to_string(), "proj".to_string()];
    assert_eq!(relative_path(&p, &p), "");
}

#[test]
fn test_lookup_names_last_variable() {
    let vars = vec![
        ("first".to_string(), HtmlElement::new("p")),
        ("second".to_string(), HtmlElement::new("first")),
    ];
    let lookup = build_html_lookup(&vars);
    assert_eq!(lookup.get("second").unwrap(), "second");
    // the later element's tag `first` overrides the earlier variable name
    assert_eq!(lookup.get("first").unwrap(), "second");
    assert_eq!(lookup.get("p").unwrap(), "first");
}

#[test]
fn test_document_stays_well_formed() {
    let mut doc = DomRegistry::new();
    let root = doc.vnodeToDom(&VNode::Element(VElementVNode {
        tagName: "div".into(),
        childNodes: vec![VNode::Text("a".into()), VNode::Text("b".into())],
        ..Default::default()
    }));
    let span = doc.createElement("span");
    doc.appendChild(root, span);
    doc.setTextContent(span, "x");
    doc.setAttribute(span, "id", "s");
    let first = doc.allNodes.get(&root).unwrap().childNodes[0];
    doc.removeChild(root, first);
    doc.markAllDirty(root);
    let n = doc.allNodes.len();
    assert_eq!(n, 4);
    for i in 0..n {
        let key = doc.allNodes.key_at(i);
        assert_eq!(doc.allNodes.node_at(i).nodeId, key);
        assert!(key.value() < doc.nextId);
        for j in 0..i {
            assert_ne!(doc.allNodes.key_at(j), key);
        }
    }
}

#[test]
fn test_walks_reach_the_bottom_of_a_deep_chain() {
    let mut doc = DomRegistry::new();
    let root = doc.createElement("div");
    let mut last = root;
    for _ in 0..9 {
        let next = doc.createElement("div");
        doc.appendChild(last, next);
        last = next;
    }
    doc.setAttribute(last, "class", "leaf");
    doc.setTextContent(last, "deep");
    // 11 nodes; the text node is 11 levels below the root.
    assert_eq!(doc.allNodes.len(), 11);
    assert_eq!(doc.getTextContent(root), "deep");
    assert_eq!(doc.querySelector_from(root, ".leaf"), Some(last));
    doc.styleDirtySet.clear();
    doc.markAllDirty(root);
    assert_eq!(doc.styleDirtySet.len(), 11);
}

#[test]
fn test_layout_marks_climb_a_long_chain() {
    let mut doc = DomRegistry::new();
    let root = doc.createElement("div");
    let mut chain = vec![root];
    for _ in 0..6 {
        let next = doc.createElement("div");
        doc.appendChild(*chain.last().unwrap(), next);
        chain.push(next);
    }
    for &id in &chain {
        doc.allNodes.get_mut(&id).unwrap().layoutDirty = false;
    }
    doc.allNodes.get_mut(&chain[2]).unwrap().layoutDirty = true;
    let engine = StyleEngine::new();
    engine.flushStyleDirty(&mut doc, &[(chain[6], true)]);
    for k in 2..7 {
        assert!(doc.allNodes.get(&chain[k]).unwrap().layoutDirty);
    }
    // The walk stops at the first ancestor already marked.
    assert!(!doc.allNodes.get(&chain[1]).unwrap().layoutDirty);
    assert!(!doc.allNodes.get(&chain[0]).unwrap().layoutDirty);
}

#[test]
fn test_simple_selector_match_law_cases() {
    let cls = vec!["a".to_string(), "b".to_string(), "c".to_string()];
    assert!(domstyle::toolchain::css::selector_matches("div.a.b#x", "div", &cls, Some("x")));
    assert!(domstyle::toolchain::css::selector_matches(".c", "span", &cls, None));
    assert!(domstyle::toolchain::css::selector_matches("*.a", "p", &cls, None));
    assert!(!domstyle::toolchain::css::selector_matches("div.a.z", "div", &cls, None));
    assert!(!domstyle::toolchain::css::selector_matches("div#x", "div", &cls, Some("y")));
    assert!(!domstyle::toolchain::css::selector_matches("p.a", "div", &cls, None));
}

#[test]
fn test_parsed_selector_shape_law_cases() {
    assert!(ComplexSelector::parse("   ").is_none());
    let c = ComplexSelector::parse("div > .a.b + #c").unwrap();
    assert_eq!(c.segments.len(), 3);
    assert!(c.segments.iter().all(|s| !s.parts.is_empty()));
}
