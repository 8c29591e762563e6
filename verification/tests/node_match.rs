use domstyle::runtime::node_id::NodeId;
use domstyle::runtime::node_match::SelectorMatchExt;
use domstyle::runtime::registry::DomRegistry;
use domstyle::runtime::selector_match::{
    AttrOp, BasicSelector, Combinator, ComplexSelector, PseudoClass, SelectSegment,
};
use domstyle::runtime::specificity::Specificity;

/// A selector of one compound selector made of `parts`.
fn compound(parts: Vec<BasicSelector>) -> ComplexSelector {
    ComplexSelector {
        segments: vec![SelectSegment { combinator: Combinator::Descendant, parts }],
        specificity: Specificity(0, 0, 0),
    }
}

fn tag(t: &str) -> BasicSelector {
    BasicSelector::Tag(t.to_string())
}

fn pc(p: PseudoClass) -> BasicSelector {
    BasicSelector::PseudoClass(p)
}

fn attr(name: &str, op: AttrOp, value: &str) -> BasicSelector {
    BasicSelector::Attribute { name: name.to_string(), op, value: value.to_string() }
}

fn sel(s: &str) -> ComplexSelector {
    ComplexSelector::parse(s).unwrap()
}

fn m(doc: &DomRegistry, s: &str, id: NodeId) -> bool {
    sel(s).matches(doc, id)
}

/// `<ul id="list"><li class="a"/>text<li class="b"/><li class="a b"/></ul>`
fn list_doc() -> (DomRegistry, NodeId, Vec<NodeId>) {
    let mut doc = DomRegistry::new();
    let ul = doc.createElement("ul");
    doc.setAttribute(ul, "id", "list");
    let li0 = doc.createElement("li");
    doc.setAttribute(li0, "class", "a");
    let text = doc.createTextNode("between");
    let li1 = doc.createElement("li");
    doc.setAttribute(li1, "class", "b");
    let li2 = doc.createElement("li");
    doc.setAttribute(li2, "class", "a b");
    doc.appendChild(ul, li0);
    doc.appendChild(ul, text);
    doc.appendChild(ul, li1);
    doc.appendChild(ul, li2);
    (doc, ul, vec![li0, li1, li2])
}

#[test]
fn test_match_child_and_descendant() {
    let mut doc = DomRegistry::new();
    let div = doc.createElement("div");
    let p = doc.createElement("p");
    let span = doc.createElement("span");
    doc.appendChild(div, p);
    doc.appendChild(p, span);
    assert!(m(&doc, "p > span", span));
    assert!(!m(&doc, "div > span", span));
    assert!(m(&doc, "div span", span));
    assert!(m(&doc, "div p", p));
    assert!(!m(&doc, "span p", p));
    assert!(m(&doc, "span", span));
    assert!(!m(&doc, "div", span));
}

#[test]
fn test_match_positions() {
    let (doc, _ul, li) = list_doc();
    assert!(m(&doc, "li:first-child", li[0]));
    assert!(!m(&doc, "li:first-child", li[1]));
    assert!(m(&doc, "li:last-child", li[2]));
    assert!(!m(&doc, "li:only-child", li[0]));
    let nth = |a: i32, b: i32| compound(vec![tag("li"), pc(PseudoClass::NthChild(a, b))]);
    assert!(nth(0, 2).matches(&doc, li[1]));
    assert!(!nth(0, 2).matches(&doc, li[0]));
    assert!(nth(2, 1).matches(&doc, li[0]));
    assert!(!nth(2, 1).matches(&doc, li[1]));
    assert!(nth(2, 1).matches(&doc, li[2]));
    let nth_last = |a: i32, b: i32| compound(vec![pc(PseudoClass::NthLastChild(a, b))]);
    assert!(nth_last(0, 1).matches(&doc, li[2]));
    assert!(nth_last(0, 3).matches(&doc, li[0]));
    // `pos >= b` and `(pos - b) % a == 0`: every position from 2 on.
    assert!(!nth_last(-1, 2).matches(&doc, li[2]));
    assert!(nth_last(-1, 2).matches(&doc, li[0]));
}

#[test]
fn test_parsed_pseudo_class_arguments() {
    // The bracketed argument of a pseudo-class is read as its argument.
    let (doc, ul, li) = list_doc();
    assert!(m(&doc, "li:nth-child(2)", li[1]));
    assert!(!m(&doc, "li:nth-child(2)", li[0]));
    assert!(m(&doc, "li:nth-child(odd).a", li[2]));
    assert!(m(&doc, "li:not(.b)", li[0]));
    assert!(!m(&doc, "li:not(.b)", li[1]));
    assert!(m(&doc, "ul:has(.b)", ul));
    assert!(m(&doc, "li:is(.a, .b)", li[1]));
    let c = ComplexSelector::parse("li:nth-child(2)").unwrap();
    assert_eq!(c.segments.len(), 1);
    assert_eq!(
        c.segments[0].parts,
        vec![BasicSelector::Tag("li".into()), BasicSelector::PseudoClass(PseudoClass::NthChild(0, 2))]
    );
    assert_eq!(c.specificity, Specificity(0, 1, 1));
}

#[test]
fn test_attribute_operators() {
    let (doc, _ul, li) = list_doc();
    assert!(m(&doc, "[class^=b]", li[1]));
    assert!(!m(&doc, "[class^=b]", li[2]));
    assert!(m(&doc, "[class$=b]", li[2]));
    assert!(m(&doc, "[class~=b]", li[2]));
    assert!(m(&doc, "[class*=\" b\"]", li[2]));
    assert!(m(&doc, "[class=a]", li[0]));
    assert!(!m(&doc, "[class=a]", li[2]));
}

#[test]
fn test_match_of_type() {
    let mut doc = DomRegistry::new();
    let div = doc.createElement("div");
    let h1 = doc.createElement("h1");
    let p1 = doc.createElement("p");
    let p2 = doc.createElement("p");
    doc.appendChild(div, h1);
    doc.appendChild(div, p1);
    doc.appendChild(div, p2);
    assert!(m(&doc, "p:first-of-type", p1));
    assert!(!m(&doc, "p:first-of-type", p2));
    assert!(m(&doc, "p:last-of-type", p2));
    assert!(!m(&doc, "p:last-of-type", p1));
    assert!(m(&doc, "h1:only-of-type", h1));
    assert!(!m(&doc, "p:only-of-type", p1));
    assert!(compound(vec![pc(PseudoClass::NthOfType(0, 2))]).matches(&doc, p2));
    assert!(!compound(vec![pc(PseudoClass::NthOfType(0, 2))]).matches(&doc, p1));
    assert!(compound(vec![pc(PseudoClass::NthLastOfType(0, 2))]).matches(&doc, p1));
    assert!(compound(vec![pc(PseudoClass::NthOfType(0, 1))]).matches(&doc, h1));
}

#[test]
fn test_match_siblings() {
    let mut doc = DomRegistry::new();
    let div = doc.createElement("div");
    let h1 = doc.createElement("h1");
    let p1 = doc.createElement("p");
    let p2 = doc.createElement("p");
    doc.appendChild(div, h1);
    doc.appendChild(div, p1);
    doc.appendChild(div, p2);
    assert!(m(&doc, "h1 + p", p1));
    assert!(!m(&doc, "h1 + p", p2));
    assert!(m(&doc, "h1 ~ p", p2));
    assert!(m(&doc, "p + p", p2));
    assert!(!m(&doc, "p ~ h1", h1));
}

#[test]
fn test_match_logical_pseudo_classes() {
    let (doc, ul, li) = list_doc();
    let not_b = compound(vec![tag("li"), pc(PseudoClass::Not(Box::new(sel(".b"))))]);
    assert!(not_b.matches(&doc, li[0]));
    assert!(!not_b.matches(&doc, li[1]));
    let is_xb = compound(vec![pc(PseudoClass::Is(vec![sel(".x"), sel(".b")]))]);
    assert!(is_xb.matches(&doc, li[1]));
    assert!(!is_xb.matches(&doc, li[0]));
    let where_a = compound(vec![pc(PseudoClass::Where(vec![sel(".a")]))]);
    assert!(where_a.matches(&doc, li[2]));
    let has_b = compound(vec![tag("ul"), pc(PseudoClass::Has(Box::new(sel(".b"))))]);
    assert!(has_b.matches(&doc, ul));
    assert!(!has_b.matches(&doc, li[1]));
    let has_c = compound(vec![pc(PseudoClass::Has(Box::new(sel(".c"))))]);
    assert!(!has_c.matches(&doc, ul));
    assert!(m(&doc, "#list > .a.b", li[2]));
    assert!(!m(&doc, "#list > .a.b", li[0]));
}

#[test]
fn test_match_attributes() {
    let mut doc = DomRegistry::new();
    let div = doc.createElement("div");
    doc.setAttribute(div, "data-role", "main-panel");
    doc.setAttribute(div, "lang", "en-US");
    doc.setAttribute(div, "class", "x y");
    assert!(m(&doc, "[data-role]", div));
    assert!(m(&doc, "[data-role=\"main-panel\"]", div));
    assert!(!m(&doc, "[data-role=main]", div));
    assert!(!m(&doc, "[title]", div));
    let one = |op: AttrOp, name: &str, value: &str| compound(vec![attr(name, op, value)]).matches(&doc, div);
    assert!(one(AttrOp::StartsWith, "data-role", "main"));
    assert!(!one(AttrOp::StartsWith, "data-role", "panel"));
    assert!(one(AttrOp::EndsWith, "data-role", "panel"));
    assert!(!one(AttrOp::EndsWith, "data-role", "main"));
    assert!(one(AttrOp::Contains, "data-role", "n-p"));
    assert!(!one(AttrOp::Contains, "data-role", "np"));
    assert!(one(AttrOp::HyphenMatch, "lang", "en"));
    assert!(one(AttrOp::HyphenMatch, "lang", "en-US"));
    assert!(!one(AttrOp::HyphenMatch, "lang", "US"));
    assert!(one(AttrOp::WordMatch, "class", "y"));
    assert!(!one(AttrOp::WordMatch, "class", "x y"));
    assert!(!one(AttrOp::Has, "title", ""));
    let lang = compound(vec![pc(PseudoClass::Lang("en-US".to_string()))]);
    assert!(lang.matches(&doc, div));
    let dir = compound(vec![pc(PseudoClass::Dir("rtl".to_string()))]);
    assert!(!dir.matches(&doc, div));
}

#[test]
fn test_match_root_empty_and_text() {
    let (doc, ul, li) = list_doc();
    assert!(m(&doc, ":root", ul));
    assert!(!m(&doc, ":root", li[0]));
    assert!(m(&doc, "li:empty", li[0]));
    assert!(!m(&doc, "ul:empty", ul));
    let text = doc.allNodes.get(&ul).unwrap().childNodes[1];
    assert!(!m(&doc, "*", text));
    assert!(m(&doc, "*", ul));
    assert!(m(&doc, "li:hover", li[1]));
}
