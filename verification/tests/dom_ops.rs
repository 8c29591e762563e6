use domstyle::runtime::dom_ops::{DomNodeOps, DomQuery};
use domstyle::runtime::node_id::{Event, NodeId};
use domstyle::runtime::registry::DomRegistry;

/// Two trees: `div > (span#x.hi, section > SPAN.hi)` and `p#x`.
fn two_trees() -> (DomRegistry, NodeId, NodeId, NodeId, NodeId, NodeId) {
    let mut doc = DomRegistry::new();
    let div = doc.createElement("div");
    let span = doc.createElement("span");
    let section = doc.createElement("section");
    let big = doc.createElement("SPAN");
    let p = doc.createElement("p");
    span.setAttribute(&mut doc, "id", "x");
    span.setAttribute(&mut doc, "class", "hi");
    big.setAttribute(&mut doc, "class", "hi");
    p.setAttribute(&mut doc, "id", "x");
    div.appendChild(&mut doc, span);
    div.appendChild(&mut doc, section);
    section.appendChild(&mut doc, big);
    (doc, div, span, section, big, p)
}

#[test]
fn test_get_element_by_id_below_a_node() {
    let (doc, div, span, section, _big, p) = two_trees();
    assert_eq!(div.getElementById(&doc, "x"), Some(span));
    assert_eq!(p.getElementById(&doc, "x"), Some(p));
    assert_eq!(section.getElementById(&doc, "x"), None);
}

#[test]
fn test_get_elements_by_class_and_tag_below_a_node() {
    let (doc, div, span, section, big, _p) = two_trees();
    assert_eq!(div.getElementsByClassName(&doc, "hi"), vec![span, big]);
    assert_eq!(section.getElementsByClassName(&doc, "hi"), vec![big]);
    // The tag is looked up in lower case and compared with the tag as
    // created.
    assert_eq!(div.getElementsByTagName(&doc, "SPAN"), vec![span]);
    assert_eq!(div.getElementsByTagName(&doc, "section"), vec![section]);
}

#[test]
fn test_query_selector_below_a_node() {
    let (doc, div, span, section, big, _p) = two_trees();
    assert_eq!(div.querySelector(&doc, ".hi"), Some(span));
    assert_eq!(section.querySelector(&doc, ".hi"), Some(big));
    assert_eq!(div.querySelectorAll(&doc, ".hi"), vec![span, big]);
    assert_eq!(div.querySelectorAll(&doc, "*"), vec![div, span, section, big]);
}

#[test]
fn test_node_operations() {
    let mut doc = DomRegistry::new();
    let div = doc.createElement("div");
    let a = doc.createElement("a");
    let b = doc.createElement("b");
    div.appendChild(&mut doc, b);
    div.insertBefore(&mut doc, a, b);
    assert_eq!(doc.allNodes.get(&div).unwrap().childNodes, vec![a, b]);
    div.removeChild(&mut doc, a);
    assert_eq!(doc.allNodes.get(&div).unwrap().childNodes, vec![b]);
    assert!(!doc.allNodes.contains_key(&a));
    b.setTextContent(&mut doc, "bold");
    assert_eq!(div.getTextContent(&doc), "bold".to_string());
    assert_eq!(b.getAttribute(&doc, "title"), None);
    b.setAttribute(&mut doc, "title", "t");
    assert_eq!(b.getAttribute(&doc, "title"), Some("t".to_string()));
    b.addEventListener(&doc, "click", |_e: &Event| {});
}

#[test]
fn test_set_style_property() {
    let mut doc = DomRegistry::new();
    let div = doc.createElement("div");
    div.setStyleProperty(&mut doc, "color", "red");
    div.setStyleProperty(&mut doc, "width", "10px");
    assert_eq!(div.getAttribute(&doc, "style"), Some("width: 10px; color: red; ".to_string()));
    assert_eq!(doc.allNodes.get(&div).unwrap().style, "width: 10px; color: red; ");
}
