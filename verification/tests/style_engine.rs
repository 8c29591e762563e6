use domstyle::runtime::css_rule::CssRule;
use domstyle::runtime::node_id::NodeId;
use domstyle::runtime::registry::DomRegistry;
use domstyle::runtime::select::Select;
use domstyle::runtime::style_manager::StyleEngine;
use domstyle::runtime::style_sheet::CssStyleSheet;
use domstyle::runtime::vnode::{VElementVNode, VNode};

fn sheet(rules: Vec<CssRule>) -> CssStyleSheet {
    CssStyleSheet {
        sheetType: "text/css".into(),
        href: None,
        title: None,
        media: "all".into(),
        disabled: false,
        cssRules: rules,
    }
}

fn pairs(v: &[(&str, &str)]) -> Vec<(String, String)> {
    v.iter().map(|(a, b)| (a.to_string(), b.to_string())).collect()
}

/// The document and sheet of the full-flow scenario: a container with a
/// heading and a button.
fn full_flow() -> (DomRegistry, StyleEngine, NodeId) {
    let mut doc = DomRegistry::new();
    let mut engine = StyleEngine::new();
    let vnode = VNode::Element(VElementVNode {
        tagName: "div".into(),
        classList: vec!["container".into()],
        childNodes: vec![
            VNode::Element(VElementVNode {
                tagName: "h1".into(),
                childNodes: vec![VNode::Text("Title".into())],
                ..Default::default()
            }),
            VNode::Element(VElementVNode {
                tagName: "button".into(),
                id: Some("btn".into()),
                classList: vec!["primary".into()],
                childNodes: vec![VNode::Text("Click".into())],
                ..Default::default()
            }),
        ],
        ..Default::default()
    });
    let root_id = doc.vnodeToDom(&vnode);
    doc.styleSheets.push(sheet(vec![
        CssRule::on(Select::class("container")).decl("background", "#f5f5f5").decl("padding", "20px"),
        CssRule::on(Select::tag("h1")).decl("font-size", "24px").decl("color", "#333333"),
        CssRule::on(Select::id("btn")).decl("color", "white"),
        CssRule::on(Select::class("primary")).decl("background", "#007bff").decl("font-size", "16px"),
    ]));
    engine.rebuildIndices(&doc.styleSheets);
    (doc, engine, root_id)
}

#[test]
fn test_compute_style_full_flow() {
    let (mut doc, engine, root_id) = full_flow();
    doc.markAllDirty(root_id);
    let root = engine.computeStyle(&doc.styleSheets, &doc, root_id);
    assert_eq!(root, pairs(&[("background", "#f5f5f5"), ("padding", "20px")]));
    let kids = doc.allNodes.get(&root_id).unwrap().childNodes.clone();
    let h1 = engine.computeStyle(&doc.styleSheets, &doc, kids[0]);
    assert_eq!(h1, pairs(&[("font-size", "24px"), ("color", "#333333")]));
    // `.primary` (0,1,0) comes before `#btn` (1,0,0).
    let btn = engine.computeStyle(&doc.styleSheets, &doc, kids[1]);
    assert_eq!(btn, pairs(&[("background", "#007bff"), ("font-size", "16px"), ("color", "white")]));
    // A text node matches no rule; a missing node gets nothing.
    let text = doc.allNodes.get(&kids[0]).unwrap().childNodes[0];
    assert!(engine.computeStyle(&doc.styleSheets, &doc, text).is_empty());
    assert!(engine.computeStyle(&doc.styleSheets, &doc, NodeId::new(999)).is_empty());
}

#[test]
fn test_compute_style_inline_priority() {
    let mut doc = DomRegistry::new();
    let mut engine = StyleEngine::new();
    let vnode = VNode::Element(VElementVNode {
        tagName: "div".into(),
        classList: vec!["box".into()],
        style: "padding: 50px; margin: 10px".into(),
        ..Default::default()
    });
    let root_id = doc.vnodeToDom(&vnode);
    doc.styleSheets.push(sheet(vec![CssRule::on(Select::class("box"))
        .decl("padding", "10px")
        .decl("margin", "0")
        .decl("font-size", "14px")]));
    engine.rebuildIndices(&doc.styleSheets);
    let decls = engine.computeStyle(&doc.styleSheets, &doc, root_id);
    assert_eq!(decls, pairs(&[("padding", "50px"), ("margin", "10px"), ("font-size", "14px")]));
}

#[test]
fn test_compute_style_later_rule_wins_on_tie() {
    let mut doc = DomRegistry::new();
    let mut engine = StyleEngine::new();
    let div = doc.createElement("div");
    doc.setAttribute(div, "class", "a b");
    doc.styleSheets.push(sheet(vec![
        CssRule::on(Select::class("b")).decl("color", "red"),
        CssRule::on(Select::class("a")).decl("color", "blue"),
    ]));
    engine.rebuildIndices(&doc.styleSheets);
    assert_eq!(engine.computeStyle(&doc.styleSheets, &doc, div), pairs(&[("color", "blue")]));
}

#[test]
fn test_flush_style_dirty_flags() {
    let (mut doc, engine, root_id) = full_flow();
    let kids = doc.allNodes.get(&root_id).unwrap().childNodes.clone();
    let text = doc.allNodes.get(&kids[1]).unwrap().childNodes[0];
    for id in [root_id, kids[0], kids[1], text] {
        let n = doc.allNodes.get_mut(&id).unwrap();
        n.layoutDirty = false;
        n.paintDirty = false;
    }
    doc.markAllDirty(root_id);
    assert_eq!(doc.styleDirtySet.len(), 5);
    // The text of the button changed; the heading did not.
    engine.flushStyleDirty(&mut doc, &[(kids[0], false), (text, true)]);
    assert_eq!(doc.styleDirtySet.len(), 0);
    let h1 = doc.allNodes.get(&kids[0]).unwrap();
    assert!(!h1.styleDirty);
    assert!(!h1.layoutDirty);
    let t = doc.allNodes.get(&text).unwrap();
    assert!(!t.styleDirty && t.layoutDirty && t.paintDirty);
    // Layout marks spread from the text's parent up to the root.
    assert!(doc.allNodes.get(&kids[1]).unwrap().layoutDirty);
    assert!(!doc.allNodes.get(&kids[1]).unwrap().paintDirty);
    assert!(doc.allNodes.get(&root_id).unwrap().layoutDirty);
    // Nodes without a result keep their style flag.
    assert!(doc.allNodes.get(&root_id).unwrap().styleDirty);
}

#[test]
fn test_disabled_sheet_gives_nothing() {
    let mut doc = DomRegistry::new();
    let mut engine = StyleEngine::new();
    let n = doc.vnodeToDom(&VNode::Element(VElementVNode {
        tagName: "div".into(),
        classList: vec!["x".into()],
        ..Default::default()
    }));
    let mut red = sheet(vec![CssRule::on(Select::class("x")).decl("color", "red")]);
    red.disabled = true;
    doc.styleSheets.push(red);
    doc.styleSheets.push(sheet(vec![CssRule::on(Select::class("x")).decl("color", "white")]));
    engine.rebuildIndices(&doc.styleSheets);
    let style = engine.computeStyle(&doc.styleSheets, &doc, n);
    assert_eq!(style, pairs(&[("color", "white")]));
}
