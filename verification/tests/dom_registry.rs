use domstyle::runtime::node_id::NodeId;
use domstyle::runtime::registry::DomRegistry;
use domstyle::runtime::vnode::{VElementVNode, VNode};

#[test]
fn test_create_element() {
    let mut doc = DomRegistry::new();
    let div = doc.createElement("div");
    assert_eq!(div, NodeId::new(0));
    assert_eq!(doc.allNodes.len(), 1);
    assert!(doc.tagMap.contains_key("div"));
    assert_eq!(*doc.tagMap.get("div").unwrap(), vec![NodeId::new(0)]);
}

#[test]
fn test_create_text_node() {
    let mut doc = DomRegistry::new();
    let text = doc.createTextNode("hello");
    assert_eq!(text, NodeId::new(0));
    let node = doc.allNodes.get(&text).unwrap();
    assert!(node.is_text());
    assert_eq!(node.text_content(), Some("hello"));
}

#[test]
fn test_append_child() {
    let mut doc = DomRegistry::new();
    let parent = doc.createElement("div");
    let child = doc.createElement("span");
    doc.appendChild(parent, child);

    let parent_node = doc.allNodes.get(&parent).unwrap();
    assert_eq!(parent_node.childNodes, vec![child]);

    let child_node = doc.allNodes.get(&child).unwrap();
    assert_eq!(child_node.parentNode, Some(parent));
}

#[test]
fn test_set_id_attribute() {
    let mut doc = DomRegistry::new();
    let div = doc.createElement("div");
    doc.setAttribute(div, "id", "app");

    let node = doc.allNodes.get(&div).unwrap();
    assert_eq!(node.id, Some("app".to_string()));
    assert_eq!(doc.getElementById("app"), Some(div));
}

#[test]
fn test_set_class_attribute() {
    let mut doc = DomRegistry::new();
    let div = doc.createElement("div");
    doc.setAttribute(div, "class", "foo bar");

    let node = doc.allNodes.get(&div).unwrap();
    assert_eq!(node.classList, vec!["foo", "bar"]);
    assert_eq!(doc.getElementsByClassName("foo"), vec![div]);
    assert_eq!(doc.getElementsByClassName("bar"), vec![div]);
}

#[test]
fn test_remove_child() {
    let mut doc = DomRegistry::new();
    let parent = doc.createElement("div");
    let child = doc.createElement("span");
    doc.appendChild(parent, child);
    doc.removeChild(parent, child);

    let parent_node = doc.allNodes.get(&parent).unwrap();
    assert!(parent_node.childNodes.is_empty());
    assert!(!doc.allNodes.contains_key(&child));
}

#[test]
fn test_mark_all_dirty() {
    let mut doc = DomRegistry::new();
    let root = doc.createElement("div");
    let child = doc.createElement("span");
    doc.appendChild(root, child);

    doc.allNodes.get_mut(&root).unwrap().styleDirty = false;
    doc.allNodes.get_mut(&child).unwrap().styleDirty = false;
    doc.styleDirtySet.clear();

    doc.markAllDirty(root);
    assert!(doc.allNodes.get(&root).unwrap().styleDirty);
    assert!(doc.allNodes.get(&child).unwrap().styleDirty);
    assert_eq!(doc.styleDirtySet.len(), 2);
}

#[test]
fn test_get_elements_by_tag() {
    let mut doc = DomRegistry::new();
    let div = doc.createElement("div");
    let span = doc.createElement("span");
    assert_eq!(doc.getElementsByTagName("div"), vec![div]);
    assert_eq!(doc.getElementsByTagName("span"), vec![span]);
    assert!(doc.getElementsByTagName("p").is_empty());
}

#[test]
fn test_set_text_content() {
    let mut doc = DomRegistry::new();
    let div = doc.createElement("div");
    doc.setTextContent(div, "hello world");

    let node = doc.allNodes.get(&div).unwrap();
    assert_eq!(node.childNodes.len(), 1);
    let text_id = node.childNodes[0];
    let text_node = doc.allNodes.get(&text_id).unwrap();
    assert!(text_node.is_text());
    assert_eq!(text_node.text_content(), Some("hello world"));
}

#[test]
fn test_style_dirty_on_set_attribute() {
    let mut doc = DomRegistry::new();
    let div = doc.createElement("div");
    doc.allNodes.get_mut(&div).unwrap().styleDirty = false;
    doc.styleDirtySet.clear();

    doc.setAttribute(div, "class", "new-class");

    let node = doc.allNodes.get(&div).unwrap();
    assert!(node.styleDirty);
    assert!(doc.styleDirtySet.contains(&div));
}

#[test]
fn test_query_selector() {
    let mut doc = DomRegistry::new();
    let root = doc.createElement("div");
    doc.setAttribute(root, "id", "root");

    let child = doc.createElement("span");
    doc.setAttribute(child, "class", "highlight");
    doc.appendChild(root, child);

    assert_eq!(doc.querySelector("#root"), Some(root));
    assert_eq!(doc.querySelector(".highlight"), Some(child));
    assert!(doc.querySelector(".nonexistent").is_none());
}

#[test]
fn test_vnode_to_dom() {
    let mut doc = DomRegistry::new();
    let vnode = VNode::Element(VElementVNode {
        tagName: "div".into(),
        id: Some("app".into()),
        classList: vec!["container".into()],
        childNodes: vec![
            VNode::Text("Hello".into()),
            VNode::Element(VElementVNode {
                tagName: "span".into(),
                classList: vec!["item".into()],
                ..Default::default()
            }),
        ],
        ..Default::default()
    });

    let root_id = doc.vnodeToDom(&vnode);

    let root = doc.allNodes.get(&root_id).unwrap();
    assert_eq!(root.tagName.as_deref(), Some("div"));
    assert_eq!(root.id.as_deref(), Some("app"));
    assert_eq!(root.classList, vec!["container"]);
    assert_eq!(root.childNodes.len(), 2);

    let text_id = root.childNodes[0];
    let text_node = doc.allNodes.get(&text_id).unwrap();
    assert!(text_node.is_text());
    assert_eq!(text_node.text_content(), Some("Hello"));

    let span_id = root.childNodes[1];
    let span = doc.allNodes.get(&span_id).unwrap();
    assert_eq!(span.tagName.as_deref(), Some("span"));
    assert_eq!(span.classList, vec!["item"]);

    assert_eq!(doc.getElementById("app"), Some(root_id));
    assert_eq!(doc.getElementsByClassName("container"), vec![root_id]);
    assert_eq!(doc.getElementsByClassName("item"), vec![span_id]);
}

#[test]
fn test_operations_on_missing_nodes_change_nothing() {
    let mut doc = DomRegistry::new();
    let div = doc.createElement("div");
    let missing = NodeId::new(42);
    doc.setAttribute(missing, "id", "x");
    assert_eq!(doc.getElementById("x"), None);
    doc.appendChild(missing, div);
    assert_eq!(doc.allNodes.get(&div).unwrap().parentNode, Some(missing));
    doc.setTextContent(missing, "t");
    assert_eq!(doc.allNodes.len(), 1);
    assert_eq!(doc.getAttribute(missing, "id"), None);
    assert_eq!(doc.getTextContent(missing), "");
}

#[test]
fn test_insert_before_needs_a_child_reference() {
    let mut doc = DomRegistry::new();
    let ul = doc.createElement("ul");
    let a = doc.createElement("li");
    let b = doc.createElement("li");
    let c = doc.createElement("li");
    doc.appendChild(ul, b);
    doc.insertBefore(ul, c, a);
    assert_eq!(doc.allNodes.get(&ul).unwrap().childNodes, vec![b]);
    assert_eq!(doc.allNodes.get(&c).unwrap().parentNode, None);
    doc.insertBefore(ul, a, b);
    assert_eq!(doc.allNodes.get(&ul).unwrap().childNodes, vec![a, b]);
    assert_eq!(doc.allNodes.get(&a).unwrap().parentNode, Some(ul));
}

#[test]
fn test_class_and_id_changes_move_index_entries() {
    let mut doc = DomRegistry::new();
    let div = doc.createElement("div");
    doc.setAttribute(div, "class", "a b");
    doc.setAttribute(div, "class", "b c");
    assert!(doc.getElementsByClassName("a").is_empty());
    assert_eq!(doc.getElementsByClassName("b"), vec![div]);
    assert_eq!(doc.getElementsByClassName("c"), vec![div]);
    doc.setAttribute(div, "id", "one");
    doc.setAttribute(div, "id", "two");
    assert_eq!(doc.getElementById("one"), None);
    assert_eq!(doc.getElementById("two"), Some(div));
    assert_eq!(doc.getAttribute(div, "id"), Some("two"));
    doc.setAttribute(div, "style", "color: red");
    assert_eq!(doc.allNodes.get(&div).unwrap().style, "color: red");
}

#[test]
fn test_remove_child_takes_out_the_subtree_and_its_index_entries() {
    let mut doc = DomRegistry::new();
    let root = doc.createElement("div");
    let section = doc.createElement("section");
    let p = doc.createElement("p");
    doc.setAttribute(p, "id", "para");
    doc.setAttribute(p, "class", "note");
    doc.appendChild(root, section);
    doc.appendChild(section, p);
    doc.setTextContent(p, "hello");
    assert_eq!(doc.getTextContent(root), "hello");
    doc.removeChild(root, section);
    assert_eq!(doc.allNodes.len(), 1);
    assert_eq!(doc.getElementById("para"), None);
    assert!(doc.getElementsByClassName("note").is_empty());
    assert!(doc.getElementsByTagName("p").is_empty());
    assert_eq!(doc.getTextContent(root), "");
}

#[test]
fn test_tags_are_listed_in_lower_case_and_kept_as_given() {
    let mut doc = DomRegistry::new();
    let d = doc.createElement("DIV");
    assert_eq!(doc.getElementsByTagName("div"), vec![d]);
    assert_eq!(doc.getElementsByTagName("Div"), vec![d]);
    assert_eq!(doc.allNodes.get(&d).unwrap().tagName.as_deref(), Some("DIV"));
    assert_eq!(doc.querySelector("div"), None);
    assert_eq!(doc.querySelectorAll("*"), vec![d]);
}

#[test]
fn test_load_vnode_records_the_body() {
    let mut doc = DomRegistry::new();
    let body = doc.loadVnode(VNode::Element(VElementVNode {
        tagName: "body".into(),
        attrs: vec![("data-k".into(), "v".into())],
        diffKey: Some("k1".into()),
        ..Default::default()
    }));
    assert_eq!(doc.bodyId, Some(body));
    assert_eq!(doc.getAttribute(body, "data-k"), Some("v"));
    assert_eq!(doc.getAttribute(body, "__diffKey"), Some("k1"));
}
