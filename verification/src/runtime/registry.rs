//! The document: every live node by identifier, the indexes that find nodes
//! by id, class and tag, the set of nodes whose style must be computed
//! again, and the style sheets.
use vstd::prelude::*;

use super::dom_node::{
    element_v, kv_get, kv_pos, kv_put, kv_unique, lemma_kv_pos, lemma_kv_put_same, list_of, list_push, text_v, DomNode,
    IdIndex, ListIndex, NodeSet, NodeTable, NodeV,
};
use super::node_id::NodeId;
use super::style_sheet::{CssStyleSheet, StyleSheetList};
use super::dom_node::{clone_strings, copy_ids, kv_drop, list_retain, set_insert, without, without_exec};
use super::vnode::{strings_view, VElementVNode, VNode};
use crate::toolchain::html::attr_entries_view;
use super::dom_node::text_of;
use crate::text::{
    chars_of, eq_chars, eq_lit, eq_str, has_string, lowercase, lowercase_of, owned, string_of, strs,
    suffix, trim, trim_chars,
};
use crate::toolchain::css::{words, words_exec};

verus! {

/// What a document holds, as values.
pub struct DocV {
    pub nodes: Seq<(NodeId, NodeV)>,
    pub ids: Seq<(Seq<char>, NodeId)>,
    pub classes: Seq<(Seq<char>, Seq<NodeId>)>,
    pub tags: Seq<(Seq<char>, Seq<NodeId>)>,
    pub next: u64,
    pub dirty: Seq<NodeId>,
    pub sheets: Seq<CssStyleSheet>,
    pub body: Option<NodeId>,
}

/// The document (`document`): all live nodes by identifier, with indexes
/// from `id`, class and tag to nodes.
#[allow(non_snake_case)]
#[derive(Debug)]
pub struct DomRegistry {
    /// Every live node.
    pub allNodes: NodeTable,
    /// `id` attribute to node.
    pub idMap: IdIndex,
    /// Class to the nodes that were given it.
    pub classMap: ListIndex,
    /// Lowercase tag to the nodes created with it.
    pub tagMap: ListIndex,
    /// The identifier the next node gets.
    pub nextId: u64,
    /// The nodes whose style must be computed again.
    pub styleDirtySet: NodeSet,
    /// `document.styleSheets`.
    pub styleSheets: StyleSheetList,
    /// The root that a view was loaded under.
    pub bodyId: Option<NodeId>,
}

impl View for DomRegistry {
    type V = DocV;

    open spec fn view(&self) -> DocV {
        DocV {
            nodes: self.allNodes@,
            ids: self.idMap@,
            classes: self.classMap@,
            tags: self.tagMap@,
            next: self.nextId,
            dirty: self.styleDirtySet@,
            sheets: self.styleSheets@,
            body: self.bodyId,
        }
    }
}

// ═══════════════════════ the operations, as values ═══════════════════════

/// A well-formed document: each node once, under its own identifier, and
/// every identifier below the next one to be handed out.
pub open spec fn doc_wf(d: DocV) -> bool {
    &&& kv_unique(d.nodes)
    &&& forall|i: int|
        0 <= i < d.nodes.len() ==> (#[trigger] d.nodes[i]).0.0 < d.next && d.nodes[i].1.node_id
            == d.nodes[i].0
}

/// The node `id` of `d`.
pub open spec fn node_of(d: DocV, id: NodeId) -> Option<NodeV> {
    kv_get(d.nodes, id)
}

/// `d` with the node `id` set to `n`.
pub open spec fn with_node(d: DocV, id: NodeId, n: NodeV) -> DocV {
    DocV { nodes: kv_put(d.nodes, id, n), ..d }
}

/// `document.createElement(tag)`: a new element under the next identifier,
/// listed under the lowercase tag.
pub open spec fn create_element_spec(d: DocV, tag: Seq<char>) -> DocV {
    let id = NodeId(d.next);
    DocV {
        next: (d.next + 1) as u64,
        tags: list_push(d.tags, lowercase_of(tag), id),
        nodes: kv_put(d.nodes, id, element_v(id, tag)),
        ..d
    }
}

/// The text node that `document.createTextNode(data)` makes.
pub open spec fn text_node_v(id: NodeId, data: Seq<char>) -> NodeV {
    NodeV { attrs: seq![("__text"@, data)], ..text_v(id) }
}

/// `document.createTextNode(data)`: a new text node under the next
/// identifier.
pub open spec fn create_text_spec(d: DocV, data: Seq<char>) -> DocV {
    let id = NodeId(d.next);
    DocV { next: (d.next + 1) as u64, nodes: kv_put(d.nodes, id, text_node_v(id, data)), ..d }
}

/// Linking `c` under `p`: `c` added at the end of `p`'s children, and `p`
/// made `c`'s parent (each where the node exists).
pub open spec fn link_spec(d: DocV, p: NodeId, c: NodeId) -> DocV {
    let d1 = match node_of(d, p) {
        Some(n) => with_node(d, p, NodeV { children: n.children.push(c), ..n }),
        None => d,
    };
    match node_of(d1, c) {
        Some(n) => with_node(d1, c, NodeV { parent: Some(p), ..n }),
        None => d1,
    }
}

/// The position of the first `x` in `s`, or -1.
pub open spec fn first_index(s: Seq<NodeId>, x: NodeId) -> int
    decreases s.len(),
{
    if s.len() == 0 {
        -1
    } else if s[0] == x {
        0
    } else {
        let p = first_index(s.drop_first(), x);
        if p < 0 {
            -1
        } else {
            p + 1
        }
    }
}

pub proof fn lemma_first_index(s: Seq<NodeId>, x: NodeId)
    ensures
        -1 <= first_index(s, x) < s.len(),
        first_index(s, x) >= 0 ==> s[first_index(s, x)] == x,
        forall|j: int|
            0 <= j < s.len() && (first_index(s, x) < 0 || j < first_index(s, x)) ==> #[trigger] s[j]
                != x,
    decreases s.len(),
{
    if s.len() > 0 && s[0] != x {
        lemma_first_index(s.drop_first(), x);
        assert forall|j: int|
            0 <= j < s.len() && (first_index(s, x) < 0 || j < first_index(s, x)) implies #[trigger] s[j]
            != x by {
            if j > 0 {
                assert(s[j] == s.drop_first()[j - 1]);
            }
        }
    }
}

/// `parent.insertBefore(new, reference)`: `new` put in front of the first
/// `reference` among `parent`'s children and given `parent` as its parent;
/// nothing changes when `reference` is not a child.
pub open spec fn insert_before_spec(d: DocV, p: NodeId, new: NodeId, r: NodeId) -> DocV {
    match node_of(d, p) {
        None => d,
        Some(n) => {
            let i = first_index(n.children, r);
            if i < 0 {
                d
            } else {
                let d1 = with_node(d, p, NodeV { children: n.children.insert(i, new), ..n });
                match node_of(d1, new) {
                    Some(m) => with_node(d1, new, NodeV { parent: Some(p), ..m }),
                    None => d1,
                }
            }
        },
    }
}

/// `element.getAttribute(name)`.
pub open spec fn get_attribute_spec(d: DocV, id: NodeId, name: Seq<char>) -> Option<Seq<char>> {
    match node_of(d, id) {
        Some(n) => kv_get(n.attrs, name),
        None => None,
    }
}

/// The class lists of `s` with `id` taken out of the lists of the first
/// `k` classes of `cs`, in order.
pub open spec fn retain_classes(
    s: Seq<(Seq<char>, Seq<NodeId>)>,
    cs: Seq<Seq<char>>,
    id: NodeId,
    k: nat,
) -> Seq<(Seq<char>, Seq<NodeId>)>
    decreases k,
{
    if k == 0 || k > cs.len() {
        s
    } else {
        list_retain(retain_classes(s, cs, id, (k - 1) as nat), cs[k - 1], id)
    }
}

/// The class lists of `s` with `id` added to the lists of the first `k`
/// classes of `cs`, in order.
pub open spec fn push_classes(
    s: Seq<(Seq<char>, Seq<NodeId>)>,
    cs: Seq<Seq<char>>,
    id: NodeId,
    k: nat,
) -> Seq<(Seq<char>, Seq<NodeId>)>
    decreases k,
{
    if k == 0 || k > cs.len() {
        s
    } else {
        list_push(push_classes(s, cs, id, (k - 1) as nat), cs[k - 1], id)
    }
}

/// A node's classes set to the words of `class_str`: the node taken out of
/// the lists of its old classes, then added to those of the new ones.
pub open spec fn update_class_spec(d: DocV, id: NodeId, class_str: Seq<char>) -> DocV {
    match node_of(d, id) {
        None => d,
        Some(n) => {
            let cs = words(class_str);
            let c1 = retain_classes(d.classes, n.classes, id, n.classes.len());
            DocV {
                classes: push_classes(c1, cs, id, cs.len()),
                nodes: kv_put(d.nodes, id, NodeV { classes: cs, ..n }),
                ..d
            }
        },
    }
}

/// `element.setAttribute(name, value)`: the attribute set; `id` also moves
/// the node in the id index, `style` also sets the inline style, `class`
/// also sets the classes; the node is marked for a new style.
pub open spec fn set_attribute_spec(d: DocV, id: NodeId, name: Seq<char>, value: Seq<char>) -> DocV {
    let d1 = match node_of(d, id) {
        None => d,
        Some(n) => {
            let is_id = name == "id"@;
            let ids1 = if is_id {
                match n.id {
                    Some(o) => kv_drop(d.ids, o),
                    None => d.ids,
                }
            } else {
                d.ids
            };
            let n1 = NodeV {
                attrs: kv_put(n.attrs, name, value),
                id: if is_id {
                    Some(value)
                } else {
                    n.id
                },
                style: if name == "style"@ {
                    value
                } else {
                    n.style
                },
                style_dirty: true,
                ..n
            };
            DocV {
                nodes: kv_put(d.nodes, id, n1),
                ids: if is_id {
                    kv_put(ids1, value, id)
                } else {
                    ids1
                },
                dirty: if n.style_dirty {
                    d.dirty
                } else {
                    set_insert(d.dirty, id)
                },
                ..d
            }
        },
    };
    if name == "class"@ {
        update_class_spec(d1, id, value)
    } else {
        d1
    }
}

/// A class added to a node (once) and the node added to the class's list
/// (always).
pub open spec fn add_class_spec(d: DocV, id: NodeId, class: Seq<char>) -> DocV {
    let d1 = match node_of(d, id) {
        Some(n) => if n.classes.contains(class) {
            d
        } else {
            with_node(d, id, NodeV { classes: n.classes.push(class), ..n })
        },
        None => d,
    };
    DocV { classes: list_push(d1.classes, class, id), ..d1 }
}

/// The node `id` and every node below it taken out of the document and of
/// its indexes, children in order, at most `fuel` levels deep.
pub open spec fn remove_rec(d: DocV, id: NodeId, fuel: nat) -> DocV
    decreases fuel, 0nat,
{
    if fuel == 0 {
        d
    } else {
        match node_of(d, id) {
            None => d,
            Some(n) => {
                let d1 = DocV {
                    nodes: kv_drop(d.nodes, id),
                    ids: match n.id {
                        Some(s) => kv_drop(d.ids, s),
                        None => d.ids,
                    },
                    classes: retain_classes(d.classes, n.classes, id, n.classes.len()),
                    tags: match n.tag {
                        Some(t) => list_retain(d.tags, t, id),
                        None => d.tags,
                    },
                    dirty: without(d.dirty, id),
                    ..d
                };
                remove_list(d1, n.children, n.children.len(), (fuel - 1) as nat)
            },
        }
    }
}

/// The first `k` nodes of `kids` taken out, each with what is below it.
pub open spec fn remove_list(d: DocV, kids: Seq<NodeId>, k: nat, fuel: nat) -> DocV
    decreases fuel, k,
{
    if k == 0 || k > kids.len() {
        d
    } else {
        remove_rec(remove_list(d, kids, (k - 1) as nat, fuel), kids[k - 1], fuel)
    }
}

/// `parent.removeChild(child)`: `child` taken out of `parent`'s children,
/// left without a parent, and taken out of the document with everything
/// below it.
pub open spec fn remove_child_spec(d: DocV, p: NodeId, c: NodeId) -> DocV {
    let d1 = match node_of(d, p) {
        Some(n) => with_node(d, p, NodeV { children: without(n.children, c), ..n }),
        None => d,
    };
    let d2 = match node_of(d1, c) {
        Some(m) => with_node(d1, c, NodeV { parent: None, ..m }),
        None => d1,
    };
    remove_rec(d2, c, (d2.nodes.len() + 1) as nat)
}

/// `element.textContent = text`: the children taken out of the document,
/// then one new text node holding `text` linked as the only child.
pub open spec fn set_text_spec(d: DocV, id: NodeId, text: Seq<char>) -> DocV {
    match node_of(d, id) {
        None => d,
        Some(n) => {
            let d1 = with_node(d, id, NodeV { children: seq![], ..n });
            let d2 = remove_list(d1, n.children, n.children.len(), (d1.nodes.len() + 1) as nat);
            link_spec(create_text_spec(d2, text), id, NodeId(d2.next))
        },
    }
}

/// The node `id` and every node below it marked for a new style, children
/// in order, at most `fuel` levels deep.
pub open spec fn mark_rec(d: DocV, id: NodeId, fuel: nat) -> DocV
    decreases fuel, 0nat,
{
    if fuel == 0 {
        d
    } else {
        match node_of(d, id) {
            None => d,
            Some(n) => {
                let d1 = DocV {
                    nodes: kv_put(d.nodes, id, NodeV { style_dirty: true, ..n }),
                    dirty: set_insert(d.dirty, id),
                    ..d
                };
                mark_list(d1, n.children, n.children.len(), (fuel - 1) as nat)
            },
        }
    }
}

/// The first `k` nodes of `kids` marked, each with what is below it.
pub open spec fn mark_list(d: DocV, kids: Seq<NodeId>, k: nat, fuel: nat) -> DocV
    decreases fuel, k,
{
    if k == 0 || k > kids.len() {
        d
    } else {
        mark_rec(mark_list(d, kids, (k - 1) as nat, fuel), kids[k - 1], fuel)
    }
}

/// The text below the node `id`: the text of each text node, in document
/// order, at most `fuel` levels deep.
pub open spec fn text_rec(nodes: Seq<(NodeId, NodeV)>, id: NodeId, fuel: nat) -> Seq<char>
    decreases fuel, 0nat,
{
    if fuel == 0 {
        seq![]
    } else {
        match kv_get(nodes, id) {
            None => seq![],
            Some(n) => {
                let own = if n.tag is None {
                    match text_of(n) {
                        Some(t) => t,
                        None => seq![],
                    }
                } else {
                    seq![]
                };
                own + text_list(nodes, n.children, n.children.len(), (fuel - 1) as nat)
            },
        }
    }
}

/// The text below the first `k` nodes of `kids`.
pub open spec fn text_list(nodes: Seq<(NodeId, NodeV)>, kids: Seq<NodeId>, k: nat, fuel: nat) -> Seq<
    char,
>
    decreases fuel, k,
{
    if k == 0 || k > kids.len() {
        seq![]
    } else {
        text_list(nodes, kids, (k - 1) as nat, fuel) + text_rec(nodes, kids[k - 1], fuel)
    }
}

/// Whether a node matches a simple selector: `*` (or nothing) any element,
/// `#x` the id `x`, `.x` the class `x`, else the lowercase tag.
pub open spec fn elem_matches(n: NodeV, sel: Seq<char>) -> bool {
    let s = trim(sel);
    if s.len() == 0 || s == "*"@ {
        n.tag is Some
    } else if s[0] == '#' {
        n.id == Some(s.drop_first())
    } else if s[0] == '.' {
        n.classes.contains(s.drop_first())
    } else {
        n.tag == Some(lowercase_of(s))
    }
}

/// The first node in document order, from `id` down at most `fuel`
/// levels, that matches `sel`.
pub open spec fn qs_rec(nodes: Seq<(NodeId, NodeV)>, id: NodeId, sel: Seq<char>, fuel: nat) -> Option<
    NodeId,
>
    decreases fuel, 0int,
{
    if fuel == 0 {
        None
    } else {
        match kv_get(nodes, id) {
            None => None,
            Some(n) => if elem_matches(n, sel) {
                Some(id)
            } else {
                qs_from(nodes, n.children, 0, sel, (fuel - 1) as nat)
            },
        }
    }
}

/// The first match below the children `kids[i..]`, in order.
pub open spec fn qs_from(
    nodes: Seq<(NodeId, NodeV)>,
    kids: Seq<NodeId>,
    i: int,
    sel: Seq<char>,
    fuel: nat,
) -> Option<NodeId>
    decreases fuel, kids.len() - i,
{
    if i < 0 || i >= kids.len() {
        None
    } else {
        match qs_rec(nodes, kids[i], sel, fuel) {
            Some(x) => Some(x),
            None => qs_from(nodes, kids, i + 1, sel, fuel),
        }
    }
}

/// Every node in document order, from `id` down at most `fuel` levels,
/// that matches `sel`.
pub open spec fn qsa_rec(nodes: Seq<(NodeId, NodeV)>, id: NodeId, sel: Seq<char>, fuel: nat) -> Seq<
    NodeId,
>
    decreases fuel, 0nat,
{
    if fuel == 0 {
        seq![]
    } else {
        match kv_get(nodes, id) {
            None => seq![],
            Some(n) => (if elem_matches(n, sel) {
                seq![id]
            } else {
                seq![]
            }) + qsa_list(nodes, n.children, n.children.len(), sel, (fuel - 1) as nat),
        }
    }
}

/// The matches below the first `k` nodes of `kids`.
pub open spec fn qsa_list(
    nodes: Seq<(NodeId, NodeV)>,
    kids: Seq<NodeId>,
    k: nat,
    sel: Seq<char>,
    fuel: nat,
) -> Seq<NodeId>
    decreases fuel, k,
{
    if k == 0 || k > kids.len() {
        seq![]
    } else {
        qsa_list(nodes, kids, (k - 1) as nat, sel, fuel) + qsa_rec(nodes, kids[k - 1], sel, fuel)
    }
}

/// The first node, in the order nodes were added, from place `i` on, that
/// is an element without a parent; the search root of `querySelector`.
pub open spec fn first_root(nodes: Seq<(NodeId, NodeV)>, i: int) -> Option<NodeId>
    decreases nodes.len() - i,
{
    if i < 0 || i >= nodes.len() {
        None
    } else if nodes[i].1.parent is None && nodes[i].1.tag is Some {
        Some(nodes[i].1.node_id)
    } else {
        first_root(nodes, i + 1)
    }
}

/// The depth bound of the walks below a node: one more than the number of
/// nodes, which no walk down a tree of these nodes reaches.
pub open spec fn walk_fuel(d: DocV) -> nat {
    (d.nodes.len() + 1) as nat
}

/// The first `k` classes of `cs` added to the node `id`.
pub open spec fn add_classes_spec(d: DocV, id: NodeId, cs: Seq<Seq<char>>, k: nat) -> DocV
    decreases k,
{
    if k == 0 || k > cs.len() {
        d
    } else {
        add_class_spec(add_classes_spec(d, id, cs, (k - 1) as nat), id, cs[k - 1])
    }
}

/// The first `k` attributes of `attrs` set on the node `id`, in order.
pub open spec fn set_attrs_spec(d: DocV, id: NodeId, attrs: Seq<(Seq<char>, Seq<char>)>, k: nat) -> DocV
    decreases k,
{
    if k == 0 || k > attrs.len() {
        d
    } else {
        let a = attrs[k - 1];
        set_attribute_spec(set_attrs_spec(d, id, attrs, (k - 1) as nat), id, a.0, a.1)
    }
}

/// The number of nodes in a virtual tree.
pub open spec fn vcount(v: VNode) -> nat
    decreases v, 0nat,
{
    match v {
        VNode::Element(el) => 1 + vcount_list(el.childNodes@, el.childNodes@.len()),
        VNode::Text(_) => 1,
    }
}

/// The number of nodes in the first `k` trees of `kids`.
pub open spec fn vcount_list(kids: Seq<VNode>, k: nat) -> nat
    decreases kids, k,
{
    if k == 0 || k > kids.len() {
        0
    } else {
        vcount_list(kids, (k - 1) as nat) + vcount(kids[k - 1])
    }
}

pub proof fn lemma_vcount_list_mono(kids: Seq<VNode>, j: nat, k: nat)
    requires
        j <= k <= kids.len(),
    ensures
        vcount_list(kids, j) <= vcount_list(kids, k),
    decreases k,
{
    if j < k {
        lemma_vcount_list_mono(kids, j, (k - 1) as nat);
    }
}

/// The element `el` made live: created, linked under `parent`, given its
/// id, classes, inline style, attributes and key, then its children made
/// live under it in order. The second part is the new node.
pub open spec fn vdom_element(d: DocV, el: VElementVNode, parent: Option<NodeId>) -> (DocV, NodeId)
    decreases el, 1nat,
{
    let id = NodeId(d.next);
    let d1 = create_element_spec(d, el.tagName@);
    let d2 = match parent {
        Some(p) => link_spec(d1, p, id),
        None => d1,
    };
    let d3 = match el.id {
        Some(s) => set_attribute_spec(d2, id, "id"@, s@),
        None => d2,
    };
    let d4 = add_classes_spec(d3, id, strings_view(el.classList@), el.classList@.len());
    let d5 = if el.style@.len() > 0 {
        set_attribute_spec(d4, id, "style"@, el.style@)
    } else {
        d4
    };
    let d6 = set_attrs_spec(d5, id, attr_entries_view(el.attrs@), el.attrs@.len());
    let d7 = match el.diffKey {
        Some(k) => set_attribute_spec(d6, id, "__diffKey"@, k@),
        None => d6,
    };
    (vdom_list(d7, el.childNodes@, el.childNodes@.len(), id), id)
}

/// A virtual node made live under `parent`; the second part is the new
/// node.
pub open spec fn vdom_spec(d: DocV, v: VNode, parent: Option<NodeId>) -> (DocV, NodeId)
    decreases v, 2nat,
{
    match v {
        VNode::Element(el) => vdom_element(d, el, parent),
        VNode::Text(t) => {
            let id = NodeId(d.next);
            let d1 = create_text_spec(d, t@);
            (
                match parent {
                    Some(p) => link_spec(d1, p, id),
                    None => d1,
                },
                id,
            )
        },
    }
}

/// The first `k` trees of `kids` made live under `parent`, in order.
pub open spec fn vdom_list(d: DocV, kids: Seq<VNode>, k: nat, parent: NodeId) -> DocV
    decreases kids, k,
{
    if k == 0 || k > kids.len() {
        d
    } else {
        vdom_spec(vdom_list(d, kids, (k - 1) as nat, parent), kids[k - 1], Some(parent)).0
    }
}

/// Marking keeps every node, never clears a style flag, and keeps every
/// node of the set of nodes to restyle.
pub proof fn lemma_mark_keeps(d: DocV, id: NodeId, fuel: nat)
    ensures
        forall|x: NodeId| #[trigger] node_of(d, x) is Some ==> node_of(mark_rec(d, id, fuel), x) is Some,
        forall|x: NodeId|
            node_of(d, x) is Some && (#[trigger] node_of(d, x))->0.style_dirty ==> node_of(
                mark_rec(d, id, fuel),
                x,
            )->0.style_dirty,
        forall|x: NodeId| #[trigger] d.dirty.contains(x) ==> mark_rec(d, id, fuel).dirty.contains(x),
    decreases fuel, 0nat,
{
    if fuel > 0 {
        if let Some(n) = node_of(d, id) {
            let d1 = DocV {
                nodes: kv_put(d.nodes, id, NodeV { style_dirty: true, ..n }),
                dirty: set_insert(d.dirty, id),
                ..d
            };
            assert forall|x: NodeId| #[trigger] node_of(d, x) is Some implies node_of(d1, x) is Some
                && (node_of(d, x)->0.style_dirty ==> node_of(d1, x)->0.style_dirty) by {
                super::dom_node::lemma_kv_put_get(d.nodes, id, NodeV { style_dirty: true, ..n }, x);
            }
            assert forall|x: NodeId| #[trigger] d.dirty.contains(x) implies d1.dirty.contains(x) by {
                if !d.dirty.contains(id) {
                    assert(d.dirty.push(id)[d.dirty.index_of(x)] == x);
                }
            }
            lemma_mark_list_keeps(d1, n.children, n.children.len(), (fuel - 1) as nat);
        }
    }
}

pub proof fn lemma_mark_list_keeps(d: DocV, kids: Seq<NodeId>, k: nat, fuel: nat)
    ensures
        forall|x: NodeId|
            #[trigger] node_of(d, x) is Some ==> node_of(mark_list(d, kids, k, fuel), x) is Some,
        forall|x: NodeId|
            node_of(d, x) is Some && (#[trigger] node_of(d, x))->0.style_dirty ==> node_of(
                mark_list(d, kids, k, fuel),
                x,
            )->0.style_dirty,
        forall|x: NodeId| #[trigger] d.dirty.contains(x) ==> mark_list(d, kids, k, fuel).dirty.contains(x),
    decreases fuel, k,
{
    if k > 0 && k <= kids.len() {
        lemma_mark_list_keeps(d, kids, (k - 1) as nat, fuel);
        lemma_mark_keeps(mark_list(d, kids, (k - 1) as nat, fuel), kids[k - 1], fuel);
    }
}

/// Ancestors marked for layout from `cur` up, stopping at the first one
/// already marked or missing, at most `fuel` of them.
pub open spec fn mark_layout_up(d: DocV, cur: Option<NodeId>, fuel: nat) -> DocV
    decreases fuel,
{
    if fuel == 0 {
        d
    } else {
        match cur {
            None => d,
            Some(pid) => match node_of(d, pid) {
                None => d,
                Some(p) => if p.layout_dirty {
                    d
                } else {
                    mark_layout_up(
                        with_node(d, pid, NodeV { layout_dirty: true, ..p }),
                        p.parent,
                        (fuel - 1) as nat,
                    )
                },
            },
        }
    }
}

/// The first `k` style results recorded: each node's style flag cleared,
/// and a changed node marked for layout and paint, its parent noted.
pub open spec fn record_results(d: DocV, res: Seq<(NodeId, bool)>, k: int) -> (DocV, Seq<NodeId>)
    decreases k,
{
    if k <= 0 || k > res.len() {
        (d, seq![])
    } else {
        let (d1, parents) = record_results(d, res, k - 1);
        let (id, changed) = res[k - 1];
        match node_of(d1, id) {
            None => (d1, parents),
            Some(n) => {
                let n2 = if changed {
                    NodeV { style_dirty: false, layout_dirty: true, paint_dirty: true, ..n }
                } else {
                    NodeV { style_dirty: false, ..n }
                };
                (
                    with_node(d1, id, n2),
                    if changed && n.parent is Some {
                        parents.push(n.parent->0)
                    } else {
                        parents
                    },
                )
            },
        }
    }
}

/// Layout marks spread up from the first `k` noted parents, in order.
pub open spec fn spread_layout(d: DocV, parents: Seq<NodeId>, k: int) -> DocV
    decreases k,
{
    if k <= 0 || k > parents.len() {
        d
    } else {
        let d1 = spread_layout(d, parents, k - 1);
        mark_layout_up(d1, Some(parents[k - 1]), walk_fuel(d1))
    }
}

/// A style pass finished: the results recorded, layout marks spread up
/// from the parents of changed nodes, and the set of nodes to restyle
/// emptied.
pub open spec fn flush_spec(d: DocV, res: Seq<(NodeId, bool)>) -> DocV {
    let (d1, parents) = record_results(d, res, res.len() as int);
    DocV { dirty: seq![], ..spread_layout(d1, parents, parents.len() as int) }
}

/// Marking ancestors for layout changes no style flag and keeps every
/// node.
pub proof fn lemma_mark_layout_keeps(d: DocV, cur: Option<NodeId>, fuel: nat)
    ensures
        forall|x: NodeId|
            #[trigger] node_of(d, x) is Some ==> node_of(mark_layout_up(d, cur, fuel), x) is Some
                && node_of(mark_layout_up(d, cur, fuel), x)->0.style_dirty == node_of(d, x)->0.style_dirty,
    decreases fuel,
{
    if fuel > 0 {
        if let Some(pid) = cur {
            if let Some(p) = node_of(d, pid) {
                if !p.layout_dirty {
                    let d1 = with_node(d, pid, NodeV { layout_dirty: true, ..p });
                    assert forall|x: NodeId| #[trigger] node_of(d, x) is Some implies node_of(d1, x) is Some
                        && node_of(d1, x)->0.style_dirty == node_of(d, x)->0.style_dirty by {
                        super::dom_node::lemma_kv_put_get(d.nodes, pid, NodeV { layout_dirty: true, ..p }, x);
                    }
                    lemma_mark_layout_keeps(d1, p.parent, (fuel - 1) as nat);
                }
            }
        }
    }
}

pub proof fn lemma_spread_keeps(d: DocV, parents: Seq<NodeId>, k: int)
    ensures
        forall|x: NodeId|
            #[trigger] node_of(d, x) is Some ==> node_of(spread_layout(d, parents, k), x) is Some
                && node_of(spread_layout(d, parents, k), x)->0.style_dirty == node_of(d, x)->0.style_dirty,
    decreases k,
{
    if k > 0 && k <= parents.len() {
        lemma_spread_keeps(d, parents, k - 1);
        let d1 = spread_layout(d, parents, k - 1);
        lemma_mark_layout_keeps(d1, Some(parents[k - 1]), walk_fuel(d1));
    }
}

/// Recording results keeps every node, and leaves each node of the first
/// `k` results that is in the document with its style flag cleared.
pub proof fn lemma_record_clears(d: DocV, res: Seq<(NodeId, bool)>, k: int)
    requires
        0 <= k <= res.len(),
    ensures
        forall|x: NodeId| #[trigger] node_of(d, x) is Some ==> node_of(record_results(d, res, k).0, x) is Some,
        forall|i: int|
            0 <= i < k && node_of(d, (#[trigger] res[i]).0) is Some ==> !node_of(
                record_results(d, res, k).0,
                res[i].0,
            )->0.style_dirty,
    decreases k,
{
    if k > 0 {
        lemma_record_clears(d, res, k - 1);
        let d1 = record_results(d, res, k - 1).0;
        let (id, changed) = res[k - 1];
        if let Some(n) = node_of(d1, id) {
            let n2 = if changed {
                NodeV { style_dirty: false, layout_dirty: true, paint_dirty: true, ..n }
            } else {
                NodeV { style_dirty: false, ..n }
            };
            let d2 = with_node(d1, id, n2);
            assert(record_results(d, res, k).0 == d2);
            assert forall|x: NodeId| #[trigger] node_of(d1, x) is Some implies node_of(d2, x) is Some
                && (x != id ==> node_of(d2, x) == node_of(d1, x))
                && (x == id ==> !node_of(d2, x)->0.style_dirty) by {
                super::dom_node::lemma_kv_put_get(d1.nodes, id, n2, x);
            }
            assert forall|i: int| 0 <= i < k && node_of(d, (#[trigger] res[i]).0) is Some implies !node_of(
                d2,
                res[i].0,
            )->0.style_dirty by {
                assert(node_of(d1, res[i].0) is Some);
            }
        } else {
            assert forall|i: int| 0 <= i < k && node_of(d, (#[trigger] res[i]).0) is Some implies !node_of(
                d1,
                res[i].0,
            )->0.style_dirty by {
                if i == k - 1 {
                    assert(node_of(d1, res[i].0) is Some);
                }
            }
        }
    }
}

// ═══════════════════════ the document ═══════════════════════

/// The position of the first `x` in `v`.
pub(crate) fn index_of_child(v: &Vec<NodeId>, x: NodeId) -> (r: Option<usize>)
    ensures
        match r {
            Some(i) => first_index(v@, x) == i && i < v@.len(),
            None => first_index(v@, x) < 0,
        },
{
    proof {
        lemma_first_index(v@, x);
    }
    let n = v.len();
    let mut i: usize = 0;
    while i < n
        invariant
            i <= n == v@.len(),
            forall|j: int| 0 <= j < i ==> #[trigger] v@[j] != x,
            -1 <= first_index(v@, x) < v@.len(),
            first_index(v@, x) >= 0 ==> v@[first_index(v@, x)] == x,
            forall|j: int|
                0 <= j < v@.len() && (first_index(v@, x) < 0 || j < first_index(v@, x)) ==> #[trigger] v@[j]
                    != x,
        decreases n - i,
    {
        if v[i] == x {
            return Some(i);
        }
        i += 1;
    }
    None
}

impl DomRegistry {
    /// An empty document.
    pub fn new() -> (r: Self)
        ensures
            r@ == (DocV {
                nodes: seq![],
                ids: seq![],
                classes: seq![],
                tags: seq![],
                next: 0,
                dirty: seq![],
                sheets: seq![],
                body: None,
            }),
    {
        Self {
            allNodes: NodeTable::new(),
            idMap: IdIndex::new(),
            classMap: ListIndex::new(),
            tagMap: ListIndex::new(),
            nextId: 0,
            styleDirtySet: NodeSet::new(),
            styleSheets: StyleSheetList::new(),
            bodyId: None,
        }
    }

    /// Adds a sheet at the end of `document.styleSheets`.
    #[allow(non_snake_case)]
    pub fn addStyleSheet(&mut self, sheet: CssStyleSheet)
        ensures
            final(self)@ == (DocV { sheets: old(self)@.sheets.push(sheet), ..old(self)@ }),
    {
        self.styleSheets.push(sheet);
    }

    fn alloc_id(&mut self) -> (r: NodeId)
        requires
            old(self).nextId < u64::MAX,
        ensures
            r == NodeId(old(self).nextId),
            final(self)@ == (DocV { next: (old(self).nextId + 1) as u64, ..old(self)@ }),
    {
        let id = self.nextId;
        self.nextId = self.nextId + 1;
        NodeId::new(id)
    }

    /// `document.createElement(tagName)`.
    #[allow(non_snake_case)]
    pub fn createElement(&mut self, tagName: &str) -> (r: NodeId)
        requires
            old(self).nextId < u64::MAX,
        ensures
            r == NodeId(old(self).nextId),
            final(self)@ == create_element_spec(old(self)@, tagName@),
    {
        let id = self.alloc_id();
        let node = DomNode::new_element(id, owned(tagName));
        let lower = string_of(&lowercase(&chars_of(tagName)));
        self.tagMap.push(lower.as_str(), id);
        self.allNodes.insert(id, node);
        id
    }

    /// `document.createTextNode(data)`; the text is kept as the node's only
    /// attribute.
    #[allow(non_snake_case)]
    pub fn createTextNode(&mut self, data: &str) -> (r: NodeId)
        requires
            old(self).nextId < u64::MAX,
        ensures
            r == NodeId(old(self).nextId),
            final(self)@ == create_text_spec(old(self)@, data@),
    {
        let id = self.alloc_id();
        let mut node = DomNode::new_text(id);
        node.attrs.push((owned("__text"), owned(data)));
        assert(node@ == text_node_v(id, data@)) by {
            reveal_strlit("__text");
            assert(node@.attrs =~= seq![("__text"@, data@)]);
        }
        self.allNodes.insert(id, node);
        id
    }

    /// `document.getElementById(id)`.
    #[allow(non_snake_case)]
    pub fn getElementById(&self, id: &str) -> (r: Option<NodeId>)
        ensures
            r == kv_get(self@.ids, id@),
    {
        self.idMap.get(id)
    }

    /// `document.getElementsByClassName(class)`.
    #[allow(non_snake_case)]
    pub fn getElementsByClassName(&self, class: &str) -> (r: Vec<NodeId>)
        ensures
            r@ == list_of(self@.classes, class@),
    {
        self.classMap.list(class)
    }

    /// `document.getElementsByTagName(tag)`, the tag taken in lower case.
    #[allow(non_snake_case)]
    pub fn getElementsByTagName(&self, tag: &str) -> (r: Vec<NodeId>)
        ensures
            r@ == list_of(self@.tags, lowercase_of(tag@)),
    {
        let lower = string_of(&lowercase(&chars_of(tag)));
        self.tagMap.list(lower.as_str())
    }

    /// `element.getAttribute(name)`.
    #[allow(non_snake_case)]
    pub fn getAttribute(&self, nodeId: NodeId, name: &str) -> (r: Option<&str>)
        ensures
            match r {
                Some(v) => get_attribute_spec(self@, nodeId, name@) == Some(v@),
                None => get_attribute_spec(self@, nodeId, name@) is None,
            },
    {
        match self.allNodes.get(&nodeId) {
            None => None,
            Some(node) => {
                let n = node.attrs.len();
                let ghost s = node@.attrs;
                let mut i: usize = 0;
                while i < n
                    invariant
                        i <= n == node.attrs@.len() == s.len(),
                        s == node@.attrs,
                        node_of(self@, nodeId) == Some(node@),
                        forall|j: int| 0 <= j < i ==> #[trigger] s[j].0 != name@,
                    decreases n - i,
                {
                    if crate::text::eq_str(node.attrs[i].0.as_str(), name) {
                        proof {
                            super::dom_node::lemma_kv_pos_at(s, name@, i as int);
                            assert(s[i as int].1 == node.attrs@[i as int].1@);
                        }
                        return Some(node.attrs[i].1.as_str());
                    }
                    i += 1;
                }
                proof {
                    super::dom_node::lemma_kv_pos_none(s, name@);
                }
                None
            },
        }
    }

    /// Links `childId` under `parentId`.
    #[allow(non_snake_case)]
    fn link_child(&mut self, parentId: NodeId, childId: NodeId)
        ensures
            final(self)@ == link_spec(old(self)@, parentId, childId),
    {
        if let Some(parent) = self.allNodes.get_mut(&parentId) {
            parent.childNodes.push(childId);
        }
        if let Some(child) = self.allNodes.get_mut(&childId) {
            child.parentNode = Some(parentId);
        }
    }

    /// `parent.appendChild(child)`: `child` added at the end of `parent`'s
    /// children and given `parent` as its parent. Nothing else is checked:
    /// `child` stays among the children of a former parent.
    #[allow(non_snake_case)]
    pub fn appendChild(&mut self, parentId: NodeId, childId: NodeId)
        ensures
            final(self)@ == link_spec(old(self)@, parentId, childId),
    {
        self.link_child(parentId, childId);
    }

    /// `parent.insertBefore(new, reference)`.
    #[allow(non_snake_case)]
    pub fn insertBefore(&mut self, parentId: NodeId, newId: NodeId, refId: NodeId)
        ensures
            final(self)@ == insert_before_spec(old(self)@, parentId, newId, refId),
    {
        let ghost d0 = old(self)@;
        if let Some(parent) = self.allNodes.get_mut(&parentId) {
            let ghost n0 = parent@;
            if let Some(p) = index_of_child(&parent.childNodes, refId) {
                parent.childNodes.insert(p, newId);
                assert(parent@ == NodeV { children: n0.children.insert(p as int, newId), ..n0 });
                if let Some(child) = self.allNodes.get_mut(&newId) {
                    child.parentNode = Some(parentId);
                }
            } else {
                proof {
                    lemma_kv_put_same(d0.nodes, parentId, n0);
                }
            }
        }
    }

    /// Empties the set of nodes whose style must be computed again.
    #[allow(non_snake_case)]
    pub fn clearDirtySet(&mut self)
        ensures
            final(self)@ == (DocV { dirty: seq![], ..old(self)@ }),
    {
        self.styleDirtySet.clear();
    }
}


impl DomRegistry {
    /// `element.setAttribute(name, value)`.
    #[allow(non_snake_case)]
    pub fn setAttribute(&mut self, nodeId: NodeId, name: &str, value: &str)
        ensures
            final(self)@ == set_attribute_spec(old(self)@, nodeId, name@, value@),
    {
        let is_id = eq_str(name, "id");
        let is_class = eq_str(name, "class");
        let is_style = eq_str(name, "style");
        let ghost d0 = old(self)@;
        if let Some(node) = self.allNodes.get_mut(&nodeId) {
            let ghost n0 = node@;
            node.put_attr(name, value);
            if is_id {
                if let Some(old_id) = &node.id {
                    self.idMap.remove(old_id.as_str());
                }
                node.id = Some(owned(value));
                self.idMap.insert(value, nodeId);
            }
            if is_style {
                node.style = owned(value);
            }
            if !node.styleDirty {
                node.styleDirty = true;
                self.styleDirtySet.insert(nodeId);
            }
            assert(node@.classes == n0.classes);
        }
        if is_class {
            self.update_class_list(nodeId, value);
        }
    }

    /// Sets the classes of `nodeId` to the words of `class_str`.
    #[allow(non_snake_case)]
    fn update_class_list(&mut self, nodeId: NodeId, class_str: &str)
        ensures
            final(self)@ == update_class_spec(old(self)@, nodeId, class_str@),
    {
        let ghost d0 = old(self)@;
        let old_classes: Vec<String> = match self.allNodes.get(&nodeId) {
            Some(node) => clone_strings(&node.classList),
            None => {
                return;
            },
        };
        let ghost n0 = node_of(d0, nodeId)->0;
        let ghost oc = strings_view(old_classes@);
        let mut i: usize = 0;
        while i < old_classes.len()
            invariant
                i <= old_classes@.len() == oc.len(),
                oc == strings_view(old_classes@),
                self@ == (DocV { classes: retain_classes(d0.classes, oc, nodeId, i as nat), ..d0 }),
            decreases old_classes@.len() - i,
        {
            self.classMap.retain_not(old_classes[i].as_str(), nodeId);
            i += 1;
        }
        let chars = chars_of(class_str);
        let new_classes = words_exec(&chars);
        let ghost cs = words(class_str@);
        assert(strings_view(new_classes@) =~= cs);
        let ghost d1 = self@;
        if let Some(node) = self.allNodes.get_mut(&nodeId) {
            node.classList = clone_strings(&new_classes);
        }
        assert(self@ == (DocV { nodes: kv_put(d0.nodes, nodeId, NodeV { classes: cs, ..n0 }), ..d1 }));
        let mut j: usize = 0;
        while j < new_classes.len()
            invariant
                j <= new_classes@.len() == cs.len(),
                cs == strings_view(new_classes@),
                self@ == (DocV {
                    classes: push_classes(d1.classes, cs, nodeId, j as nat),
                    nodes: kv_put(d0.nodes, nodeId, NodeV { classes: cs, ..n0 }),
                    ..d1
                }),
            decreases new_classes@.len() - j,
        {
            self.classMap.push(new_classes[j].as_str(), nodeId);
            j += 1;
        }
    }

    /// Adds a class to a node and the node to the class's list.
    #[allow(non_snake_case)]
    fn add_class(&mut self, nodeId: NodeId, class: &str)
        ensures
            final(self)@ == add_class_spec(old(self)@, nodeId, class@),
    {
        let ghost d0 = old(self)@;
        if let Some(node) = self.allNodes.get_mut(&nodeId) {
            let ghost n0 = node@;
            let c = chars_of(class);
            assert(strs(node.classList@) =~= n0.classes);
            if !has_string(node.classList.as_slice(), &c) {
                node.classList.push(owned(class));
                assert(node@.classes =~= n0.classes.push(class@));
            } else {
                proof {
                    lemma_kv_put_same(d0.nodes, nodeId, n0);
                }
            }
        }
        self.classMap.push(class, nodeId);
    }
}


impl DomRegistry {
    /// Takes `nodeId` and everything below it out of the document.
    #[allow(non_snake_case)]
    fn remove_node_recursive(&mut self, nodeId: NodeId, Ghost(fuel): Ghost<nat>)
        requires
            fuel > old(self)@.nodes.len(),
        ensures
            final(self)@ == remove_rec(old(self)@, nodeId, fuel),
            final(self)@.nodes.len() <= old(self)@.nodes.len(),
            final(self)@.next == old(self)@.next,
        decreases fuel,
    {
        let ghost d0 = old(self)@;
        proof {
            lemma_kv_pos(d0.nodes, nodeId);
        }
        if let Some(node) = self.allNodes.remove(&nodeId) {
            let ghost n = node@;
            if let Some(id_str) = &node.id {
                self.idMap.remove(id_str.as_str());
            }
            let ghost e0 = self@;
            let mut i: usize = 0;
            while i < node.classList.len()
                invariant
                    i <= node.classList@.len() == n.classes.len(),
                    n == node@,
                    self@ == (DocV { classes: retain_classes(e0.classes, n.classes, nodeId, i as nat), ..e0 }),
                decreases node.classList@.len() - i,
            {
                self.classMap.retain_not(node.classList[i].as_str(), nodeId);
                i += 1;
            }
            if let Some(tag) = &node.tagName {
                self.tagMap.retain_not(tag.as_str(), nodeId);
            }
            self.styleDirtySet.remove(&nodeId);
            let ghost d1 = self@;
            assert(d1 == (DocV {
                nodes: kv_drop(d0.nodes, nodeId),
                ids: match n.id {
                    Some(s) => kv_drop(d0.ids, s),
                    None => d0.ids,
                },
                classes: retain_classes(d0.classes, n.classes, nodeId, n.classes.len()),
                tags: match n.tag {
                    Some(t) => list_retain(d0.tags, t, nodeId),
                    None => d0.tags,
                },
                dirty: without(d0.dirty, nodeId),
                ..d0
            }));
            let kids = &node.childNodes;
            let mut j: usize = 0;
            while j < kids.len()
                invariant
                    j <= kids@.len() == n.children.len(),
                    kids@ == n.children,
                    fuel > d0.nodes.len(),
                    d1.nodes.len() == d0.nodes.len() - 1,
                    self@ == remove_list(d1, n.children, j as nat, (fuel - 1) as nat),
                    self@.nodes.len() <= d1.nodes.len(),
                    self@.next == d0.next,
                decreases kids@.len() - j,
            {
                self.remove_node_recursive(kids[j], Ghost((fuel - 1) as nat));
                j += 1;
            }
        }
    }

    /// `parent.removeChild(child)`.
    #[allow(non_snake_case)]
    pub fn removeChild(&mut self, parentId: NodeId, childId: NodeId)
        ensures
            final(self)@ == remove_child_spec(old(self)@, parentId, childId),
    {
        if let Some(parent) = self.allNodes.get_mut(&parentId) {
            parent.childNodes = without_exec(&parent.childNodes, childId);
        }
        if let Some(child) = self.allNodes.get_mut(&childId) {
            child.parentNode = None;
        }
        let ghost f = (self@.nodes.len() + 1) as nat;
        self.remove_node_recursive(childId, Ghost(f));
    }

    /// `element.textContent = text`.
    #[allow(non_snake_case)]
    pub fn setTextContent(&mut self, nodeId: NodeId, text: &str)
        requires
            node_of(old(self)@, nodeId) is Some ==> old(self).nextId < u64::MAX,
        ensures
            final(self)@ == set_text_spec(old(self)@, nodeId, text@),
    {
        let ghost d0 = old(self)@;
        let kids = match self.allNodes.get_mut(&nodeId) {
            Some(node) => {
                let k = copy_ids(&node.childNodes);
                node.childNodes = Vec::new();
                k
            },
            None => {
                return;
            },
        };
        let ghost n0 = node_of(d0, nodeId)->0;
        let ghost d1 = self@;
        assert(d1 == with_node(d0, nodeId, NodeV { children: seq![], ..n0 }));
        let ghost f = (d1.nodes.len() + 1) as nat;
        let mut j: usize = 0;
        while j < kids.len()
            invariant
                j <= kids@.len(),
                kids@ == n0.children,
                f == d1.nodes.len() + 1,
                self@ == remove_list(d1, n0.children, j as nat, f),
                self@.nodes.len() <= d1.nodes.len(),
                self@.next == d0.next,
                self.nextId == d0.next,
                d0.next < u64::MAX,
            decreases kids@.len() - j,
        {
            self.remove_node_recursive(kids[j], Ghost(f));
            j += 1;
        }
        let text_id = self.createTextNode(text);
        self.link_child(nodeId, text_id);
    }
}


/// `elem_matches` on a selector already trimmed.
fn elem_match_trimmed(node: &DomNode, t: &Vec<char>, Ghost(sel): Ghost<Seq<char>>) -> (r: bool)
    requires
        t@ == trim(sel),
    ensures
        r == elem_matches(node@, sel),
{
    if t.len() == 0 || eq_lit(t, "*") {
        return node.is_element();
    }
    if t[0] == '#' {
        let rest = suffix(t, 1);
        assert(rest@ == t@.drop_first());
        match &node.id {
            Some(x) => {
                let xc = chars_of(x.as_str());
                eq_chars(&xc, &rest)
            },
            None => false,
        }
    } else if t[0] == '.' {
        let rest = suffix(t, 1);
        assert(rest@ == t@.drop_first());
        assert(strs(node.classList@) =~= node@.classes);
        has_string(node.classList.as_slice(), &rest)
    } else {
        let lower = lowercase(t);
        match &node.tagName {
            Some(x) => {
                let xc = chars_of(x.as_str());
                eq_chars(&xc, &lower)
            },
            None => false,
        }
    }
}

impl DomRegistry {
    fn mark_dirty_rec(&mut self, id: NodeId, fuel: u128)
        ensures
            final(self)@ == mark_rec(old(self)@, id, fuel as nat),
        decreases fuel,
    {
        if fuel == 0 {
            return;
        }
        let ghost d0 = old(self)@;
        let kids = match self.allNodes.get_mut(&id) {
            Some(node) => {
                node.styleDirty = true;
                copy_ids(&node.childNodes)
            },
            None => {
                return;
            },
        };
        self.styleDirtySet.insert(id);
        let ghost n0 = node_of(d0, id)->0;
        let ghost d1 = self@;
        let mut j: usize = 0;
        while j < kids.len()
            invariant
                0 < fuel,
                j <= kids@.len(),
                kids@ == n0.children,
                self@ == mark_list(d1, n0.children, j as nat, (fuel - 1) as nat),
            decreases kids@.len() - j,
        {
            self.mark_dirty_rec(kids[j], fuel - 1);
            j += 1;
        }
    }

    /// Marks `rootId` and every node below it for a new style.
    #[allow(non_snake_case)]
    pub fn markAllDirty(&mut self, rootId: NodeId)
        ensures
            final(self)@ == mark_rec(old(self)@, rootId, walk_fuel(old(self)@)),
    {
        let f = self.allNodes.len() as u128 + 1;
        self.mark_dirty_rec(rootId, f);
    }

    fn collect_text_content(&self, id: NodeId, text: &mut Vec<char>, fuel: u128)
        ensures
            final(text)@ == old(text)@ + text_rec(self@.nodes, id, fuel as nat),
        decreases fuel,
    {
        if fuel == 0 {
            assert(old(text)@ + seq![] =~= old(text)@);
            return;
        }
        match self.allNodes.get(&id) {
            None => {
                assert(old(text)@ + seq![] =~= old(text)@);
            },
            Some(node) => {
                let ghost n = node@;
                if node.is_text() {
                    if let Some(t) = node.text_content() {
                        let tc = chars_of(t);
                        crate::text::push_all(text, &tc);
                    }
                }
                let ghost t1 = text@;
                assert(t1 == old(text)@ + (if n.tag is None {
                    match text_of(n) {
                        Some(t) => t,
                        None => seq![],
                    }
                } else {
                    seq![]
                })) by {
                    assert(old(text)@ + seq![] =~= old(text)@);
                }
                let kids = &node.childNodes;
                let mut j: usize = 0;
                while j < kids.len()
                    invariant
                        0 < fuel,
                        j <= kids@.len(),
                        kids@ == n.children,
                        text@ == t1 + text_list(self@.nodes, n.children, j as nat, (fuel - 1) as nat),
                    decreases kids@.len() - j,
                {
                    proof {
                        if j == 0 {
                            assert(t1 + seq![] =~= t1);
                        }
                    }
                    self.collect_text_content(kids[j], text, fuel - 1);
                    j += 1;
                    assert(text@ =~= t1 + text_list(self@.nodes, n.children, j as nat, (fuel - 1) as nat));
                }
                assert(text@ =~= old(text)@ + text_rec(self@.nodes, id, fuel as nat));
            },
        }
    }

    /// `element.textContent`: the text of every text node below `nodeId`,
    /// in document order.
    #[allow(non_snake_case)]
    pub fn getTextContent(&self, nodeId: NodeId) -> (r: String)
        ensures
            r@ == text_rec(self@.nodes, nodeId, walk_fuel(self@)),
    {
        let mut text: Vec<char> = Vec::new();
        let f = self.allNodes.len() as u128 + 1;
        self.collect_text_content(nodeId, &mut text, f);
        assert(text@ =~= text_rec(self@.nodes, nodeId, walk_fuel(self@)));
        string_of(&text)
    }

    fn query_one(&self, id: NodeId, t: &Vec<char>, Ghost(sel): Ghost<Seq<char>>, fuel: u128) -> (r:
        Option<NodeId>)
        requires
            t@ == trim(sel),
        ensures
            r == qs_rec(self@.nodes, id, sel, fuel as nat),
        decreases fuel,
    {
        if fuel == 0 {
            return None;
        }
        let node = match self.allNodes.get(&id) {
            Some(n) => n,
            None => {
                return None;
            },
        };
        if elem_match_trimmed(node, t, Ghost(sel)) {
            return Some(id);
        }
        let ghost n = node@;
        let kids = &node.childNodes;
        let mut j: usize = 0;
        while j < kids.len()
            invariant
                0 < fuel,
                j <= kids@.len(),
                kids@ == n.children,
                t@ == trim(sel),
                !elem_matches(n, sel),
                kv_get(self@.nodes, id) == Some(n),
                qs_from(self@.nodes, n.children, 0, sel, (fuel - 1) as nat) == qs_from(
                    self@.nodes,
                    n.children,
                    j as int,
                    sel,
                    (fuel - 1) as nat,
                ),
            decreases kids@.len() - j,
        {
            let found = self.query_one(kids[j], t, Ghost(sel), fuel - 1);
            if found.is_some() {
                assert(qs_from(self@.nodes, n.children, j as int, sel, (fuel - 1) as nat) == found);
                return found;
            }
            j += 1;
        }
        None
    }

    /// `element.querySelector(selector)` from `rootId`: the first node in
    /// document order, `rootId` first, that matches a simple selector.
    #[allow(non_snake_case)]
    pub fn querySelector_from(&self, rootId: NodeId, selector: &str) -> (r: Option<NodeId>)
        ensures
            r == qs_rec(self@.nodes, rootId, selector@, walk_fuel(self@)),
    {
        let t = trim_chars(&chars_of(selector));
        let f = self.allNodes.len() as u128 + 1;
        self.query_one(rootId, &t, Ghost(selector@), f)
    }

    fn query_all(
        &self,
        id: NodeId,
        t: &Vec<char>,
        Ghost(sel): Ghost<Seq<char>>,
        results: &mut Vec<NodeId>,
        fuel: u128,
    )
        requires
            t@ == trim(sel),
        ensures
            final(results)@ == old(results)@ + qsa_rec(self@.nodes, id, sel, fuel as nat),
        decreases fuel,
    {
        if fuel == 0 {
            assert(old(results)@ + seq![] =~= old(results)@);
            return;
        }
        let node = match self.allNodes.get(&id) {
            Some(n) => n,
            None => {
                assert(old(results)@ + seq![] =~= old(results)@);
                return;
            },
        };
        let ghost n = node@;
        if elem_match_trimmed(node, t, Ghost(sel)) {
            results.push(id);
        }
        let ghost r1 = results@;
        assert(r1 =~= old(results)@ + (if elem_matches(n, sel) {
            seq![id]
        } else {
            seq![]
        }));
        let kids = &node.childNodes;
        let mut j: usize = 0;
        while j < kids.len()
            invariant
                0 < fuel,
                j <= kids@.len(),
                kids@ == n.children,
                t@ == trim(sel),
                results@ == r1 + qsa_list(self@.nodes, n.children, j as nat, sel, (fuel - 1) as nat),
            decreases kids@.len() - j,
        {
            proof {
                if j == 0 {
                    assert(r1 + seq![] =~= r1);
                }
            }
            self.query_all(kids[j], t, Ghost(sel), results, fuel - 1);
            j += 1;
            assert(results@ =~= r1 + qsa_list(self@.nodes, n.children, j as nat, sel, (fuel - 1) as nat));
        }
        proof {
            if kids@.len() == 0 {
                assert(r1 + seq![] =~= r1);
            }
        }
        assert(results@ =~= old(results)@ + qsa_rec(self@.nodes, id, sel, fuel as nat));
    }

    /// `element.querySelectorAll(selector)` from `rootId`: every node in
    /// document order, `rootId` first, that matches a simple selector,
    /// added at the end of `results`.
    #[allow(non_snake_case)]
    pub fn querySelectorAll_from(&self, rootId: NodeId, selector: &str, results: &mut Vec<NodeId>)
        ensures
            final(results)@ == old(results)@ + qsa_rec(self@.nodes, rootId, selector@, walk_fuel(self@)),
    {
        let t = trim_chars(&chars_of(selector));
        let f = self.allNodes.len() as u128 + 1;
        self.query_all(rootId, &t, Ghost(selector@), results, f);
    }

    /// The search root: the first element without a parent, in the order
    /// nodes were added.
    fn find_root(&self) -> (r: Option<NodeId>)
        ensures
            r == first_root(self@.nodes, 0),
    {
        let n = self.allNodes.len();
        let mut i: usize = 0;
        while i < n
            invariant
                i <= n == self@.nodes.len(),
                first_root(self@.nodes, 0) == first_root(self@.nodes, i as int),
            decreases n - i,
        {
            let node = self.allNodes.node_at(i);
            if node.parentNode.is_none() && node.is_element() {
                return Some(node.nodeId);
            }
            i += 1;
        }
        None
    }

    /// `document.querySelector(selector)`: searched from the first element
    /// without a parent.
    #[allow(non_snake_case)]
    pub fn querySelector(&self, selector: &str) -> (r: Option<NodeId>)
        ensures
            r == match first_root(self@.nodes, 0) {
                Some(b) => qs_rec(self@.nodes, b, selector@, walk_fuel(self@)),
                None => None,
            },
    {
        match self.find_root() {
            Some(b) => self.querySelector_from(b, selector),
            None => None,
        }
    }

    /// `document.querySelectorAll(selector)`: searched from the first
    /// element without a parent.
    #[allow(non_snake_case)]
    pub fn querySelectorAll(&self, selector: &str) -> (r: Vec<NodeId>)
        ensures
            r@ == match first_root(self@.nodes, 0) {
                Some(b) => qsa_rec(self@.nodes, b, selector@, walk_fuel(self@)),
                None => seq![],
            },
    {
        let mut results: Vec<NodeId> = Vec::new();
        if let Some(b) = self.find_root() {
            self.querySelectorAll_from(b, selector, &mut results);
            assert(results@ =~= qsa_rec(self@.nodes, b, selector@, walk_fuel(self@)));
        }
        results
    }
}


impl DomRegistry {
    #[allow(non_snake_case)]
    fn vnode_to_dom_inner(&mut self, vnode: &VNode, parentId: Option<NodeId>) -> (r: NodeId)
        requires
            old(self).nextId + vcount(*vnode) <= u64::MAX,
        ensures
            (final(self)@, r) == vdom_spec(old(self)@, *vnode, parentId),
            final(self).nextId == old(self).nextId + vcount(*vnode),
        decreases vnode,
    {
        match vnode {
            VNode::Element(el) => {
                let ghost d0 = old(self)@;
                let id = self.createElement(el.tagName.as_str());
                if let Some(pid) = parentId {
                    self.link_child(pid, id);
                }
                if let Some(id_attr) = &el.id {
                    self.setAttribute(id, "id", id_attr.as_str());
                }
                let ghost cs = strings_view(el.classList@);
                let ghost d3 = self@;
                let mut i: usize = 0;
                while i < el.classList.len()
                    invariant
                        i <= el.classList@.len() == cs.len(),
                        cs == strings_view(el.classList@),
                        self@ == add_classes_spec(d3, id, cs, i as nat),
                        self.nextId == d3.next,
                    decreases el.classList@.len() - i,
                {
                    self.add_class(id, el.classList[i].as_str());
                    i += 1;
                }
                let sc = chars_of(el.style.as_str());
                if sc.len() > 0 {
                    self.setAttribute(id, "style", el.style.as_str());
                }
                let ghost at = attr_entries_view(el.attrs@);
                let ghost d5 = self@;
                let mut k: usize = 0;
                while k < el.attrs.len()
                    invariant
                        k <= el.attrs@.len() == at.len(),
                        at == attr_entries_view(el.attrs@),
                        self@ == set_attrs_spec(d5, id, at, k as nat),
                        self.nextId == d5.next,
                    decreases el.attrs@.len() - k,
                {
                    self.setAttribute(id, el.attrs[k].0.as_str(), el.attrs[k].1.as_str());
                    k += 1;
                }
                if let Some(key) = &el.diffKey {
                    self.setAttribute(id, "__diffKey", key.as_str());
                }
                let ghost d7 = self@;
                let kids = &el.childNodes;
                proof {
                    lemma_vcount_list_mono(kids@, 0, kids@.len());
                    assert forall|i: int| 0 <= i < kids@.len() implies decreases_to!(*vnode => kids@[i]) by {
                        assert(decreases_to!(*vnode => *el));
                        assert(decreases_to!(*el => el.childNodes));
                        assert(decreases_to!(el.childNodes => el.childNodes@));
                        assert(decreases_to!(el.childNodes@ => el.childNodes@[i]));
                    }
                }
                let mut j: usize = 0;
                while j < kids.len()
                    invariant
                        j <= kids@.len(),
                        kids@ == el.childNodes@,
                        self@ == vdom_list(d7, kids@, j as nat, id),
                        self.nextId == d7.next + vcount_list(kids@, j as nat),
                        d7.next + vcount_list(kids@, kids@.len()) <= u64::MAX,
                        forall|i: int| 0 <= i < kids@.len() ==> decreases_to!(*vnode => kids@[i]),
                    decreases kids@.len() - j,
                {
                    proof {
                        lemma_vcount_list_mono(kids@, (j + 1) as nat, kids@.len());
                        assert(decreases_to!(*vnode => kids@[j as int]));
                    }
                    self.vnode_to_dom_inner(&kids[j], Some(id));
                    j += 1;
                }
                id
            },
            VNode::Text(text) => {
                let id = self.createTextNode(text.as_str());
                if let Some(pid) = parentId {
                    self.link_child(pid, id);
                }
                id
            },
        }
    }

    /// Makes a virtual tree live; the result is its root, which has no
    /// parent.
    #[allow(non_snake_case)]
    pub fn vnodeToDom(&mut self, vnode: &VNode) -> (r: NodeId)
        requires
            old(self).nextId + vcount(*vnode) <= u64::MAX,
        ensures
            (final(self)@, r) == vdom_spec(old(self)@, *vnode, None),
    {
        self.vnode_to_dom_inner(vnode, None)
    }

    /// Makes a virtual tree live and records its root as the body.
    #[allow(non_snake_case)]
    pub fn loadVnode(&mut self, vnode: VNode) -> (r: NodeId)
        requires
            old(self).nextId + vcount(vnode) <= u64::MAX,
        ensures
            r == vdom_spec(old(self)@, vnode, None).1,
            final(self)@ == (DocV { body: Some(r), ..vdom_spec(old(self)@, vnode, None).0 }),
    {
        let body_id = self.vnodeToDom(&vnode);
        self.bodyId = Some(body_id);
        body_id
    }
}


impl Default for DomRegistry {
    /// An empty document.
    fn default() -> (r: Self)
        ensures
            r@ == (DocV {
                nodes: seq![],
                ids: seq![],
                classes: seq![],
                tags: seq![],
                next: 0,
                dirty: seq![],
                sheets: seq![],
                body: None,
            }),
    {
        Self::new()
    }
}


impl DomRegistry {
    fn mark_layout_exec(&mut self, start: NodeId, fuel: u128)
        ensures
            final(self)@ == mark_layout_up(old(self)@, Some(start), fuel as nat),
            final(self)@.nodes.len() == old(self)@.nodes.len(),
    {
        let mut cur: Option<NodeId> = Some(start);
        let mut f = fuel;
        while f > 0
            invariant
                mark_layout_up(self@, cur, f as nat) == mark_layout_up(old(self)@, Some(start), fuel as nat),
                self@.nodes.len() == old(self)@.nodes.len(),
            decreases f,
        {
            let pid = match cur {
                Some(p) => p,
                None => {
                    return;
                },
            };
            proof {
                lemma_kv_pos(self@.nodes, pid);
            }
            match self.allNodes.get(&pid) {
                None => {
                    return;
                },
                Some(p) => {
                    if p.layoutDirty {
                        return;
                    }
                },
            }
            if let Some(p) = self.allNodes.get_mut(&pid) {
                p.layoutDirty = true;
                cur = p.parentNode;
            }
            f = f - 1;
        }
    }

    /// Records the results of a style pass: for each
    /// `(node, changed)` in order, the node's style flag is cleared, and a
    /// node whose computed style changed is marked for layout and paint;
    /// then layout marks spread from the parent of each changed node up to
    /// the first ancestor already marked; then the set of nodes to restyle
    /// is emptied.
    pub(crate) fn record_style_pass(&mut self, results: &[(NodeId, bool)])
        ensures
            final(self)@ == flush_spec(old(self)@, results@),
    {
        let ghost d0 = old(self)@;
        let mut parents: Vec<NodeId> = Vec::new();
        let mut k: usize = 0;
        while k < results.len()
            invariant
                k <= results@.len(),
                (self@, parents@) == record_results(d0, results@, k as int),
            decreases results@.len() - k,
        {
            let (id, changed) = results[k];
            match self.allNodes.get_mut(&id) {
                None => {},
                Some(node) => {
                    node.styleDirty = false;
                    if changed {
                        node.layoutDirty = true;
                        node.paintDirty = true;
                        if let Some(pid) = node.parentNode {
                            parents.push(pid);
                        }
                    }
                },
            }
            k += 1;
        }
        let ghost d1 = self@;
        let mut q: usize = 0;
        while q < parents.len()
            invariant
                q <= parents@.len(),
                self@ == spread_layout(d1, parents@, q as int),
            decreases parents@.len() - q,
        {
            let f = self.allNodes.len() as u128 + 1;
            self.mark_layout_exec(parents[q], f);
            q += 1;
        }
        self.styleDirtySet.clear();
    }
}


// ═══════════════════════ well-formedness ═══════════════════════

pub proof fn lemma_wf_node(d: DocV, id: NodeId)
    requires
        doc_wf(d),
        node_of(d, id) is Some,
    ensures
        node_of(d, id)->0.node_id == id,
        id.0 < d.next,
{
    lemma_kv_pos(d.nodes, id);
    let p = kv_pos(d.nodes, id);
    assert(d.nodes[p].0 == id);
}

/// Writing, under an identifier of the document, a node that carries that
/// identifier keeps the document well formed.
pub proof fn lemma_wf_put(d: DocV, id: NodeId, n: NodeV)
    requires
        doc_wf(d),
        node_of(d, id) is Some,
        n.node_id == id,
    ensures
        doc_wf(with_node(d, id, n)),
{
    lemma_wf_node(d, id);
    lemma_kv_pos(d.nodes, id);
    super::dom_node::lemma_kv_put_unique(d.nodes, id, n);
    let e = with_node(d, id, n);
    assert forall|i: int| 0 <= i < e.nodes.len() implies (#[trigger] e.nodes[i]).0.0 < e.next
        && e.nodes[i].1.node_id == e.nodes[i].0 by {
        if i != kv_pos(d.nodes, id) {
            assert(e.nodes[i] == d.nodes[i]);
        }
    }
}

/// Taking a node out keeps the document well formed.
pub proof fn lemma_wf_drop(d: DocV, id: NodeId)
    requires
        doc_wf(d),
    ensures
        doc_wf(DocV { nodes: kv_drop(d.nodes, id), ..d }),
{
    super::dom_node::lemma_kv_drop_get(d.nodes, id, id);
    lemma_kv_pos(d.nodes, id);
    let p = kv_pos(d.nodes, id);
    let t = kv_drop(d.nodes, id);
    if p >= 0 {
        assert forall|i: int| 0 <= i < t.len() implies (#[trigger] t[i]).0.0 < d.next && t[i].1.node_id
            == t[i].0 by {
            if i < p {
                assert(t[i] == d.nodes[i]);
            } else {
                assert(t[i] == d.nodes[i + 1]);
            }
        }
    }
}

/// Adding a node under the next identifier keeps the document well formed.
pub proof fn lemma_wf_add(d: DocV, n: NodeV)
    requires
        doc_wf(d),
        d.next < u64::MAX,
        n.node_id == NodeId(d.next),
    ensures
        doc_wf(DocV { next: (d.next + 1) as u64, nodes: kv_put(d.nodes, NodeId(d.next), n), ..d }),
{
    let id = NodeId(d.next);
    lemma_kv_pos(d.nodes, id);
    assert(kv_pos(d.nodes, id) < 0) by {
        if kv_pos(d.nodes, id) >= 0 {
            assert(d.nodes[kv_pos(d.nodes, id)].0.0 < d.next);
        }
    }
    super::dom_node::lemma_kv_put_unique(d.nodes, id, n);
    assert(kv_put(d.nodes, id, n) == d.nodes.push((id, n)));
}

pub proof fn lemma_wf_link(d: DocV, p: NodeId, c: NodeId)
    requires
        doc_wf(d),
    ensures
        doc_wf(link_spec(d, p, c)),
{
    let d1 = match node_of(d, p) {
        Some(n) => with_node(d, p, NodeV { children: n.children.push(c), ..n }),
        None => d,
    };
    if let Some(n) = node_of(d, p) {
        lemma_wf_node(d, p);
        lemma_wf_put(d, p, NodeV { children: n.children.push(c), ..n });
    }
    if let Some(m) = node_of(d1, c) {
        lemma_wf_node(d1, c);
        lemma_wf_put(d1, c, NodeV { parent: Some(p), ..m });
    }
}

pub proof fn lemma_wf_insert_before(d: DocV, p: NodeId, new: NodeId, r: NodeId)
    requires
        doc_wf(d),
    ensures
        doc_wf(insert_before_spec(d, p, new, r)),
{
    if let Some(n) = node_of(d, p) {
        let i = first_index(n.children, r);
        if i >= 0 {
            lemma_wf_node(d, p);
            let n1 = NodeV { children: n.children.insert(i, new), ..n };
            lemma_wf_put(d, p, n1);
            let d1 = with_node(d, p, n1);
            if let Some(m) = node_of(d1, new) {
                lemma_wf_node(d1, new);
                lemma_wf_put(d1, new, NodeV { parent: Some(p), ..m });
            }
        }
    }
}

pub proof fn lemma_wf_set_attribute(d: DocV, id: NodeId, name: Seq<char>, value: Seq<char>)
    requires
        doc_wf(d),
    ensures
        doc_wf(set_attribute_spec(d, id, name, value)),
{
    let d1 = match node_of(d, id) {
        None => d,
        Some(n) => {
            let is_id = name == "id"@;
            let ids1 = if is_id {
                match n.id {
                    Some(o) => kv_drop(d.ids, o),
                    None => d.ids,
                }
            } else {
                d.ids
            };
            let n1 = NodeV {
                attrs: kv_put(n.attrs, name, value),
                id: if is_id {
                    Some(value)
                } else {
                    n.id
                },
                style: if name == "style"@ {
                    value
                } else {
                    n.style
                },
                style_dirty: true,
                ..n
            };
            DocV {
                nodes: kv_put(d.nodes, id, n1),
                ids: if is_id {
                    kv_put(ids1, value, id)
                } else {
                    ids1
                },
                dirty: if n.style_dirty {
                    d.dirty
                } else {
                    set_insert(d.dirty, id)
                },
                ..d
            }
        },
    };
    if let Some(n) = node_of(d, id) {
        lemma_wf_node(d, id);
        let is_id = name == "id"@;
        let n1 = NodeV {
            attrs: kv_put(n.attrs, name, value),
            id: if is_id {
                Some(value)
            } else {
                n.id
            },
            style: if name == "style"@ {
                value
            } else {
                n.style
            },
            style_dirty: true,
            ..n
        };
        lemma_wf_put(d, id, n1);
    }
    assert(doc_wf(d1));
    if name == "class"@ {
        if let Some(n) = node_of(d1, id) {
            lemma_wf_node(d1, id);
            lemma_wf_put(d1, id, NodeV { classes: crate::toolchain::css::words(value), ..n });
        }
    }
}

pub proof fn lemma_wf_add_class(d: DocV, id: NodeId, class: Seq<char>)
    requires
        doc_wf(d),
    ensures
        doc_wf(add_class_spec(d, id, class)),
{
    if let Some(n) = node_of(d, id) {
        if !n.classes.contains(class) {
            lemma_wf_node(d, id);
            lemma_wf_put(d, id, NodeV { classes: n.classes.push(class), ..n });
        }
    }
}

pub proof fn lemma_wf_remove_rec(d: DocV, id: NodeId, fuel: nat)
    requires
        doc_wf(d),
    ensures
        doc_wf(remove_rec(d, id, fuel)),
        remove_rec(d, id, fuel).next == d.next,
    decreases fuel, 0nat,
{
    if fuel > 0 {
        if let Some(n) = node_of(d, id) {
            lemma_wf_drop(d, id);
            let d1 = DocV {
                nodes: kv_drop(d.nodes, id),
                ids: match n.id {
                    Some(s) => kv_drop(d.ids, s),
                    None => d.ids,
                },
                classes: retain_classes(d.classes, n.classes, id, n.classes.len()),
                tags: match n.tag {
                    Some(t) => list_retain(d.tags, t, id),
                    None => d.tags,
                },
                dirty: without(d.dirty, id),
                ..d
            };
            lemma_wf_remove_list(d1, n.children, n.children.len(), (fuel - 1) as nat);
        }
    }
}

pub proof fn lemma_wf_remove_list(d: DocV, kids: Seq<NodeId>, k: nat, fuel: nat)
    requires
        doc_wf(d),
    ensures
        doc_wf(remove_list(d, kids, k, fuel)),
        remove_list(d, kids, k, fuel).next == d.next,
    decreases fuel, k,
{
    if k > 0 && k <= kids.len() {
        lemma_wf_remove_list(d, kids, (k - 1) as nat, fuel);
        lemma_wf_remove_rec(remove_list(d, kids, (k - 1) as nat, fuel), kids[k - 1], fuel);
    }
}

pub proof fn lemma_wf_remove_child(d: DocV, p: NodeId, c: NodeId)
    requires
        doc_wf(d),
    ensures
        doc_wf(remove_child_spec(d, p, c)),
{
    let d1 = match node_of(d, p) {
        Some(n) => with_node(d, p, NodeV { children: without(n.children, c), ..n }),
        None => d,
    };
    if let Some(n) = node_of(d, p) {
        lemma_wf_node(d, p);
        lemma_wf_put(d, p, NodeV { children: without(n.children, c), ..n });
    }
    let d2 = match node_of(d1, c) {
        Some(m) => with_node(d1, c, NodeV { parent: None, ..m }),
        None => d1,
    };
    if let Some(m) = node_of(d1, c) {
        lemma_wf_node(d1, c);
        lemma_wf_put(d1, c, NodeV { parent: None, ..m });
    }
    lemma_wf_remove_rec(d2, c, (d2.nodes.len() + 1) as nat);
}

pub proof fn lemma_wf_set_text(d: DocV, id: NodeId, text: Seq<char>)
    requires
        doc_wf(d),
        d.next < u64::MAX,
    ensures
        doc_wf(set_text_spec(d, id, text)),
{
    if let Some(n) = node_of(d, id) {
        lemma_wf_node(d, id);
        lemma_wf_put(d, id, NodeV { children: seq![], ..n });
        let d1 = with_node(d, id, NodeV { children: seq![], ..n });
        lemma_wf_remove_list(d1, n.children, n.children.len(), (d1.nodes.len() + 1) as nat);
        let d2 = remove_list(d1, n.children, n.children.len(), (d1.nodes.len() + 1) as nat);
        lemma_wf_add(d2, text_node_v(NodeId(d2.next), text));
        lemma_wf_link(create_text_spec(d2, text), id, NodeId(d2.next));
    }
}

pub proof fn lemma_wf_mark_rec(d: DocV, id: NodeId, fuel: nat)
    requires
        doc_wf(d),
    ensures
        doc_wf(mark_rec(d, id, fuel)),
    decreases fuel, 0nat,
{
    if fuel > 0 {
        if let Some(n) = node_of(d, id) {
            lemma_wf_node(d, id);
            lemma_wf_put(d, id, NodeV { style_dirty: true, ..n });
            let d1 = DocV {
                nodes: kv_put(d.nodes, id, NodeV { style_dirty: true, ..n }),
                dirty: set_insert(d.dirty, id),
                ..d
            };
            lemma_wf_mark_list(d1, n.children, n.children.len(), (fuel - 1) as nat);
        }
    }
}

pub proof fn lemma_wf_mark_list(d: DocV, kids: Seq<NodeId>, k: nat, fuel: nat)
    requires
        doc_wf(d),
    ensures
        doc_wf(mark_list(d, kids, k, fuel)),
    decreases fuel, k,
{
    if k > 0 && k <= kids.len() {
        lemma_wf_mark_list(d, kids, (k - 1) as nat, fuel);
        lemma_wf_mark_rec(mark_list(d, kids, (k - 1) as nat, fuel), kids[k - 1], fuel);
    }
}

pub proof fn lemma_wf_mark_layout(d: DocV, cur: Option<NodeId>, fuel: nat)
    requires
        doc_wf(d),
    ensures
        doc_wf(mark_layout_up(d, cur, fuel)),
    decreases fuel,
{
    if fuel > 0 {
        if let Some(pid) = cur {
            if let Some(p) = node_of(d, pid) {
                if !p.layout_dirty {
                    lemma_wf_node(d, pid);
                    lemma_wf_put(d, pid, NodeV { layout_dirty: true, ..p });
                    lemma_wf_mark_layout(
                        with_node(d, pid, NodeV { layout_dirty: true, ..p }),
                        p.parent,
                        (fuel - 1) as nat,
                    );
                }
            }
        }
    }
}

pub proof fn lemma_wf_flush(d: DocV, res: Seq<(NodeId, bool)>)
    requires
        doc_wf(d),
    ensures
        doc_wf(flush_spec(d, res)),
{
    lemma_wf_record(d, res, res.len() as int);
    let (d1, parents) = record_results(d, res, res.len() as int);
    lemma_wf_spread(d1, parents, parents.len() as int);
}

pub proof fn lemma_wf_record(d: DocV, res: Seq<(NodeId, bool)>, k: int)
    requires
        doc_wf(d),
    ensures
        doc_wf(record_results(d, res, k).0),
    decreases k,
{
    if k > 0 && k <= res.len() {
        lemma_wf_record(d, res, k - 1);
        let d1 = record_results(d, res, k - 1).0;
        let (id, changed) = res[k - 1];
        if let Some(n) = node_of(d1, id) {
            lemma_wf_node(d1, id);
            if changed {
                lemma_wf_put(d1, id, NodeV { style_dirty: false, layout_dirty: true, paint_dirty: true, ..n });
            } else {
                lemma_wf_put(d1, id, NodeV { style_dirty: false, ..n });
            }
        }
    }
}

pub proof fn lemma_wf_spread(d: DocV, parents: Seq<NodeId>, k: int)
    requires
        doc_wf(d),
    ensures
        doc_wf(spread_layout(d, parents, k)),
    decreases k,
{
    if k > 0 && k <= parents.len() {
        lemma_wf_spread(d, parents, k - 1);
        let d1 = spread_layout(d, parents, k - 1);
        lemma_wf_mark_layout(d1, Some(parents[k - 1]), walk_fuel(d1));
    }
}


pub proof fn lemma_wf_add_classes(d: DocV, id: NodeId, cs: Seq<Seq<char>>, k: nat)
    requires
        doc_wf(d),
    ensures
        doc_wf(add_classes_spec(d, id, cs, k)),
        add_classes_spec(d, id, cs, k).next == d.next,
    decreases k,
{
    if k > 0 && k <= cs.len() {
        lemma_wf_add_classes(d, id, cs, (k - 1) as nat);
        lemma_wf_add_class(add_classes_spec(d, id, cs, (k - 1) as nat), id, cs[k - 1]);
    }
}

pub proof fn lemma_wf_set_attrs(d: DocV, id: NodeId, attrs: Seq<(Seq<char>, Seq<char>)>, k: nat)
    requires
        doc_wf(d),
    ensures
        doc_wf(set_attrs_spec(d, id, attrs, k)),
        set_attrs_spec(d, id, attrs, k).next == d.next,
    decreases k,
{
    if k > 0 && k <= attrs.len() {
        lemma_wf_set_attrs(d, id, attrs, (k - 1) as nat);
        let a = attrs[k - 1];
        lemma_wf_set_attribute(set_attrs_spec(d, id, attrs, (k - 1) as nat), id, a.0, a.1);
    }
}

pub proof fn lemma_wf_vdom_element(d: DocV, el: VElementVNode, parent: Option<NodeId>)
    requires
        doc_wf(d),
        d.next + 1 + vcount_list(el.childNodes@, el.childNodes@.len()) <= u64::MAX,
    ensures
        doc_wf(vdom_element(d, el, parent).0),
        vdom_element(d, el, parent).0.next == d.next + 1 + vcount_list(el.childNodes@, el.childNodes@.len()),
    decreases el, 1nat,
{
    let id = NodeId(d.next);
    let d1 = create_element_spec(d, el.tagName@);
    lemma_wf_add(d, element_v(id, el.tagName@));
    let d2 = match parent {
        Some(p) => link_spec(d1, p, id),
        None => d1,
    };
    if let Some(p) = parent {
        lemma_wf_link(d1, p, id);
    }
    let d3 = match el.id {
        Some(s) => set_attribute_spec(d2, id, "id"@, s@),
        None => d2,
    };
    if let Some(s) = el.id {
        lemma_wf_set_attribute(d2, id, "id"@, s@);
    }
    let d4 = add_classes_spec(d3, id, strings_view(el.classList@), el.classList@.len());
    lemma_wf_add_classes(d3, id, strings_view(el.classList@), el.classList@.len());
    let d5 = if el.style@.len() > 0 {
        set_attribute_spec(d4, id, "style"@, el.style@)
    } else {
        d4
    };
    if el.style@.len() > 0 {
        lemma_wf_set_attribute(d4, id, "style"@, el.style@);
    }
    let d6 = set_attrs_spec(d5, id, attr_entries_view(el.attrs@), el.attrs@.len());
    lemma_wf_set_attrs(d5, id, attr_entries_view(el.attrs@), el.attrs@.len());
    let d7 = match el.diffKey {
        Some(k) => set_attribute_spec(d6, id, "__diffKey"@, k@),
        None => d6,
    };
    if let Some(k) = el.diffKey {
        lemma_wf_set_attribute(d6, id, "__diffKey"@, k@);
    }
    assert(d7.next == d.next + 1);
    lemma_wf_vdom_list(d7, el.childNodes@, el.childNodes@.len(), id);
}

pub proof fn lemma_wf_vdom(d: DocV, v: VNode, parent: Option<NodeId>)
    requires
        doc_wf(d),
        d.next + vcount(v) <= u64::MAX,
    ensures
        doc_wf(vdom_spec(d, v, parent).0),
        vdom_spec(d, v, parent).0.next == d.next + vcount(v),
    decreases v, 2nat,
{
    match v {
        VNode::Element(el) => {
            lemma_wf_vdom_element(d, el, parent);
        },
        VNode::Text(t) => {
            let id = NodeId(d.next);
            lemma_wf_add(d, text_node_v(id, t@));
            if let Some(p) = parent {
                lemma_wf_link(create_text_spec(d, t@), p, id);
            }
        },
    }
}

pub proof fn lemma_wf_vdom_list(d: DocV, kids: Seq<VNode>, k: nat, parent: NodeId)
    requires
        doc_wf(d),
        d.next + vcount_list(kids, k) <= u64::MAX,
    ensures
        doc_wf(vdom_list(d, kids, k, parent)),
        vdom_list(d, kids, k, parent).next == d.next + vcount_list(kids, k),
    decreases kids, k,
{
    if k > 0 && k <= kids.len() {
        lemma_wf_vdom_list(d, kids, (k - 1) as nat, parent);
        lemma_wf_vdom(vdom_list(d, kids, (k - 1) as nat, parent), kids[k - 1], Some(parent));
    }
}


// ═══════════════════════ the depth bound of removal ═══════════════════════

/// Removal never adds a node.
pub proof fn lemma_remove_shrinks(d: DocV, id: NodeId, fuel: nat)
    ensures
        remove_rec(d, id, fuel).nodes.len() <= d.nodes.len(),
        node_of(d, id) is Some && fuel > 0 ==> remove_rec(d, id, fuel).nodes.len() < d.nodes.len(),
    decreases fuel, 0nat,
{
    if fuel > 0 {
        if let Some(n) = node_of(d, id) {
            lemma_kv_pos(d.nodes, id);
            let d1 = DocV {
                nodes: kv_drop(d.nodes, id),
                ids: match n.id {
                    Some(s) => kv_drop(d.ids, s),
                    None => d.ids,
                },
                classes: retain_classes(d.classes, n.classes, id, n.classes.len()),
                tags: match n.tag {
                    Some(t) => list_retain(d.tags, t, id),
                    None => d.tags,
                },
                dirty: without(d.dirty, id),
                ..d
            };
            lemma_remove_list_shrinks(d1, n.children, n.children.len(), (fuel - 1) as nat);
        }
    }
}

pub proof fn lemma_remove_list_shrinks(d: DocV, kids: Seq<NodeId>, k: nat, fuel: nat)
    ensures
        remove_list(d, kids, k, fuel).nodes.len() <= d.nodes.len(),
    decreases fuel, k,
{
    if k > 0 && k <= kids.len() {
        lemma_remove_list_shrinks(d, kids, (k - 1) as nat, fuel);
        lemma_remove_shrinks(remove_list(d, kids, (k - 1) as nat, fuel), kids[k - 1], fuel);
    }
}

/// With more levels allowed than there are nodes, removal does not depend
/// on how many more.
pub proof fn lemma_remove_fuel(d: DocV, id: NodeId, f1: nat, f2: nat)
    requires
        f1 > d.nodes.len(),
        f2 > d.nodes.len(),
    ensures
        remove_rec(d, id, f1) == remove_rec(d, id, f2),
    decreases f1 + f2, 0nat,
{
    if let Some(n) = node_of(d, id) {
        lemma_kv_pos(d.nodes, id);
        let d1 = DocV {
            nodes: kv_drop(d.nodes, id),
            ids: match n.id {
                Some(s) => kv_drop(d.ids, s),
                None => d.ids,
            },
            classes: retain_classes(d.classes, n.classes, id, n.classes.len()),
            tags: match n.tag {
                Some(t) => list_retain(d.tags, t, id),
                None => d.tags,
            },
            dirty: without(d.dirty, id),
            ..d
        };
        lemma_remove_list_fuel(d1, n.children, n.children.len(), (f1 - 1) as nat, (f2 - 1) as nat);
    }
}

pub proof fn lemma_remove_list_fuel(d: DocV, kids: Seq<NodeId>, k: nat, f1: nat, f2: nat)
    requires
        f1 > d.nodes.len(),
        f2 > d.nodes.len(),
    ensures
        remove_list(d, kids, k, f1) == remove_list(d, kids, k, f2),
    decreases f1 + f2, k,
{
    if k > 0 && k <= kids.len() {
        lemma_remove_list_fuel(d, kids, (k - 1) as nat, f1, f2);
        let r = remove_list(d, kids, (k - 1) as nat, f1);
        lemma_remove_list_shrinks(d, kids, (k - 1) as nat, f1);
        lemma_remove_fuel(r, kids[k - 1], f1, f2);
    }
}

} // verus!
