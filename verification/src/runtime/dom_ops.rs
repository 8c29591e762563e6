//! Operations and searches started from a node (`element.appendChild`,
//! `element.querySelector`, ...), each taking the document it lives in.
use vstd::prelude::*;

use super::dom_node::{kv_get, NodeV};
use super::node_id::{Event, NodeId};
use super::registry::{
    get_attribute_spec, insert_before_spec, link_spec, qs_rec, qsa_rec, remove_child_spec,
    set_attribute_spec, set_text_spec, text_rec, walk_fuel, DomRegistry,
};
use crate::text::{chars_of, eq_chars, has_string, lowercase, lowercase_of, owned, string_of, strs};

verus! {

// ═══════════════════════ searches below a node ═══════════════════════

/// What a search below a node looks for.
pub enum Probe {
    /// An element with this `id`.
    Id(Seq<char>),
    /// An element with this class.
    Class(Seq<char>),
    /// A node with this tag, as given.
    Tag(Seq<char>),
}

/// Whether a node is what the search looks for.
pub open spec fn probe_holds(n: NodeV, p: Probe) -> bool {
    match p {
        Probe::Id(x) => n.id == Some(x) && n.tag is Some,
        Probe::Class(c) => n.tag is Some && n.classes.contains(c),
        Probe::Tag(t) => n.tag == Some(t),
    }
}

/// The first node in document order, from `id` down at most `fuel`
/// levels, that the search looks for.
pub open spec fn find_rec(nodes: Seq<(NodeId, NodeV)>, id: NodeId, p: Probe, fuel: nat) -> Option<NodeId>
    decreases fuel, 0int,
{
    if fuel == 0 {
        None
    } else {
        match kv_get(nodes, id) {
            None => None,
            Some(n) => if probe_holds(n, p) {
                Some(id)
            } else {
                find_from(nodes, n.children, 0, p, (fuel - 1) as nat)
            },
        }
    }
}

/// The first found below the children `kids[i..]`, in order.
pub open spec fn find_from(nodes: Seq<(NodeId, NodeV)>, kids: Seq<NodeId>, i: int, p: Probe, fuel: nat) -> Option<
    NodeId,
>
    decreases fuel, kids.len() - i,
{
    if i < 0 || i >= kids.len() {
        None
    } else {
        match find_rec(nodes, kids[i], p, fuel) {
            Some(x) => Some(x),
            None => find_from(nodes, kids, i + 1, p, fuel),
        }
    }
}

/// Every node in document order, from `id` down at most `fuel` levels,
/// that the search looks for.
pub open spec fn collect_rec(nodes: Seq<(NodeId, NodeV)>, id: NodeId, p: Probe, fuel: nat) -> Seq<NodeId>
    decreases fuel, 0nat,
{
    if fuel == 0 {
        seq![]
    } else {
        match kv_get(nodes, id) {
            None => seq![],
            Some(n) => (if probe_holds(n, p) {
                seq![id]
            } else {
                seq![]
            }) + collect_list(nodes, n.children, n.children.len(), p, (fuel - 1) as nat),
        }
    }
}

/// What is found below the first `k` nodes of `kids`.
pub open spec fn collect_list(nodes: Seq<(NodeId, NodeV)>, kids: Seq<NodeId>, k: nat, p: Probe, fuel: nat) -> Seq<
    NodeId,
>
    decreases fuel, k,
{
    if k == 0 || k > kids.len() {
        seq![]
    } else {
        collect_list(nodes, kids, (k - 1) as nat, p, fuel) + collect_rec(nodes, kids[k - 1], p, fuel)
    }
}

/// The kind of a search, with its text held apart.
#[derive(Clone, Copy)]
pub enum ProbeKind {
    Id,
    Class,
    Tag,
}

pub open spec fn probe_of(k: ProbeKind, s: Seq<char>) -> Probe {
    match k {
        ProbeKind::Id => Probe::Id(s),
        ProbeKind::Class => Probe::Class(s),
        ProbeKind::Tag => Probe::Tag(s),
    }
}

fn probe_match(node: &super::dom_node::DomNode, k: ProbeKind, s: &Vec<char>) -> (r: bool)
    ensures
        r == probe_holds(node@, probe_of(k, s@)),
{
    match k {
        ProbeKind::Id => match &node.id {
            Some(x) => eq_chars(&chars_of(x.as_str()), s) && node.is_element(),
            None => false,
        },
        ProbeKind::Class => {
            assert(strs(node.classList@) =~= node@.classes);
            node.is_element() && has_string(node.classList.as_slice(), s)
        },
        ProbeKind::Tag => match &node.tagName {
            Some(x) => eq_chars(&chars_of(x.as_str()), s),
            None => false,
        },
    }
}

fn find_exec(doc: &DomRegistry, id: NodeId, k: ProbeKind, s: &Vec<char>, fuel: u128) -> (r: Option<NodeId>)
    ensures
        r == find_rec(doc@.nodes, id, probe_of(k, s@), fuel as nat),
    decreases fuel,
{
    if fuel == 0 {
        return None;
    }
    let node = match doc.allNodes.get(&id) {
        Some(n) => n,
        None => {
            return None;
        },
    };
    if probe_match(node, k, s) {
        return Some(id);
    }
    let ghost n = node@;
    let ghost p = probe_of(k, s@);
    let kids = &node.childNodes;
    let mut j: usize = 0;
    while j < kids.len()
        invariant
            0 < fuel,
            j <= kids@.len(),
            kids@ == n.children,
            p == probe_of(k, s@),
            !probe_holds(n, p),
            kv_get(doc@.nodes, id) == Some(n),
            find_from(doc@.nodes, n.children, 0, p, (fuel - 1) as nat) == find_from(
                doc@.nodes,
                n.children,
                j as int,
                p,
                (fuel - 1) as nat,
            ),
        decreases kids@.len() - j,
    {
        let found = find_exec(doc, kids[j], k, s, fuel - 1);
        if found.is_some() {
            return found;
        }
        j += 1;
    }
    None
}

fn collect_exec(doc: &DomRegistry, id: NodeId, k: ProbeKind, s: &Vec<char>, results: &mut Vec<NodeId>, fuel: u128)
    ensures
        final(results)@ == old(results)@ + collect_rec(doc@.nodes, id, probe_of(k, s@), fuel as nat),
    decreases fuel,
{
    if fuel == 0 {
        assert(old(results)@ + seq![] =~= old(results)@);
        return;
    }
    let node = match doc.allNodes.get(&id) {
        Some(n) => n,
        None => {
            assert(old(results)@ + seq![] =~= old(results)@);
            return;
        },
    };
    let ghost n = node@;
    let ghost p = probe_of(k, s@);
    if probe_match(node, k, s) {
        results.push(id);
    }
    let ghost r1 = results@;
    assert(r1 =~= old(results)@ + (if probe_holds(n, p) {
        seq![id]
    } else {
        seq![]
    }));
    let kids = &node.childNodes;
    let mut j: usize = 0;
    while j < kids.len()
        invariant
            0 < fuel,
            j <= kids@.len(),
            kids@ == n.children,
            p == probe_of(k, s@),
            results@ == r1 + collect_list(doc@.nodes, n.children, j as nat, p, (fuel - 1) as nat),
        decreases kids@.len() - j,
    {
        proof {
            if j == 0 {
                assert(r1 + seq![] =~= r1);
            }
        }
        collect_exec(doc, kids[j], k, s, results, fuel - 1);
        j += 1;
        assert(results@ =~= r1 + collect_list(doc@.nodes, n.children, j as nat, p, (fuel - 1) as nat));
    }
    proof {
        if kids@.len() == 0 {
            assert(r1 + seq![] =~= r1);
        }
    }
    assert(results@ =~= old(results)@ + collect_rec(doc@.nodes, id, p, fuel as nat));
}

/// Selector queries and searches below a node.
pub trait DomQuery {
    /// `element.querySelector(selector)`.
    fn querySelector(self, document: &DomRegistry, selector: &str) -> Option<NodeId>;

    /// `element.querySelectorAll(selector)`.
    fn querySelectorAll(self, document: &DomRegistry, selector: &str) -> Vec<NodeId>;

    /// The first element below (or at) the node with this `id`.
    fn getElementById(self, document: &DomRegistry, id: &str) -> Option<NodeId>;

    /// `element.getElementsByClassName(class)`.
    fn getElementsByClassName(self, document: &DomRegistry, class: &str) -> Vec<NodeId>;

    /// `element.getElementsByTagName(tag)`, the tag taken in lower case.
    fn getElementsByTagName(self, document: &DomRegistry, tag: &str) -> Vec<NodeId>;
}

impl DomQuery for NodeId {
    /// The first node in document order, this one first, that matches a
    /// simple selector.
    fn querySelector(self, document: &DomRegistry, selector: &str) -> (r: Option<NodeId>)
        ensures
            r == qs_rec(document@.nodes, self, selector@, walk_fuel(document@)),
    {
        document.querySelector_from(self, selector)
    }

    /// Every node in document order, this one first, that matches a simple
    /// selector.
    fn querySelectorAll(self, document: &DomRegistry, selector: &str) -> (r: Vec<NodeId>)
        ensures
            r@ == qsa_rec(document@.nodes, self, selector@, walk_fuel(document@)),
    {
        let mut results: Vec<NodeId> = Vec::new();
        document.querySelectorAll_from(self, selector, &mut results);
        assert(results@ =~= qsa_rec(document@.nodes, self, selector@, walk_fuel(document@)));
        results
    }

    /// The first element in document order, this node first, whose `id`
    /// is `id`.
    fn getElementById(self, document: &DomRegistry, id: &str) -> (r: Option<NodeId>)
        ensures
            r == find_rec(document@.nodes, self, Probe::Id(id@), walk_fuel(document@)),
    {
        let s = chars_of(id);
        let f = document.allNodes.len() as u128 + 1;
        find_exec(document, self, ProbeKind::Id, &s, f)
    }

    /// Every element in document order, this node first, with the class.
    fn getElementsByClassName(self, document: &DomRegistry, class: &str) -> (r: Vec<NodeId>)
        ensures
            r@ == collect_rec(document@.nodes, self, Probe::Class(class@), walk_fuel(document@)),
    {
        let s = chars_of(class);
        let f = document.allNodes.len() as u128 + 1;
        let mut results: Vec<NodeId> = Vec::new();
        collect_exec(document, self, ProbeKind::Class, &s, &mut results, f);
        assert(results@ =~= collect_rec(document@.nodes, self, Probe::Class(class@), walk_fuel(document@)));
        results
    }

    /// Every node in document order, this node first, whose tag is `tag`
    /// in lower case.
    fn getElementsByTagName(self, document: &DomRegistry, tag: &str) -> (r: Vec<NodeId>)
        ensures
            r@ == collect_rec(
                document@.nodes,
                self,
                Probe::Tag(lowercase_of(tag@)),
                walk_fuel(document@),
            ),
    {
        let s = lowercase(&chars_of(tag));
        let f = document.allNodes.len() as u128 + 1;
        let mut results: Vec<NodeId> = Vec::new();
        collect_exec(document, self, ProbeKind::Tag, &s, &mut results, f);
        assert(results@ =~= collect_rec(
            document@.nodes,
            self,
            Probe::Tag(lowercase_of(tag@)),
            walk_fuel(document@),
        ));
        results
    }
}

// ═══════════════════════ operations on a node ═══════════════════════

/// `prop: value; ` put in front of an inline style.
pub open spec fn style_with(name: Seq<char>, value: Seq<char>, existing: Seq<char>) -> Seq<char> {
    name + seq![':', ' '] + value + seq![';', ' '] + existing
}

/// Tree operations on a node, each on the document it lives in.
pub trait DomNodeOps {
    /// `element.appendChild(child)`.
    fn appendChild(self, document: &mut DomRegistry, child: NodeId);

    /// `element.removeChild(child)`.
    fn removeChild(self, document: &mut DomRegistry, child: NodeId);

    /// `element.insertBefore(newChild, refChild)`.
    fn insertBefore(self, document: &mut DomRegistry, newChild: NodeId, refChild: NodeId);

    /// `element.setAttribute(name, value)`.
    fn setAttribute(self, document: &mut DomRegistry, name: &str, value: &str);

    /// `element.getAttribute(name)`, copied.
    fn getAttribute(self, document: &DomRegistry, name: &str) -> Option<String>;

    /// `element.textContent = text`.
    fn setTextContent(self, document: &mut DomRegistry, text: &str)
        requires
            old(document).nextId < u64::MAX,
    ;

    /// `element.textContent`.
    fn getTextContent(self, document: &DomRegistry) -> String;

    /// `element.addEventListener(type, handler)`: accepted and not kept, as
    /// the document has no event dispatch.
    fn addEventListener<F>(self, document: &DomRegistry, eventType: &str, handler: F) where
        F: FnMut(&Event) + 'static;

    /// `element.style.setProperty(name, value)`: `name: value; ` put in
    /// front of the inline style.
    fn setStyleProperty(self, document: &mut DomRegistry, name: &str, value: &str);
}

impl DomNodeOps for NodeId {
    fn appendChild(self, document: &mut DomRegistry, child: NodeId)
        ensures
            final(document)@ == link_spec(old(document)@, self, child),
    {
        document.appendChild(self, child);
    }

    fn removeChild(self, document: &mut DomRegistry, child: NodeId)
        ensures
            final(document)@ == remove_child_spec(old(document)@, self, child),
    {
        document.removeChild(self, child);
    }

    fn insertBefore(self, document: &mut DomRegistry, newChild: NodeId, refChild: NodeId)
        ensures
            final(document)@ == insert_before_spec(old(document)@, self, newChild, refChild),
    {
        document.insertBefore(self, newChild, refChild);
    }

    fn setAttribute(self, document: &mut DomRegistry, name: &str, value: &str)
        ensures
            final(document)@ == set_attribute_spec(old(document)@, self, name@, value@),
    {
        document.setAttribute(self, name, value);
    }

    fn getAttribute(self, document: &DomRegistry, name: &str) -> (r: Option<String>)
        ensures
            match r {
                Some(v) => get_attribute_spec(document@, self, name@) == Some(v@),
                None => get_attribute_spec(document@, self, name@) is None,
            },
    {
        match document.getAttribute(self, name) {
            Some(v) => Some(owned(v)),
            None => None,
        }
    }

    fn setTextContent(self, document: &mut DomRegistry, text: &str)
        ensures
            final(document)@ == set_text_spec(old(document)@, self, text@),
    {
        document.setTextContent(self, text);
    }

    fn getTextContent(self, document: &DomRegistry) -> (r: String)
        ensures
            r@ == text_rec(document@.nodes, self, walk_fuel(document@)),
    {
        document.getTextContent(self)
    }

    fn addEventListener<F>(self, document: &DomRegistry, eventType: &str, handler: F) where
        F: FnMut(&Event) + 'static,
     {
    }

    fn setStyleProperty(self, document: &mut DomRegistry, name: &str, value: &str)
        ensures
            final(document)@ == set_attribute_spec(
                old(document)@,
                self,
                "style"@,
                style_with(
                    name@,
                    value@,
                    match get_attribute_spec(old(document)@, self, "style"@) {
                        Some(s) => s,
                        None => seq![],
                    },
                ),
            ),
    {
        let existing: Vec<char> = match document.getAttribute(self, "style") {
            Some(v) => chars_of(v),
            None => Vec::new(),
        };
        let mut s: Vec<char> = chars_of(name);
        crate::text::push_lit(&mut s, ": ");
        crate::text::push_all(&mut s, &chars_of(value));
        crate::text::push_lit(&mut s, "; ");
        crate::text::push_all(&mut s, &existing);
        proof {
            reveal_strlit(": ");
            reveal_strlit("; ");
            assert(": "@ =~= seq![':', ' ']);
            assert("; "@ =~= seq![';', ' ']);
            assert(s@ =~= style_with(name@, value@, existing@));
        }
        let new_style = string_of(&s);
        document.setAttribute(self, "style", new_style.as_str());
    }
}

} // verus!
