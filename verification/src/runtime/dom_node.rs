//! Live DOM nodes and the small keyed tables that a document keeps them in.
//!
//! Each table is a list of entries searched from the front, which gives
//! the lookups of a hash map (a key's value is the one of its first entry)
//! with a definite order of iteration: the order of insertion.
use vstd::prelude::*;

use super::node_id::NodeId;
use super::vnode::strings_view;
use crate::text::{eq_str, owned};
use crate::toolchain::html::attr_entries_view;

verus! {

// ═══════════════════════ keyed sequences ═══════════════════════

/// The position of the first entry of `s` with key `k`, or -1.
pub open spec fn kv_pos<K, V>(s: Seq<(K, V)>, k: K) -> int
    decreases s.len(),
{
    if s.len() == 0 {
        -1
    } else if s[0].0 == k {
        0
    } else {
        let p = kv_pos(s.drop_first(), k);
        if p < 0 {
            -1
        } else {
            p + 1
        }
    }
}

/// The value of the first entry with key `k`.
pub open spec fn kv_get<K, V>(s: Seq<(K, V)>, k: K) -> Option<V> {
    let p = kv_pos(s, k);
    if p < 0 {
        None
    } else {
        Some(s[p].1)
    }
}

/// `s` with `k` set to `v`: the first entry with key `k` replaced, or a new
/// entry at the end.
pub open spec fn kv_put<K, V>(s: Seq<(K, V)>, k: K, v: V) -> Seq<(K, V)> {
    let p = kv_pos(s, k);
    if p < 0 {
        s.push((k, v))
    } else {
        s.update(p, (k, v))
    }
}

/// `s` without the first entry with key `k`.
pub open spec fn kv_drop<K, V>(s: Seq<(K, V)>, k: K) -> Seq<(K, V)> {
    let p = kv_pos(s, k);
    if p < 0 {
        s
    } else {
        s.remove(p)
    }
}

/// Each key occurs once.
pub open spec fn kv_unique<K, V>(s: Seq<(K, V)>) -> bool {
    forall|i: int, j: int|
        0 <= i < s.len() && 0 <= j < s.len() && i != j ==> #[trigger] s[i].0 != #[trigger] s[j].0
}

pub proof fn lemma_kv_pos<K, V>(s: Seq<(K, V)>, k: K)
    ensures
        -1 <= kv_pos(s, k) < s.len(),
        kv_pos(s, k) >= 0 ==> s[kv_pos(s, k)].0 == k,
        forall|j: int|
            0 <= j < s.len() && (kv_pos(s, k) < 0 || j < kv_pos(s, k)) ==> #[trigger] s[j].0 != k,
    decreases s.len(),
{
    if s.len() > 0 && s[0].0 != k {
        lemma_kv_pos(s.drop_first(), k);
        assert forall|j: int|
            0 <= j < s.len() && (kv_pos(s, k) < 0 || j < kv_pos(s, k)) implies #[trigger] s[j].0
            != k by {
            if j > 0 {
                assert(s[j] == s.drop_first()[j - 1]);
            }
        }
    }
}

pub proof fn lemma_kv_pos_at<K, V>(s: Seq<(K, V)>, k: K, i: int)
    requires
        0 <= i < s.len(),
        s[i].0 == k,
        forall|j: int| 0 <= j < i ==> #[trigger] s[j].0 != k,
    ensures
        kv_pos(s, k) == i,
{
    lemma_kv_pos(s, k);
}

pub proof fn lemma_kv_pos_none<K, V>(s: Seq<(K, V)>, k: K)
    requires
        forall|j: int| 0 <= j < s.len() ==> #[trigger] s[j].0 != k,
    ensures
        kv_pos(s, k) == -1,
{
    lemma_kv_pos(s, k);
}

/// Two sequences with the same keys in the same places find every key at
/// the same place.
pub proof fn lemma_kv_pos_same_keys<K, V>(s: Seq<(K, V)>, t: Seq<(K, V)>, k: K)
    requires
        s.len() == t.len(),
        forall|j: int| 0 <= j < s.len() ==> #[trigger] s[j].0 == t[j].0,
    ensures
        kv_pos(s, k) == kv_pos(t, k),
{
    lemma_kv_pos(s, k);
    lemma_kv_pos(t, k);
    let p = kv_pos(s, k);
    if p >= 0 {
        assert(t[p].0 == k);
        assert forall|j: int| 0 <= j < p implies #[trigger] t[j].0 != k by {
            assert(s[j].0 != k);
        }
        lemma_kv_pos_at(t, k, p);
    } else {
        assert forall|j: int| 0 <= j < t.len() implies #[trigger] t[j].0 != k by {
            assert(s[j].0 != k);
        }
        lemma_kv_pos_none(t, k);
    }
}

/// What a lookup gives after a write: the written value under the written
/// key, and the old value under every other key.
pub proof fn lemma_kv_put_get<K, V>(s: Seq<(K, V)>, k: K, v: V, k2: K)
    ensures
        kv_get(kv_put(s, k, v), k2) == if k2 == k {
            Some(v)
        } else {
            kv_get(s, k2)
        },
{
    lemma_kv_pos(s, k);
    lemma_kv_pos(s, k2);
    let t = kv_put(s, k, v);
    let p = kv_pos(s, k);
    if p < 0 {
        if k2 == k {
            assert(t[s.len() as int].0 == k);
            assert forall|j: int| 0 <= j < s.len() implies #[trigger] t[j].0 != k by {
                assert(t[j] == s[j]);
            }
            lemma_kv_pos_at(t, k, s.len() as int);
        } else {
            let q = kv_pos(s, k2);
            if q >= 0 {
                assert(t[q] == s[q]);
                assert forall|j: int| 0 <= j < q implies #[trigger] t[j].0 != k2 by {
                    assert(t[j] == s[j]);
                }
                lemma_kv_pos_at(t, k2, q);
            } else {
                assert forall|j: int| 0 <= j < t.len() implies #[trigger] t[j].0 != k2 by {
                    if j < s.len() {
                        assert(t[j] == s[j]);
                    }
                }
                lemma_kv_pos_none(t, k2);
            }
        }
    } else {
        assert forall|j: int| 0 <= j < s.len() implies #[trigger] s[j].0 == t[j].0 by {}
        lemma_kv_pos_same_keys(s, t, k2);
    }
}

/// What a lookup gives after a removal: nothing under the removed key
/// when each key occurs once, and the old value under every other key.
pub proof fn lemma_kv_drop_get<K, V>(s: Seq<(K, V)>, k: K, k2: K)
    ensures
        k2 != k ==> kv_get(kv_drop(s, k), k2) == kv_get(s, k2),
        kv_unique(s) ==> kv_get(kv_drop(s, k), k) is None,
        kv_unique(s) ==> kv_unique(kv_drop(s, k)),
{
    lemma_kv_pos(s, k);
    lemma_kv_pos(s, k2);
    let p = kv_pos(s, k);
    let t = kv_drop(s, k);
    if p >= 0 {
        assert forall|j: int| 0 <= j < t.len() implies #[trigger] t[j] == if j < p {
            s[j]
        } else {
            s[j + 1]
        } by {}
        if k2 != k {
            let q = kv_pos(s, k2);
            if q >= 0 {
                assert(q != p);
                let q2 = if q < p {
                    q
                } else {
                    q - 1
                };
                assert(t[q2] == s[q]);
                assert forall|j: int| 0 <= j < q2 implies #[trigger] t[j].0 != k2 by {
                    if j >= p {
                        assert(t[j] == s[j + 1]);
                    }
                }
                lemma_kv_pos_at(t, k2, q2);
            } else {
                assert forall|j: int| 0 <= j < t.len() implies #[trigger] t[j].0 != k2 by {
                    if j >= p {
                        assert(t[j] == s[j + 1]);
                    }
                }
                lemma_kv_pos_none(t, k2);
            }
        }
        if kv_unique(s) {
            assert forall|j: int| 0 <= j < t.len() implies #[trigger] t[j].0 != k by {
                if j < p {
                    assert(s[j].0 != s[p].0);
                } else {
                    assert(s[j + 1].0 != s[p].0);
                }
            }
            lemma_kv_pos_none(t, k);
            assert forall|i: int, j: int|
                0 <= i < t.len() && 0 <= j < t.len() && i != j implies #[trigger] t[i].0
                != #[trigger] t[j].0 by {
                let i2 = if i < p {
                    i
                } else {
                    i + 1
                };
                let j2 = if j < p {
                    j
                } else {
                    j + 1
                };
                assert(t[i] == s[i2]);
                assert(t[j] == s[j2]);
            }
        }
    } else {
        if kv_unique(s) {
            lemma_kv_pos_none(s, k);
        }
    }
}

/// Writing the value a key already has changes nothing.
pub proof fn lemma_kv_put_same<K, V>(s: Seq<(K, V)>, k: K, v: V)
    requires
        kv_get(s, k) == Some(v),
    ensures
        kv_put(s, k, v) == s,
{
    lemma_kv_pos(s, k);
    assert(kv_put(s, k, v) =~= s);
}

/// Writing keeps each key once.
pub proof fn lemma_kv_put_unique<K, V>(s: Seq<(K, V)>, k: K, v: V)
    requires
        kv_unique(s),
    ensures
        kv_unique(kv_put(s, k, v)),
{
    lemma_kv_pos(s, k);
    let t = kv_put(s, k, v);
    assert forall|i: int, j: int|
        0 <= i < t.len() && 0 <= j < t.len() && i != j implies #[trigger] t[i].0 != #[trigger] t[j].0 by {
        if kv_pos(s, k) < 0 {
            if i < s.len() {
                assert(t[i] == s[i]);
            }
            if j < s.len() {
                assert(t[j] == s[j]);
            }
        }
    }
}

// ═══════════════════════ lists without an element ═══════════════════════

/// `s` with every occurrence of `x` taken out (`Vec::retain`).
pub open spec fn without(s: Seq<NodeId>, x: NodeId) -> Seq<NodeId>
    decreases s.len(),
{
    if s.len() == 0 {
        s
    } else {
        let w = without(s.drop_last(), x);
        if s.last() == x {
            w
        } else {
            w.push(s.last())
        }
    }
}

/// A copy of a list of identifiers.
pub fn copy_ids(v: &Vec<NodeId>) -> (r: Vec<NodeId>)
    ensures
        r@ == v@,
{
    let mut out: Vec<NodeId> = Vec::new();
    let mut i: usize = 0;
    while i < v.len()
        invariant
            i <= v@.len(),
            out@ == v@.take(i as int),
        decreases v@.len() - i,
    {
        out.push(v[i]);
        i += 1;
        assert(out@ =~= v@.take(i as int));
    }
    assert(v@.take(v@.len() as int) =~= v@);
    out
}

/// `s` with `x` added at the end unless it is there (`HashSet::insert`).
pub open spec fn set_insert(s: Seq<NodeId>, x: NodeId) -> Seq<NodeId> {
    if s.contains(x) {
        s
    } else {
        s.push(x)
    }
}

/// `v` without the occurrences of `x`.
pub fn without_exec(v: &Vec<NodeId>, x: NodeId) -> (r: Vec<NodeId>)
    ensures
        r@ == without(v@, x),
{
    let n = v.len();
    let mut out: Vec<NodeId> = Vec::new();
    let mut i: usize = 0;
    while i < n
        invariant
            i <= n == v@.len(),
            out@ == without(v@.take(i as int), x),
        decreases n - i,
    {
        assert(v@.take(i as int + 1).drop_last() =~= v@.take(i as int));
        if v[i] != x {
            out.push(v[i]);
        }
        i += 1;
    }
    assert(v@.take(n as int) =~= v@);
    out
}

// ═══════════════════════ nodes ═══════════════════════

/// What a node holds, as values.
pub struct NodeV {
    pub node_id: NodeId,
    pub parent: Option<NodeId>,
    pub children: Seq<NodeId>,
    /// The tag name as given; `None` for a text node.
    pub tag: Option<Seq<char>>,
    pub id: Option<Seq<char>>,
    pub classes: Seq<Seq<char>>,
    pub style: Seq<char>,
    pub attrs: Seq<(Seq<char>, Seq<char>)>,
    pub style_dirty: bool,
    pub layout_dirty: bool,
    pub paint_dirty: bool,
}

/// The characters of an optional string.
pub open spec fn opt_chars(o: Option<String>) -> Option<Seq<char>> {
    match o {
        Some(s) => Some(s@),
        None => None,
    }
}

/// A live DOM node. Its place in the tree is given by identifiers; the
/// document that holds it finds the nodes they name.
#[allow(non_snake_case)]
#[derive(Debug)]
pub struct DomNode {
    /// The node's own identifier.
    pub nodeId: NodeId,
    /// The parent's identifier.
    pub parentNode: Option<NodeId>,
    /// The children's identifiers, in order.
    pub childNodes: Vec<NodeId>,
    /// The tag name; `None` for a text node.
    pub tagName: Option<String>,
    /// The `id` attribute.
    pub id: Option<String>,
    /// The classes.
    pub classList: Vec<String>,
    /// The inline style, as written.
    pub style: String,
    /// The attributes, `(name, value)`; a text node keeps its text here.
    pub attrs: Vec<(String, String)>,
    /// Whether the node's style must be computed again.
    pub styleDirty: bool,
    /// Whether the node must be laid out again.
    pub layoutDirty: bool,
    /// Whether the node must be painted again.
    pub paintDirty: bool,
}

impl View for DomNode {
    type V = NodeV;

    open spec fn view(&self) -> NodeV {
        NodeV {
            node_id: self.nodeId,
            parent: self.parentNode,
            children: self.childNodes@,
            tag: opt_chars(self.tagName),
            id: opt_chars(self.id),
            classes: strings_view(self.classList@),
            style: self.style@,
            attrs: attr_entries_view(self.attrs@),
            style_dirty: self.styleDirty,
            layout_dirty: self.layoutDirty,
            paint_dirty: self.paintDirty,
        }
    }
}

/// A new element node: no parent, children, id, classes, style or
/// attributes, and every dirty flag set.
pub open spec fn element_v(id: NodeId, tag: Seq<char>) -> NodeV {
    NodeV {
        node_id: id,
        parent: None,
        children: seq![],
        tag: Some(tag),
        id: None,
        classes: seq![],
        style: seq![],
        attrs: seq![],
        style_dirty: true,
        layout_dirty: true,
        paint_dirty: true,
    }
}

/// A new text node: no tag, attributes or children, and no dirty flag set.
pub open spec fn text_v(id: NodeId) -> NodeV {
    NodeV {
        node_id: id,
        parent: None,
        children: seq![],
        tag: None,
        id: None,
        classes: seq![],
        style: seq![],
        attrs: seq![],
        style_dirty: false,
        layout_dirty: false,
        paint_dirty: false,
    }
}

/// The text of a node: the value of its first attribute.
pub open spec fn text_of(n: NodeV) -> Option<Seq<char>> {
    if n.attrs.len() > 0 {
        Some(n.attrs[0].1)
    } else {
        None
    }
}

impl DomNode {
    /// A new element node with the tag `tagName`.
    #[allow(non_snake_case)]
    pub fn new_element(nodeId: NodeId, tagName: String) -> (r: Self)
        ensures
            r@ == element_v(nodeId, tagName@),
    {
        let r = Self {
            nodeId,
            parentNode: None,
            childNodes: Vec::new(),
            tagName: Some(tagName),
            id: None,
            classList: Vec::new(),
            style: String::new(),
            attrs: Vec::new(),
            styleDirty: true,
            layoutDirty: true,
            paintDirty: true,
        };
        assert(r@.classes =~= seq![]);
        assert(r@.attrs =~= seq![]);
        r
    }

    /// A new text node.
    #[allow(non_snake_case)]
    pub fn new_text(nodeId: NodeId) -> (r: Self)
        ensures
            r@ == text_v(nodeId),
    {
        let r = Self {
            nodeId,
            parentNode: None,
            childNodes: Vec::new(),
            tagName: None,
            id: None,
            classList: Vec::new(),
            style: String::new(),
            attrs: Vec::new(),
            styleDirty: false,
            layoutDirty: false,
            paintDirty: false,
        };
        assert(r@.classes =~= seq![]);
        assert(r@.attrs =~= seq![]);
        r
    }

    /// Whether the node is an element.
    pub fn is_element(&self) -> (r: bool)
        ensures
            r == (self@.tag is Some),
    {
        self.tagName.is_some()
    }

    /// Whether the node is a text node.
    pub fn is_text(&self) -> (r: bool)
        ensures
            r == (self@.tag is None),
    {
        self.tagName.is_none()
    }

    /// The node's text: the value of its first attribute, where a text node
    /// keeps it.
    pub fn text_content(&self) -> (r: Option<&str>)
        ensures
            match r {
                Some(t) => text_of(self@) == Some(t@),
                None => text_of(self@) is None,
            },
    {
        if self.attrs.len() > 0 {
            Some(self.attrs[0].1.as_str())
        } else {
            None
        }
    }

    /// Sets the attribute `name` to `value`: the first attribute of that
    /// name gets the value, or a new one is added at the end.
    pub(crate) fn put_attr(&mut self, name: &str, value: &str)
        ensures
            final(self)@ == (NodeV { attrs: kv_put(old(self)@.attrs, name@, value@), ..old(self)@ }),
    {
        let ghost s = old(self)@.attrs;
        let n = self.attrs.len();
        let mut i: usize = 0;
        while i < n
            invariant
                i <= n == self.attrs@.len(),
                s == attr_entries_view(self.attrs@),
                *self == *old(self),
                forall|j: int| 0 <= j < i ==> #[trigger] s[j].0 != name@,
            decreases n - i,
        {
            if eq_str(self.attrs[i].0.as_str(), name) {
                proof {
                    lemma_kv_pos_at(s, name@, i as int);
                }
                self.attrs.set(i, (owned(name), owned(value)));
                assert(attr_entries_view(self.attrs@) =~= s.update(i as int, (name@, value@)));
                return;
            }
            i += 1;
        }
        proof {
            lemma_kv_pos_none(s, name@);
        }
        self.attrs.push((owned(name), owned(value)));
        assert(attr_entries_view(self.attrs@) =~= s.push((name@, value@)));
    }
}


/// A copy of a list of strings.
pub fn clone_strings(v: &Vec<String>) -> (r: Vec<String>)
    ensures
        strings_view(r@) == strings_view(v@),
{
    let mut out: Vec<String> = Vec::new();
    let mut i: usize = 0;
    while i < v.len()
        invariant
            i <= v@.len(),
            out@.len() == i,
            forall|j: int| 0 <= j < i ==> #[trigger] out@[j]@ == v@[j]@,
        decreases v@.len() - i,
    {
        out.push(owned(v[i].as_str()));
        i += 1;
    }
    assert(strings_view(out@) =~= strings_view(v@));
    out
}

// ═══════════════════════ tables ═══════════════════════

/// The value of `s[i]` as a pair of views.
pub open spec fn table_view(e: Seq<(NodeId, DomNode)>) -> Seq<(NodeId, NodeV)> {
    e.map_values(|x: (NodeId, DomNode)| (x.0, x.1@))
}

/// The nodes of a document, by identifier, in the order they were added.
#[derive(Debug)]
pub struct NodeTable {
    entries: Vec<(NodeId, DomNode)>,
}

impl View for NodeTable {
    type V = Seq<(NodeId, NodeV)>;

    closed spec fn view(&self) -> Seq<(NodeId, NodeV)> {
        table_view(self.entries@)
    }
}

impl NodeTable {
    /// An empty table.
    pub fn new() -> (r: Self)
        ensures
            r@ == Seq::<(NodeId, NodeV)>::empty(),
    {
        let r = Self { entries: Vec::new() };
        assert(r@ =~= Seq::<(NodeId, NodeV)>::empty());
        r
    }

    /// The number of nodes.
    pub fn len(&self) -> (r: usize)
        ensures
            r == self@.len(),
    {
        self.entries.len()
    }

    /// The place of the node `id`.
    pub fn position(&self, id: NodeId) -> (r: Option<usize>)
        ensures
            match r {
                Some(i) => kv_pos(self@, id) == i && i < self@.len(),
                None => kv_pos(self@, id) < 0,
            },
    {
        let n = self.entries.len();
        let mut i: usize = 0;
        while i < n
            invariant
                i <= n == self@.len() == self.entries@.len(),
                forall|j: int| 0 <= j < i ==> #[trigger] self@[j].0 != id,
            decreases n - i,
        {
            assert(self@[i as int].0 == self.entries@[i as int].0);
            if self.entries[i].0 == id {
                proof {
                    lemma_kv_pos_at(self@, id, i as int);
                }
                return Some(i);
            }
            i += 1;
        }
        proof {
            lemma_kv_pos_none(self@, id);
        }
        None
    }

    /// The identifier at place `i`.
    pub fn key_at(&self, i: usize) -> (r: NodeId)
        requires
            i < self@.len(),
        ensures
            r == self@[i as int].0,
    {
        self.entries[i].0
    }

    /// The node at place `i`.
    pub fn node_at(&self, i: usize) -> (r: &DomNode)
        requires
            i < self@.len(),
        ensures
            r@ == self@[i as int].1,
    {
        &self.entries[i].1
    }

    /// The node `id`.
    pub fn get(&self, id: &NodeId) -> (r: Option<&DomNode>)
        ensures
            match r {
                Some(n) => kv_get(self@, *id) == Some(n@),
                None => kv_get(self@, *id) is None,
            },
    {
        match self.position(*id) {
            Some(i) => Some(&self.entries[i].1),
            None => None,
        }
    }

    /// Whether the table holds the node `id`.
    pub fn contains_key(&self, id: &NodeId) -> (r: bool)
        ensures
            r == kv_get(self@, *id) is Some,
    {
        self.position(*id).is_some()
    }

    /// Puts `node` under `id`, in place of the node there if any.
    pub fn insert(&mut self, id: NodeId, node: DomNode)
        ensures
            final(self)@ == kv_put(old(self)@, id, node@),
    {
        let ghost v = node@;
        match self.position(id) {
            Some(i) => {
                self.entries.set(i, (id, node));
                assert(self@ =~= old(self)@.update(i as int, (id, v)));
            },
            None => {
                self.entries.push((id, node));
                assert(self@ =~= old(self)@.push((id, v)));
            },
        }
    }

    /// Takes the node `id` out of the table.
    pub fn remove(&mut self, id: &NodeId) -> (r: Option<DomNode>)
        ensures
            final(self)@ == kv_drop(old(self)@, *id),
            match r {
                Some(n) => kv_get(old(self)@, *id) == Some(n@),
                None => kv_get(old(self)@, *id) is None,
            },
    {
        match self.position(*id) {
            Some(i) => {
                let e = self.entries.remove(i);
                assert(self@ =~= old(self)@.remove(i as int));
                Some(e.1)
            },
            None => None,
        }
    }

    /// The node `id`, to change in place.
    pub fn get_mut(&mut self, id: &NodeId) -> (r: Option<&mut DomNode>)
        ensures
            match kv_get(old(self)@, *id) {
                None => r is None && final(self)@ == old(self)@,
                Some(v) => r is Some && (*r->0)@ == v && final(self)@ == kv_put(
                    old(self)@,
                    *id,
                    (*final(r->0))@,
                ),
            },
    {
        match self.position(*id) {
            Some(i) => {
                proof {
                    lemma_kv_pos(self@, *id);
                }
                Some(&mut self.entries[i].1)
            },
            None => None,
        }
    }
}

/// A map from strings to nodes (`id` attribute to node).
#[derive(Debug)]
pub struct IdIndex {
    entries: Vec<(String, NodeId)>,
}

impl View for IdIndex {
    type V = Seq<(Seq<char>, NodeId)>;

    closed spec fn view(&self) -> Seq<(Seq<char>, NodeId)> {
        self.entries@.map_values(|x: (String, NodeId)| (x.0@, x.1))
    }
}

impl IdIndex {
    /// An empty map.
    pub fn new() -> (r: Self)
        ensures
            r@ == Seq::<(Seq<char>, NodeId)>::empty(),
    {
        let r = Self { entries: Vec::new() };
        assert(r@ =~= Seq::<(Seq<char>, NodeId)>::empty());
        r
    }

    fn position(&self, k: &str) -> (r: Option<usize>)
        ensures
            match r {
                Some(i) => kv_pos(self@, k@) == i && i < self@.len(),
                None => kv_pos(self@, k@) < 0,
            },
    {
        let n = self.entries.len();
        let mut i: usize = 0;
        while i < n
            invariant
                i <= n == self@.len() == self.entries@.len(),
                forall|j: int| 0 <= j < i ==> #[trigger] self@[j].0 != k@,
            decreases n - i,
        {
            assert(self@[i as int].0 == self.entries@[i as int].0@);
            if eq_str(self.entries[i].0.as_str(), k) {
                proof {
                    lemma_kv_pos_at(self@, k@, i as int);
                }
                return Some(i);
            }
            i += 1;
        }
        proof {
            lemma_kv_pos_none(self@, k@);
        }
        None
    }

    /// The node under `k`.
    pub fn get(&self, k: &str) -> (r: Option<NodeId>)
        ensures
            r == kv_get(self@, k@),
    {
        match self.position(k) {
            Some(i) => Some(self.entries[i].1),
            None => None,
        }
    }

    /// Puts `id` under `k`.
    pub fn insert(&mut self, k: &str, id: NodeId)
        ensures
            final(self)@ == kv_put(old(self)@, k@, id),
    {
        match self.position(k) {
            Some(i) => {
                self.entries.set(i, (owned(k), id));
                assert(self@ =~= old(self)@.update(i as int, (k@, id)));
            },
            None => {
                self.entries.push((owned(k), id));
                assert(self@ =~= old(self)@.push((k@, id)));
            },
        }
    }

    /// Takes `k` out of the map.
    pub fn remove(&mut self, k: &str)
        ensures
            final(self)@ == kv_drop(old(self)@, k@),
    {
        if let Some(i) = self.position(k) {
            self.entries.remove(i);
            assert(self@ =~= old(self)@.remove(i as int));
        }
    }
}

/// `s` with `id` added at the end of the list under `k` (a new list when
/// there is none).
pub open spec fn list_push(s: Seq<(Seq<char>, Seq<NodeId>)>, k: Seq<char>, id: NodeId) -> Seq<
    (Seq<char>, Seq<NodeId>),
> {
    kv_put(
        s,
        k,
        match kv_get(s, k) {
            Some(l) => l.push(id),
            None => seq![id],
        },
    )
}

/// `s` with `id` taken out of the list under `k`.
pub open spec fn list_retain(s: Seq<(Seq<char>, Seq<NodeId>)>, k: Seq<char>, id: NodeId) -> Seq<
    (Seq<char>, Seq<NodeId>),
> {
    match kv_get(s, k) {
        Some(l) => kv_put(s, k, without(l, id)),
        None => s,
    }
}

/// The list under `k`, or an empty one.
pub open spec fn list_of(s: Seq<(Seq<char>, Seq<NodeId>)>, k: Seq<char>) -> Seq<NodeId> {
    match kv_get(s, k) {
        Some(l) => l,
        None => seq![],
    }
}

/// A map from strings to lists of nodes (class or tag to nodes).
#[derive(Debug)]
pub struct ListIndex {
    entries: Vec<(String, Vec<NodeId>)>,
}

impl View for ListIndex {
    type V = Seq<(Seq<char>, Seq<NodeId>)>;

    closed spec fn view(&self) -> Seq<(Seq<char>, Seq<NodeId>)> {
        self.entries@.map_values(|x: (String, Vec<NodeId>)| (x.0@, x.1@))
    }
}

impl ListIndex {
    /// An empty map.
    pub fn new() -> (r: Self)
        ensures
            r@ == Seq::<(Seq<char>, Seq<NodeId>)>::empty(),
    {
        let r = Self { entries: Vec::new() };
        assert(r@ =~= Seq::<(Seq<char>, Seq<NodeId>)>::empty());
        r
    }

    fn position(&self, k: &str) -> (r: Option<usize>)
        ensures
            match r {
                Some(i) => kv_pos(self@, k@) == i && i < self@.len(),
                None => kv_pos(self@, k@) < 0,
            },
    {
        let n = self.entries.len();
        let mut i: usize = 0;
        while i < n
            invariant
                i <= n == self@.len() == self.entries@.len(),
                forall|j: int| 0 <= j < i ==> #[trigger] self@[j].0 != k@,
            decreases n - i,
        {
            assert(self@[i as int].0 == self.entries@[i as int].0@);
            if eq_str(self.entries[i].0.as_str(), k) {
                proof {
                    lemma_kv_pos_at(self@, k@, i as int);
                }
                return Some(i);
            }
            i += 1;
        }
        proof {
            lemma_kv_pos_none(self@, k@);
        }
        None
    }

    /// The list under `k`.
    pub fn get(&self, k: &str) -> (r: Option<&Vec<NodeId>>)
        ensures
            match r {
                Some(l) => kv_get(self@, k@) == Some(l@),
                None => kv_get(self@, k@) is None,
            },
    {
        match self.position(k) {
            Some(i) => Some(&self.entries[i].1),
            None => None,
        }
    }

    /// Whether there is a list under `k`.
    pub fn contains_key(&self, k: &str) -> (r: bool)
        ensures
            r == kv_get(self@, k@) is Some,
    {
        self.position(k).is_some()
    }

    /// A copy of the list under `k`, or an empty list.
    pub fn list(&self, k: &str) -> (r: Vec<NodeId>)
        ensures
            r@ == list_of(self@, k@),
    {
        match self.position(k) {
            Some(i) => {
                let l = &self.entries[i].1;
                let mut out: Vec<NodeId> = Vec::new();
                let mut j: usize = 0;
                while j < l.len()
                    invariant
                        j <= l@.len(),
                        out@ == l@.take(j as int),
                    decreases l@.len() - j,
                {
                    out.push(l[j]);
                    j += 1;
                    assert(out@ =~= l@.take(j as int));
                }
                assert(l@.take(l@.len() as int) =~= l@);
                out
            },
            None => Vec::new(),
        }
    }

    /// Adds `id` at the end of the list under `k`.
    pub fn push(&mut self, k: &str, id: NodeId)
        ensures
            final(self)@ == list_push(old(self)@, k@, id),
    {
        match self.position(k) {
            Some(i) => {
                let ghost l = self.entries@[i as int].1@;
                proof {
                    lemma_kv_pos(self@, k@);
                    assert(self.entries@[i as int].0@ == k@);
                }
                self.entries[i].1.push(id);
                assert(self@ =~= old(self)@.update(i as int, (k@, l.push(id))));
            },
            None => {
                let mut l: Vec<NodeId> = Vec::new();
                l.push(id);
                self.entries.push((owned(k), l));
                assert(self@ =~= old(self)@.push((k@, seq![id])));
            },
        }
    }

    /// Takes `id` out of the list under `k`.
    pub fn retain_not(&mut self, k: &str, id: NodeId)
        ensures
            final(self)@ == list_retain(old(self)@, k@, id),
    {
        if let Some(i) = self.position(k) {
            let nl = without_exec(&self.entries[i].1, id);
            let ghost w = nl@;
            self.entries.set(i, (owned(k), nl));
            assert(self@ =~= old(self)@.update(i as int, (k@, w)));
        }
    }
}

/// A set of nodes, in the order they were added.
#[derive(Debug)]
pub struct NodeSet {
    items: Vec<NodeId>,
}

impl View for NodeSet {
    type V = Seq<NodeId>;

    closed spec fn view(&self) -> Seq<NodeId> {
        self.items@
    }
}

impl NodeSet {
    /// An empty set.
    pub fn new() -> (r: Self)
        ensures
            r@ == Seq::<NodeId>::empty(),
    {
        Self { items: Vec::new() }
    }

    /// The number of nodes in the set.
    pub fn len(&self) -> (r: usize)
        ensures
            r == self@.len(),
    {
        self.items.len()
    }

    /// Whether `id` is in the set.
    pub fn contains(&self, id: &NodeId) -> (r: bool)
        ensures
            r == self@.contains(*id),
    {
        let n = self.items.len();
        let mut i: usize = 0;
        while i < n
            invariant
                i <= n == self@.len(),
                forall|j: int| 0 <= j < i ==> self@[j] != *id,
            decreases n - i,
        {
            if self.items[i] == *id {
                assert(self@[i as int] == *id);
                return true;
            }
            i += 1;
        }
        false
    }

    /// Adds `id` unless it is in the set.
    pub fn insert(&mut self, id: NodeId)
        ensures
            final(self)@ == set_insert(old(self)@, id),
    {
        if !self.contains(&id) {
            self.items.push(id);
        }
    }

    /// Takes `id` out of the set.
    pub fn remove(&mut self, id: &NodeId)
        ensures
            final(self)@ == without(old(self)@, *id),
    {
        self.items = without_exec(&self.items, *id);
    }

    /// The nodes of the set, in the order they were added.
    pub fn to_vec(&self) -> (r: Vec<NodeId>)
        ensures
            r@ == self@,
    {
        copy_ids(&self.items)
    }

    /// Empties the set.
    pub fn clear(&mut self)
        ensures
            final(self)@ == Seq::<NodeId>::empty(),
    {
        self.items = Vec::new();
    }
}

} // verus!
