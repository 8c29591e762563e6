//! How deep the walks below a node go: in a document where no node lies
//! below itself, every chain of child links is shorter than the number of
//! nodes, so the depth bound of the walks is never what stops them.
use vstd::prelude::*;

use super::dom_node::{kv_get, kv_pos, lemma_kv_pos, NodeV};
use super::node_id::NodeId;
use super::dom_node::{kv_put, lemma_kv_put_get, set_insert};
use super::dom_ops::{collect_list, collect_rec, find_from, find_rec, probe_holds, Probe};
use super::node_match::{has_desc, has_from};
use super::selector_match::ComplexV;
use super::registry::{
    elem_matches, mark_layout_up, mark_list, mark_rec, node_of, qs_from, qs_rec, qsa_list, qsa_rec,
    text_list, text_rec, with_node, DocV,
};

verus! {

/// `c` is a chain of nodes of the document, each a child of the one
/// before it.
pub open spec fn is_chain(nodes: Seq<(NodeId, NodeV)>, c: Seq<NodeId>) -> bool {
    &&& forall|i: int| 0 <= i < c.len() ==> #[trigger] kv_get(nodes, c[i]) is Some
    &&& forall|i: int|
        0 <= i < c.len() - 1 ==> kv_get(nodes, #[trigger] c[i])->0.children.contains(c[i + 1])
}

/// No node of the document lies below itself: no chain of child links
/// leads from a node back to it.
pub open spec fn acyclic(nodes: Seq<(NodeId, NodeV)>) -> bool {
    forall|c: Seq<NodeId>| #[trigger] is_chain(nodes, c) && c.len() >= 2 ==> c[0] != c.last()
}

/// Every chain of child links from `id` has fewer than `k` nodes.
pub open spec fn depth_below(nodes: Seq<(NodeId, NodeV)>, id: NodeId, k: nat) -> bool
    decreases k,
{
    if k == 0 {
        false
    } else {
        match kv_get(nodes, id) {
            None => true,
            Some(n) => forall|j: int|
                0 <= j < n.children.len() ==> depth_below(nodes, #[trigger] n.children[j], (k - 1) as nat),
        }
    }
}

/// A node that is not less than `k` deep starts a chain of `k` nodes.
proof fn chain_of_deep(nodes: Seq<(NodeId, NodeV)>, id: NodeId, k: nat) -> (c: Seq<NodeId>)
    requires
        k >= 1,
        !depth_below(nodes, id, k),
    ensures
        is_chain(nodes, c),
        c.len() == k,
        c[0] == id,
    decreases k,
{
    let n = kv_get(nodes, id)->0;
    if k == 1 {
        let c = seq![id];
        assert(c[0] == id);
        c
    } else {
        let j = choose|j: int| 0 <= j < n.children.len() && !depth_below(nodes, #[trigger] n.children[j], (k - 1) as nat);
        let child = n.children[j];
        let c1 = chain_of_deep(nodes, child, (k - 1) as nat);
        let c = seq![id] + c1;
        assert forall|i: int| 0 <= i < c.len() implies #[trigger] kv_get(nodes, c[i]) is Some by {
            if i > 0 {
                assert(c[i] == c1[i - 1]);
            }
        }
        assert forall|i: int| 0 <= i < c.len() - 1 implies kv_get(nodes, #[trigger] c[i])->0.children.contains(
            c[i + 1],
        ) by {
            if i == 0 {
                assert(c[1] == child);
                assert(n.children[j] == child);
            } else {
                assert(c[i] == c1[i - 1]);
                assert(c[i + 1] == c1[i]);
            }
        }
        c
    }
}

/// In a document where no node lies below itself, every chain from a node
/// has at most as many nodes as the document.
pub proof fn lemma_acyclic_depth(nodes: Seq<(NodeId, NodeV)>, id: NodeId)
    requires
        acyclic(nodes),
    ensures
        depth_below(nodes, id, (nodes.len() + 1) as nat),
{
    if !depth_below(nodes, id, (nodes.len() + 1) as nat) {
        let c = chain_of_deep(nodes, id, (nodes.len() + 1) as nat);
        let keys = nodes.map_values(|e: (NodeId, NodeV)| e.0);
        assert(c.to_set().subset_of(keys.to_set())) by {
            assert forall|x: NodeId| c.to_set().contains(x) implies keys.to_set().contains(x) by {
                let i = choose|i: int| 0 <= i < c.len() && c[i] == x;
                assert(kv_get(nodes, c[i]) is Some);
                lemma_kv_pos(nodes, x);
                assert(keys[kv_pos(nodes, x)] == x);
            }
        }
        keys.lemma_cardinality_of_set();
        vstd::set_lib::lemma_len_subset(c.to_set(), keys.to_set());
        if c.no_duplicates() {
            c.unique_seq_to_set();
            assert(false);
        }
        let (i, j) = choose|i: int, j: int| 0 <= i < c.len() && 0 <= j < c.len() && i != j && c[i] == c[j];
        let lo = if i < j {
            i
        } else {
            j
        };
        let hi = if i < j {
            j
        } else {
            i
        };
        let sub = c.subrange(lo, hi + 1);
        assert forall|q: int| 0 <= q < sub.len() implies #[trigger] kv_get(nodes, sub[q]) is Some by {
            assert(sub[q] == c[lo + q]);
        }
        assert forall|q: int| 0 <= q < sub.len() - 1 implies kv_get(nodes, #[trigger] sub[q])->0.children.contains(
            sub[q + 1],
        ) by {
            assert(sub[q] == c[lo + q]);
            assert(sub[q + 1] == c[lo + q + 1]);
        }
        assert(is_chain(nodes, sub));
        assert(sub[0] == sub.last());
    }
}

// ═══════════════════════ the walks do not depend on the bound ═══════════════════════

pub proof fn lemma_text_depth(nodes: Seq<(NodeId, NodeV)>, id: NodeId, k: nat, f: nat)
    requires
        depth_below(nodes, id, k),
        f >= k,
    ensures
        text_rec(nodes, id, f) == text_rec(nodes, id, k),
    decreases k, 0nat,
{
    if let Some(n) = kv_get(nodes, id) {
        lemma_text_list_depth(nodes, n.children, n.children.len(), (k - 1) as nat, (f - 1) as nat);
    }
}

pub proof fn lemma_text_list_depth(nodes: Seq<(NodeId, NodeV)>, kids: Seq<NodeId>, m: nat, k: nat, f: nat)
    requires
        forall|j: int| 0 <= j < kids.len() ==> depth_below(nodes, #[trigger] kids[j], k),
        f >= k,
    ensures
        text_list(nodes, kids, m, f) == text_list(nodes, kids, m, k),
    decreases k, m,
{
    if m > 0 && m <= kids.len() {
        lemma_text_list_depth(nodes, kids, (m - 1) as nat, k, f);
        assert(depth_below(nodes, kids[m - 1], k));
        lemma_text_depth(nodes, kids[m - 1], k, f);
    }
}

pub proof fn lemma_qsa_depth(nodes: Seq<(NodeId, NodeV)>, id: NodeId, sel: Seq<char>, k: nat, f: nat)
    requires
        depth_below(nodes, id, k),
        f >= k,
    ensures
        qsa_rec(nodes, id, sel, f) == qsa_rec(nodes, id, sel, k),
    decreases k, 0nat,
{
    if let Some(n) = kv_get(nodes, id) {
        lemma_qsa_list_depth(nodes, n.children, n.children.len(), sel, (k - 1) as nat, (f - 1) as nat);
    }
}

pub proof fn lemma_qsa_list_depth(
    nodes: Seq<(NodeId, NodeV)>,
    kids: Seq<NodeId>,
    m: nat,
    sel: Seq<char>,
    k: nat,
    f: nat,
)
    requires
        forall|j: int| 0 <= j < kids.len() ==> depth_below(nodes, #[trigger] kids[j], k),
        f >= k,
    ensures
        qsa_list(nodes, kids, m, sel, f) == qsa_list(nodes, kids, m, sel, k),
    decreases k, m,
{
    if m > 0 && m <= kids.len() {
        lemma_qsa_list_depth(nodes, kids, (m - 1) as nat, sel, k, f);
        assert(depth_below(nodes, kids[m - 1], k));
        lemma_qsa_depth(nodes, kids[m - 1], sel, k, f);
    }
}

pub proof fn lemma_qs_depth(nodes: Seq<(NodeId, NodeV)>, id: NodeId, sel: Seq<char>, k: nat, f: nat)
    requires
        depth_below(nodes, id, k),
        f >= k,
    ensures
        qs_rec(nodes, id, sel, f) == qs_rec(nodes, id, sel, k),
    decreases k, 0int,
{
    if let Some(n) = kv_get(nodes, id) {
        if !elem_matches(n, sel) {
            lemma_qs_from_depth(nodes, n.children, 0, sel, (k - 1) as nat, (f - 1) as nat);
        }
    }
}

pub proof fn lemma_qs_from_depth(
    nodes: Seq<(NodeId, NodeV)>,
    kids: Seq<NodeId>,
    i: int,
    sel: Seq<char>,
    k: nat,
    f: nat,
)
    requires
        forall|j: int| 0 <= j < kids.len() ==> depth_below(nodes, #[trigger] kids[j], k),
        f >= k,
    ensures
        qs_from(nodes, kids, i, sel, f) == qs_from(nodes, kids, i, sel, k),
    decreases k, kids.len() - i + 1,
{
    if 0 <= i < kids.len() {
        assert(depth_below(nodes, kids[i], k));
        lemma_qs_depth(nodes, kids[i], sel, k, f);
        lemma_qs_from_depth(nodes, kids, i + 1, sel, k, f);
    }
}


// ═══════════════════════ marking ═══════════════════════

/// Two node lists with the same nodes, each with the same children.
pub open spec fn same_shape(a: Seq<(NodeId, NodeV)>, b: Seq<(NodeId, NodeV)>) -> bool {
    forall|x: NodeId|
        (#[trigger] kv_get(a, x) is Some) == (kv_get(b, x) is Some) && (kv_get(a, x) is Some ==> kv_get(
            a,
            x,
        )->0.children == kv_get(b, x)->0.children)
}

pub proof fn lemma_depth_same_shape(a: Seq<(NodeId, NodeV)>, b: Seq<(NodeId, NodeV)>, x: NodeId, k: nat)
    requires
        same_shape(a, b),
    ensures
        depth_below(a, x, k) == depth_below(b, x, k),
    decreases k,
{
    if k > 0 {
        assert(kv_get(a, x) is Some == kv_get(b, x) is Some);
        if let Some(n) = kv_get(a, x) {
            assert forall|j: int| 0 <= j < n.children.len() implies depth_below(a, #[trigger] n.children[j], (k - 1) as nat)
                == depth_below(b, n.children[j], (k - 1) as nat) by {
                lemma_depth_same_shape(a, b, n.children[j], (k - 1) as nat);
            }
        }
    }
}

pub proof fn lemma_mark_shape(d: DocV, id: NodeId, fuel: nat)
    ensures
        same_shape(d.nodes, mark_rec(d, id, fuel).nodes),
    decreases fuel, 0nat,
{
    if fuel > 0 {
        if let Some(n) = node_of(d, id) {
            let n1 = NodeV { style_dirty: true, ..n };
            let d1 = DocV { nodes: kv_put(d.nodes, id, n1), dirty: set_insert(d.dirty, id), ..d };
            assert forall|x: NodeId| (#[trigger] kv_get(d.nodes, x) is Some) == (kv_get(d1.nodes, x) is Some)
                && (kv_get(d.nodes, x) is Some ==> kv_get(d.nodes, x)->0.children == kv_get(d1.nodes, x)->0.children) by {
                lemma_kv_put_get(d.nodes, id, n1, x);
            }
            lemma_mark_list_shape(d1, n.children, n.children.len(), (fuel - 1) as nat);
        }
    }
}

pub proof fn lemma_mark_list_shape(d: DocV, kids: Seq<NodeId>, m: nat, fuel: nat)
    ensures
        same_shape(d.nodes, mark_list(d, kids, m, fuel).nodes),
    decreases fuel, m,
{
    if m > 0 && m <= kids.len() {
        lemma_mark_list_shape(d, kids, (m - 1) as nat, fuel);
        lemma_mark_shape(mark_list(d, kids, (m - 1) as nat, fuel), kids[m - 1], fuel);
    }
}

pub proof fn lemma_mark_depth(d: DocV, id: NodeId, k: nat, f: nat)
    requires
        depth_below(d.nodes, id, k),
        f >= k,
    ensures
        mark_rec(d, id, f) == mark_rec(d, id, k),
    decreases k, 0nat,
{
    if let Some(n) = node_of(d, id) {
        let n1 = NodeV { style_dirty: true, ..n };
        let d1 = DocV { nodes: kv_put(d.nodes, id, n1), dirty: set_insert(d.dirty, id), ..d };
        assert forall|x: NodeId| (#[trigger] kv_get(d.nodes, x) is Some) == (kv_get(d1.nodes, x) is Some)
            && (kv_get(d.nodes, x) is Some ==> kv_get(d.nodes, x)->0.children == kv_get(d1.nodes, x)->0.children) by {
            lemma_kv_put_get(d.nodes, id, n1, x);
        }
        assert forall|j: int| 0 <= j < n.children.len() implies depth_below(d1.nodes, #[trigger] n.children[j], (k - 1) as nat) by {
            lemma_depth_same_shape(d.nodes, d1.nodes, n.children[j], (k - 1) as nat);
        }
        lemma_mark_list_depth(d1, n.children, n.children.len(), (k - 1) as nat, (f - 1) as nat);
    }
}

pub proof fn lemma_mark_list_depth(d: DocV, kids: Seq<NodeId>, m: nat, k: nat, f: nat)
    requires
        forall|j: int| 0 <= j < kids.len() ==> depth_below(d.nodes, #[trigger] kids[j], k),
        f >= k,
    ensures
        mark_list(d, kids, m, f) == mark_list(d, kids, m, k),
    decreases k, m,
{
    if m > 0 && m <= kids.len() {
        lemma_mark_list_depth(d, kids, (m - 1) as nat, k, f);
        let r = mark_list(d, kids, (m - 1) as nat, k);
        lemma_mark_list_shape(d, kids, (m - 1) as nat, k);
        assert(depth_below(d.nodes, kids[m - 1], k));
        lemma_depth_same_shape(d.nodes, r.nodes, kids[m - 1], k);
        lemma_mark_depth(r, kids[m - 1], k, f);
    }
}


// ═══════════════════════ searches below a node ═══════════════════════

pub proof fn lemma_find_depth(nodes: Seq<(NodeId, NodeV)>, id: NodeId, p: Probe, k: nat, f: nat)
    requires
        depth_below(nodes, id, k),
        f >= k,
    ensures
        find_rec(nodes, id, p, f) == find_rec(nodes, id, p, k),
    decreases k, 0int,
{
    if let Some(n) = kv_get(nodes, id) {
        if !probe_holds(n, p) {
            lemma_find_from_depth(nodes, n.children, 0, p, (k - 1) as nat, (f - 1) as nat);
        }
    }
}

pub proof fn lemma_find_from_depth(nodes: Seq<(NodeId, NodeV)>, kids: Seq<NodeId>, i: int, p: Probe, k: nat, f: nat)
    requires
        forall|j: int| 0 <= j < kids.len() ==> depth_below(nodes, #[trigger] kids[j], k),
        f >= k,
    ensures
        find_from(nodes, kids, i, p, f) == find_from(nodes, kids, i, p, k),
    decreases k, kids.len() - i + 1,
{
    if 0 <= i < kids.len() {
        assert(depth_below(nodes, kids[i], k));
        lemma_find_depth(nodes, kids[i], p, k, f);
        lemma_find_from_depth(nodes, kids, i + 1, p, k, f);
    }
}

pub proof fn lemma_collect_depth(nodes: Seq<(NodeId, NodeV)>, id: NodeId, p: Probe, k: nat, f: nat)
    requires
        depth_below(nodes, id, k),
        f >= k,
    ensures
        collect_rec(nodes, id, p, f) == collect_rec(nodes, id, p, k),
    decreases k, 0nat,
{
    if let Some(n) = kv_get(nodes, id) {
        lemma_collect_list_depth(nodes, n.children, n.children.len(), p, (k - 1) as nat, (f - 1) as nat);
    }
}

pub proof fn lemma_collect_list_depth(nodes: Seq<(NodeId, NodeV)>, kids: Seq<NodeId>, m: nat, p: Probe, k: nat, f: nat)
    requires
        forall|j: int| 0 <= j < kids.len() ==> depth_below(nodes, #[trigger] kids[j], k),
        f >= k,
    ensures
        collect_list(nodes, kids, m, p, f) == collect_list(nodes, kids, m, p, k),
    decreases k, m,
{
    if m > 0 && m <= kids.len() {
        lemma_collect_list_depth(nodes, kids, (m - 1) as nat, p, k, f);
        assert(depth_below(nodes, kids[m - 1], k));
        lemma_collect_depth(nodes, kids[m - 1], p, k, f);
    }
}


// ═══════════════════════ marking ancestors for layout ═══════════════════════

/// The number of entries not marked for layout.
pub open spec fn unmarked(s: Seq<(NodeId, NodeV)>) -> nat
    decreases s.len(),
{
    if s.len() == 0 {
        0
    } else {
        unmarked(s.drop_last()) + if s.last().1.layout_dirty {
            0nat
        } else {
            1nat
        }
    }
}

pub proof fn lemma_unmarked_update(s: Seq<(NodeId, NodeV)>, i: int, e: (NodeId, NodeV))
    requires
        0 <= i < s.len(),
        !s[i].1.layout_dirty,
        e.1.layout_dirty,
    ensures
        unmarked(s.update(i, e)) + 1 == unmarked(s),
    decreases s.len(),
{
    if i < s.len() - 1 {
        lemma_unmarked_update(s.drop_last(), i, e);
        assert(s.update(i, e).drop_last() =~= s.drop_last().update(i, e));
    } else {
        assert(s.update(i, e).drop_last() =~= s.drop_last());
    }
}

pub proof fn lemma_unmarked_le(s: Seq<(NodeId, NodeV)>)
    ensures
        unmarked(s) <= s.len(),
    decreases s.len(),
{
    if s.len() > 0 {
        lemma_unmarked_le(s.drop_last());
    }
}

/// Marking ancestors for layout marks one more node at each step, so any
/// bound above the number of unmarked nodes gives the same document.
pub proof fn lemma_layout_fuel(d: DocV, cur: Option<NodeId>, f1: nat, f2: nat)
    requires
        f1 > unmarked(d.nodes),
        f2 > unmarked(d.nodes),
    ensures
        mark_layout_up(d, cur, f1) == mark_layout_up(d, cur, f2),
    decreases f1 + f2,
{
    if let Some(pid) = cur {
        if let Some(p) = node_of(d, pid) {
            if !p.layout_dirty {
                lemma_kv_pos(d.nodes, pid);
                let i = kv_pos(d.nodes, pid);
                let n1 = NodeV { layout_dirty: true, ..p };
                lemma_unmarked_update(d.nodes, i, (pid, n1));
                lemma_layout_fuel(with_node(d, pid, n1), p.parent, (f1 - 1) as nat, (f2 - 1) as nat);
            }
        }
    }
}


// ═══════════════════════ `:has` ═══════════════════════

pub proof fn lemma_has_depth(nodes: Seq<(NodeId, NodeV)>, id: NodeId, c: ComplexV, k: nat, f: nat)
    requires
        depth_below(nodes, id, k),
        f >= k,
    ensures
        has_desc(nodes, id, c, f) == has_desc(nodes, id, c, k),
    decreases k, 0int,
{
    if let Some(n) = kv_get(nodes, id) {
        lemma_has_from_depth(nodes, n.children, 0, c, (k - 1) as nat, (f - 1) as nat);
    }
}

pub proof fn lemma_has_from_depth(nodes: Seq<(NodeId, NodeV)>, kids: Seq<NodeId>, i: int, c: ComplexV, k: nat, f: nat)
    requires
        forall|j: int| 0 <= j < kids.len() ==> depth_below(nodes, #[trigger] kids[j], k),
        f >= k,
    ensures
        has_from(nodes, kids, i, c, f) == has_from(nodes, kids, i, c, k),
    decreases k, kids.len() - i + 1,
{
    if 0 <= i < kids.len() {
        assert(depth_below(nodes, kids[i], k));
        lemma_has_depth(nodes, kids[i], c, k, f);
        lemma_has_from_depth(nodes, kids, i + 1, c, k, f);
    }
}

} // verus!
