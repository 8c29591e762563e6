//! Properties that span several operations of the library.
use vstd::prelude::*;

use crate::runtime::css_rule::CssRule;
use crate::runtime::depth::{
    acyclic, lemma_acyclic_depth, lemma_collect_depth, lemma_find_depth, lemma_has_depth, lemma_layout_fuel,
    lemma_mark_depth, lemma_qs_depth, lemma_qsa_depth, lemma_text_depth, lemma_unmarked_le,
};
use crate::runtime::dom_ops::{collect_rec, find_rec, Probe};
use crate::runtime::dom_node::{
    element_v, kv_get, kv_put, kv_unique, lemma_kv_drop_get, lemma_kv_pos, lemma_kv_put_get,
    lemma_kv_put_unique, list_of, without, NodeV,
};
use crate::runtime::index::add_new;
use crate::runtime::node_id::NodeId;
use crate::runtime::node_match::{parent_of, sel_matches, seg_matches, walk};
use crate::runtime::registry::{
    create_element_spec, create_text_spec, doc_wf, flush_spec, get_attribute_spec,
    insert_before_spec, lemma_wf_add, lemma_wf_flush, lemma_wf_insert_before, lemma_wf_link,
    lemma_wf_mark_rec, lemma_wf_remove_child, lemma_wf_set_attribute, lemma_wf_set_text,
    lemma_wf_vdom, link_spec, mark_rec, node_of, record_results, remove_child_spec,
    set_attribute_spec, set_text_spec, text_node_v, text_rec, vcount, vdom_spec, walk_fuel, DocV,
    qs_rec, qsa_rec,
};
use crate::runtime::selector_match::{complex_loop_spec, complex_spec, specificity_consistent, Combinator, ComplexV, SegmentV};
use crate::text::trim;
use crate::runtime::vnode::VNode;
use crate::text::lowercase_of;
use crate::toolchain::cli::relative_path_spec;
use crate::toolchain::html::ElemV;
use crate::toolchain::js::html_lookup_spec;

verus! {

/// Deleting the rule at the index where a rule was just inserted gives
/// back the sheet's rules as they were (`deleteRule` undoes `insertRule`).
pub proof fn law_delete_undoes_insert(rules: Seq<CssRule>, rule: CssRule, index: int)
    requires
        0 <= index <= rules.len(),
    ensures
        rules.insert(index, rule).remove(index) == rules,
{
    assert(rules.insert(index, rule).remove(index) =~= rules);
}

/// A string map gives back what was last set for a key, and setting a
/// key leaves the other keys as they were.
pub proof fn law_map_read_after_write(
    m: Map<Seq<char>, Seq<char>>,
    k: Seq<char>,
    v: Seq<char>,
    other: Seq<char>,
)
    requires
        other != k,
    ensures
        m.insert(k, v).contains_key(k),
        m.insert(k, v)[k] == v,
        m.insert(k, v).contains_key(other) == m.contains_key(other),
        m.contains_key(other) ==> m.insert(k, v)[other] == m[other],
{
}

/// The candidates for an element hold each rule position at most once,
/// and every position of the lists looked up.
pub proof fn law_candidates_once(acc: Seq<usize>, xs: Seq<usize>)
    requires
        acc.no_duplicates(),
    ensures
        add_new(acc, xs).no_duplicates(),
        forall|k: int| 0 <= k < xs.len() ==> add_new(acc, xs).contains(#[trigger] xs[k]),
        forall|k: int| 0 <= k < acc.len() ==> add_new(acc, xs).contains(#[trigger] acc[k]),
    decreases xs.len(),
{
    if xs.len() > 0 {
        let pre = xs.drop_last();
        law_candidates_once(acc, pre);
        let a = add_new(acc, pre);
        if !a.contains(xs.last()) {
            assert forall|i: int, j: int|
                0 <= i < a.push(xs.last()).len() && 0 <= j < a.push(xs.last()).len() && i != j implies
                a.push(xs.last())[i] != a.push(xs.last())[j] by {
                if i < a.len() && j < a.len() {
                } else if i < a.len() {
                    assert(a.contains(a[i]));
                } else {
                    assert(a.contains(a[j]));
                }
            }
        }
        assert forall|k: int| 0 <= k < xs.len() implies add_new(acc, xs).contains(#[trigger] xs[k]) by {
            if k < xs.len() - 1 {
                assert(pre[k] == xs[k]);
                assert(a.contains(pre[k]));
                let w = choose|w: int| 0 <= w < a.len() && a[w] == pre[k];
                if !a.contains(xs.last()) {
                    assert(a.push(xs.last())[w] == xs[k]);
                }
            } else if !a.contains(xs.last()) {
                assert(a.push(xs.last())[a.len() as int] == xs.last());
            }
        }
        assert forall|k: int| 0 <= k < acc.len() implies add_new(acc, xs).contains(#[trigger] acc[k]) by {
            assert(a.contains(acc[k]));
            let w = choose|w: int| 0 <= w < a.len() && a[w] == acc[k];
            if !a.contains(xs.last()) {
                assert(a.push(xs.last())[w] == acc[k]);
            }
        }
    }
}

/// The way from a directory to itself is empty.
pub proof fn law_relative_path_to_itself(p: Seq<Seq<char>>)
    ensures
        relative_path_spec(p, p) == Seq::<char>::empty(),
{
    lemma_common_all(p, 0);
    assert(p.skip(p.len() as int) =~= Seq::<Seq<char>>::empty());
    assert(crate::toolchain::cli::ups(0) =~= Seq::<char>::empty());
    assert(crate::toolchain::cli::with_slashes(Seq::<Seq<char>>::empty()) =~= Seq::<char>::empty());
    let s = crate::toolchain::cli::ups(0) + crate::toolchain::cli::with_slashes(
        Seq::<Seq<char>>::empty(),
    );
    assert(s =~= Seq::<char>::empty());
    assert(crate::text::replace_all(Seq::<char>::empty(), seq!['\\'], seq!['/']) =~= Seq::<
        char,
    >::empty());
}

proof fn lemma_common_all(p: Seq<Seq<char>>, k: int)
    requires
        0 <= k <= p.len(),
    ensures
        crate::toolchain::cli::common_prefix(p, p, k) == p.len(),
    decreases p.len() - k,
{
    if k < p.len() {
        lemma_common_all(p, k + 1);
    }
}

/// In the lookup table of a page, the variable of the last element is
/// reached by its own name.
pub proof fn law_lookup_names_last_variable(vars: Seq<(Seq<char>, ElemV)>)
    requires
        vars.len() > 0,
    ensures
        html_lookup_spec(vars).contains_key(vars.last().0),
        html_lookup_spec(vars)[vars.last().0] == vars.last().0,
{
}


/// After `setAttribute(n, name, v)` on a node of the document,
/// `getAttribute(n, name)` gives `v`.
pub proof fn law_attribute_read_after_write(d: DocV, n: NodeId, name: Seq<char>, v: Seq<char>)
    requires
        node_of(d, n) is Some,
    ensures
        get_attribute_spec(set_attribute_spec(d, n, name, v), n, name) == Some(v),
{
    let old_n = node_of(d, n)->0;
    let is_id = name == "id"@;
    let n1 = NodeV {
        attrs: kv_put(old_n.attrs, name, v),
        id: if is_id {
            Some(v)
        } else {
            old_n.id
        },
        style: if name == "style"@ {
            v
        } else {
            old_n.style
        },
        style_dirty: true,
        ..old_n
    };
    lemma_kv_put_get(d.nodes, n, n1, n);
    lemma_kv_put_get(old_n.attrs, name, v, name);
    if name == "class"@ {
        assert(node_of(DocV { nodes: kv_put(d.nodes, n, n1), ..d }, n) == Some(n1));
        let cs = crate::toolchain::css::words(v);
        lemma_kv_put_get(kv_put(d.nodes, n, n1), n, NodeV { classes: cs, ..n1 }, n);
    }
}

/// After `setAttribute(n, "id", v)` on a node of the document,
/// `getElementById(v)` gives `n`.
pub proof fn law_id_lookup_after_set(d: DocV, n: NodeId, v: Seq<char>)
    requires
        node_of(d, n) is Some,
    ensures
        kv_get(set_attribute_spec(d, n, "id"@, v).ids, v) == Some(n),
{
    reveal_strlit("id");
    reveal_strlit("class");
    let old_n = node_of(d, n)->0;
    let ids1 = match old_n.id {
        Some(o) => crate::runtime::dom_node::kv_drop(d.ids, o),
        None => d.ids,
    };
    assert("id"@.len() == 2 && "class"@.len() == 5);
    lemma_kv_put_get(ids1, v, n, v);
}

/// `createElement(tag)` in a well-formed document adds an element under
/// the next identifier, lists it last under the lowercase tag, leaves
/// every other node as it was, and keeps the document well formed.
pub proof fn law_create_element(d: DocV, tag: Seq<char>, x: NodeId)
    requires
        doc_wf(d),
        d.next < u64::MAX,
    ensures
        node_of(create_element_spec(d, tag), NodeId(d.next)) == Some(element_v(NodeId(d.next), tag)),
        x != NodeId(d.next) ==> node_of(create_element_spec(d, tag), x) == node_of(d, x),
        list_of(create_element_spec(d, tag).tags, lowercase_of(tag)) == list_of(
            d.tags,
            lowercase_of(tag),
        ).push(NodeId(d.next)),
        doc_wf(create_element_spec(d, tag)),
{
    let id = NodeId(d.next);
    let e = create_element_spec(d, tag);
    lemma_kv_put_get(d.nodes, id, element_v(id, tag), id);
    lemma_kv_put_get(d.nodes, id, element_v(id, tag), x);
    let l = lowercase_of(tag);
    let nl = match kv_get(d.tags, l) {
        Some(old) => old.push(id),
        None => seq![id],
    };
    lemma_kv_put_get(d.tags, l, nl, l);
    lemma_kv_pos(d.nodes, id);
    assert(crate::runtime::dom_node::kv_pos(d.nodes, id) < 0);
    lemma_kv_put_unique(d.nodes, id, element_v(id, tag));
    assert(e.nodes == d.nodes.push((id, element_v(id, tag))));
}

/// `appendChild(p, c)` for two different nodes of the document makes `p`
/// the parent of `c`, adds `c` at the end of `p`'s children, and leaves
/// every other node as it was.
pub proof fn law_append_child(d: DocV, p: NodeId, c: NodeId, x: NodeId)
    requires
        node_of(d, p) is Some,
        node_of(d, c) is Some,
        p != c,
    ensures
        node_of(link_spec(d, p, c), c) == Some(NodeV { parent: Some(p), ..node_of(d, c)->0 }),
        node_of(link_spec(d, p, c), p) == Some(
            NodeV { children: node_of(d, p)->0.children.push(c), ..node_of(d, p)->0 },
        ),
        x != p && x != c ==> node_of(link_spec(d, p, c), x) == node_of(d, x),
{
    let np = node_of(d, p)->0;
    let nc = node_of(d, c)->0;
    let p1 = NodeV { children: np.children.push(c), ..np };
    let s1 = kv_put(d.nodes, p, p1);
    lemma_kv_put_get(d.nodes, p, p1, c);
    lemma_kv_put_get(d.nodes, p, p1, p);
    lemma_kv_put_get(d.nodes, p, p1, x);
    let c1 = NodeV { parent: Some(p), ..nc };
    lemma_kv_put_get(s1, c, c1, c);
    lemma_kv_put_get(s1, c, c1, p);
    lemma_kv_put_get(s1, c, c1, x);
}

/// `removeChild(p, c)` for a child `c` without children of its own, in a
/// document where each node occurs once: `c` is no longer in the document
/// and `p`'s children are the old ones without `c`.
pub proof fn law_remove_leaf_child(d: DocV, p: NodeId, c: NodeId)
    requires
        kv_unique(d.nodes),
        node_of(d, p) is Some,
        node_of(d, c) is Some,
        node_of(d, c)->0.children.len() == 0,
        p != c,
    ensures
        node_of(remove_child_spec(d, p, c), c) is None,
        node_of(remove_child_spec(d, p, c), p) == Some(
            NodeV { children: without(node_of(d, p)->0.children, c), ..node_of(d, p)->0 },
        ),
{
    let np = node_of(d, p)->0;
    let nc = node_of(d, c)->0;
    let p1 = NodeV { children: without(np.children, c), ..np };
    let s1 = kv_put(d.nodes, p, p1);
    lemma_kv_put_get(d.nodes, p, p1, c);
    lemma_kv_put_get(d.nodes, p, p1, p);
    lemma_kv_put_unique(d.nodes, p, p1);
    let c1 = NodeV { parent: None, ..nc };
    let s2 = kv_put(s1, c, c1);
    lemma_kv_put_get(s1, c, c1, c);
    lemma_kv_put_get(s1, c, c1, p);
    lemma_kv_put_unique(s1, c, c1);
    lemma_kv_drop_get(s2, c, c);
    lemma_kv_drop_get(s2, c, p);
    lemma_kv_pos(s2, c);
    assert(s2.len() >= 1);
}

/// Setting the text of an element that has no children and then reading
/// it gives the text back.
pub proof fn law_text_read_after_write(d: DocV, n: NodeId, t: Seq<char>)
    requires
        doc_wf(d),
        d.next < u64::MAX,
        node_of(d, n) is Some,
        node_of(d, n)->0.tag is Some,
        node_of(d, n)->0.children.len() == 0,
    ensures
        text_rec(set_text_spec(d, n, t).nodes, n, walk_fuel(set_text_spec(d, n, t))) == t,
{
    let nn = node_of(d, n)->0;
    let n0 = NodeV { children: seq![], ..nn };
    assert(nn.children =~= seq![]);
    assert(n0 == nn);
    crate::runtime::dom_node::lemma_kv_put_same(d.nodes, n, nn);
    let tid = NodeId(d.next);
    lemma_kv_pos(d.nodes, n);
    lemma_kv_pos(d.nodes, tid);
    assert(n != tid);
    let tv = crate::runtime::registry::text_node_v(tid, t);
    let s3 = kv_put(d.nodes, tid, tv);
    lemma_kv_put_get(d.nodes, tid, tv, n);
    lemma_kv_put_get(d.nodes, tid, tv, tid);
    let n1 = NodeV { children: seq![tid], ..nn };
    let s4 = kv_put(s3, n, n1);
    lemma_kv_put_get(s3, n, n1, tid);
    lemma_kv_put_get(s3, n, n1, n);
    let t1 = NodeV { parent: Some(n), ..tv };
    let s5 = kv_put(s4, tid, t1);
    lemma_kv_put_get(s4, tid, t1, n);
    lemma_kv_put_get(s4, tid, t1, tid);
    let e = set_text_spec(d, n, t);
    assert(e.nodes == s5);
    assert(s3.len() == d.nodes.len() + 1);
    assert(s5.len() >= 2) by {
        lemma_kv_pos(s3, n);
        lemma_kv_pos(s4, tid);
    }
    let f = walk_fuel(e);
    assert(f >= 3);
    reveal_strlit("__text");
    assert(crate::runtime::dom_node::text_of(t1) == Some(t));
    assert(crate::runtime::registry::text_list(s5, seq![], 0, (f - 2) as nat) == Seq::<char>::empty());
    assert(text_rec(s5, tid, (f - 1) as nat) =~= t);
    assert(seq![tid][0] == tid);
    assert(crate::runtime::registry::text_list(s5, seq![tid], 0, (f - 1) as nat) == Seq::<char>::empty());
    assert(crate::runtime::registry::text_list(s5, seq![tid], 1, (f - 1) as nat) =~= t);
    assert(text_rec(s5, n, f) =~= t);
}

/// `markAllDirty(root)` on a node of the document leaves it marked for a
/// new style and in the set of nodes to restyle.
pub proof fn law_mark_marks_root(d: DocV, root: NodeId)
    requires
        node_of(d, root) is Some,
    ensures
        node_of(mark_rec(d, root, walk_fuel(d)), root) is Some,
        node_of(mark_rec(d, root, walk_fuel(d)), root)->0.style_dirty,
        mark_rec(d, root, walk_fuel(d)).dirty.contains(root),
{
    let n = node_of(d, root)->0;
    let d1 = DocV {
        nodes: kv_put(d.nodes, root, NodeV { style_dirty: true, ..n }),
        dirty: crate::runtime::dom_node::set_insert(d.dirty, root),
        ..d
    };
    lemma_kv_put_get(d.nodes, root, NodeV { style_dirty: true, ..n }, root);
    assert(node_of(d1, root)->0.style_dirty);
    if !d.dirty.contains(root) {
        assert(d1.dirty[d.dirty.len() as int] == root);
    }
    assert(d1.dirty.contains(root));
    crate::runtime::registry::lemma_mark_list_keeps(
        d1,
        n.children,
        n.children.len(),
        (walk_fuel(d) - 1) as nat,
    );
}


/// Selectors are matched from the right: a selector that matches a node
/// has its rightmost compound selector matching that node.
pub proof fn law_match_rightmost(nodes: Seq<(NodeId, NodeV)>, c: ComplexV, id: NodeId)
    requires
        sel_matches(nodes, c, id),
    ensures
        c.segments.len() > 0,
        seg_matches(nodes, c.segments.last(), id),
{
}

/// `A > B` matches a node exactly when `B` matches it and `A` matches its
/// parent.
pub proof fn law_child_combinator(nodes: Seq<(NodeId, NodeV)>, c: ComplexV, id: NodeId)
    requires
        c.segments.len() == 2,
        c.segments[1].combinator == Combinator::Child,
    ensures
        sel_matches(nodes, c, id) <==> seg_matches(nodes, c.segments[1], id) && match parent_of(
            nodes,
            id,
        ) {
            Some(p) => seg_matches(nodes, c.segments[0], p),
            None => false,
        },
{
    let f = crate::runtime::node_match::match_fuel(nodes, c);
    assert(f >= 3);
    if seg_matches(nodes, c.segments[1], id) {
        let nxt = parent_of(nodes, id);
        assert(walk(nodes, c.segments, 2, Some(id), f) == walk(nodes, c.segments, 1, nxt, (f - 1) as nat));
        if let Some(p) = nxt {
            if seg_matches(nodes, c.segments[0], p) {
                assert(walk(nodes, c.segments, 0, None, (f - 2) as nat));
            }
        }
    }
}


/// After a style pass every node that got a result and is in the document
/// is no longer marked for a new style, and the set of nodes to restyle is
/// empty.
pub proof fn law_style_pass_clears(d: DocV, res: Seq<(NodeId, bool)>, i: int)
    requires
        0 <= i < res.len(),
        node_of(d, res[i].0) is Some,
    ensures
        node_of(flush_spec(d, res), res[i].0) is Some,
        !node_of(flush_spec(d, res), res[i].0)->0.style_dirty,
        flush_spec(d, res).dirty.len() == 0,
{
    crate::runtime::registry::lemma_record_clears(d, res, res.len() as int);
    let (d1, parents) = record_results(d, res, res.len() as int);
    crate::runtime::registry::lemma_spread_keeps(d1, parents, parents.len() as int);
}


/// Every operation keeps a document well formed: each node once, under
/// its own identifier, every identifier below the next one to hand out.
/// The operations that hand out identifiers need one (or one per node
/// built) to be left.
pub proof fn law_operations_keep_document_well_formed(
    d: DocV,
    tag: Seq<char>,
    text: Seq<char>,
    p: NodeId,
    c: NodeId,
    r: NodeId,
    name: Seq<char>,
    value: Seq<char>,
    res: Seq<(NodeId, bool)>,
    v: VNode,
    parent: Option<NodeId>,
)
    requires
        doc_wf(d),
    ensures
        d.next < u64::MAX ==> doc_wf(create_element_spec(d, tag)),
        d.next < u64::MAX ==> doc_wf(create_text_spec(d, text)),
        doc_wf(link_spec(d, p, c)),
        doc_wf(insert_before_spec(d, p, c, r)),
        doc_wf(set_attribute_spec(d, p, name, value)),
        doc_wf(remove_child_spec(d, p, c)),
        d.next < u64::MAX ==> doc_wf(set_text_spec(d, p, text)),
        doc_wf(mark_rec(d, p, walk_fuel(d))),
        doc_wf(flush_spec(d, res)),
        d.next + vcount(v) <= u64::MAX ==> doc_wf(vdom_spec(d, v, parent).0),
{
    if d.next < u64::MAX {
        lemma_wf_add(d, element_v(NodeId(d.next), tag));
        lemma_wf_add(d, text_node_v(NodeId(d.next), text));
        lemma_wf_set_text(d, p, text);
    }
    lemma_wf_link(d, p, c);
    lemma_wf_insert_before(d, p, c, r);
    lemma_wf_set_attribute(d, p, name, value);
    lemma_wf_remove_child(d, p, c);
    lemma_wf_mark_rec(d, p, walk_fuel(d));
    lemma_wf_flush(d, res);
    if d.next + vcount(v) <= u64::MAX {
        lemma_wf_vdom(d, v, parent);
    }
}


/// Removal takes out everything below a node however deep it goes: any
/// bound on the depth above the number of nodes gives the same document,
/// so the bound in the contract of `removeChild` decides nothing.
pub proof fn law_removal_depth_is_enough(d: DocV, id: NodeId, f1: nat, f2: nat)
    requires
        f1 > d.nodes.len(),
        f2 > d.nodes.len(),
    ensures
        crate::runtime::registry::remove_rec(d, id, f1) == crate::runtime::registry::remove_rec(d, id, f2),
{
    crate::runtime::registry::lemma_remove_fuel(d, id, f1, f2);
}


/// In a document where no node lies below itself, the walks below a node
/// reach every node below it: its text (`getTextContent`), the first and
/// all matches of a simple selector (`querySelector_from`,
/// `querySelectorAll_from`) and the searches by id, class and tag below a
/// node, and the search of `:has` below a node, are the same for every
/// depth bound above the number of nodes, the one their contracts use
/// among them.
pub proof fn law_tree_walks_reach_everything(
    nodes: Seq<(NodeId, NodeV)>,
    id: NodeId,
    sel: Seq<char>,
    p: Probe,
    c: ComplexV,
    f: nat,
)
    requires
        acyclic(nodes),
        f > nodes.len(),
    ensures
        text_rec(nodes, id, f) == text_rec(nodes, id, (nodes.len() + 1) as nat),
        qs_rec(nodes, id, sel, f) == qs_rec(nodes, id, sel, (nodes.len() + 1) as nat),
        qsa_rec(nodes, id, sel, f) == qsa_rec(nodes, id, sel, (nodes.len() + 1) as nat),
        find_rec(nodes, id, p, f) == find_rec(nodes, id, p, (nodes.len() + 1) as nat),
        collect_rec(nodes, id, p, f) == collect_rec(nodes, id, p, (nodes.len() + 1) as nat),
        crate::runtime::node_match::has_desc(nodes, id, c, f) == crate::runtime::node_match::has_desc(
            nodes,
            id,
            c,
            (nodes.len() + 1) as nat,
        ),
{
    let k = (nodes.len() + 1) as nat;
    lemma_acyclic_depth(nodes, id);
    lemma_text_depth(nodes, id, k, f);
    lemma_qs_depth(nodes, id, sel, k, f);
    lemma_qsa_depth(nodes, id, sel, k, f);
    lemma_find_depth(nodes, id, p, k, f);
    lemma_collect_depth(nodes, id, p, k, f);
    lemma_has_depth(nodes, id, c, k, f);
}


/// In a document where no node lies below itself, `markAllDirty` marks
/// the same nodes for every depth bound above the number of nodes: the
/// bound in its contract stops nothing.
pub proof fn law_marking_reaches_everything(d: DocV, id: NodeId, f: nat)
    requires
        acyclic(d.nodes),
        f > d.nodes.len(),
    ensures
        mark_rec(d, id, f) == mark_rec(d, id, walk_fuel(d)),
{
    lemma_acyclic_depth(d.nodes, id);
    lemma_mark_depth(d, id, walk_fuel(d), f);
}


/// Layout marks spread up to the first ancestor already marked however
/// long the way: any depth bound above the number of nodes gives the same
/// document, so the bound in the contract of `flushStyleDirty` stops
/// nothing, even where parent links run in a circle.
pub proof fn law_layout_marks_reach_the_first_marked_ancestor(
    d: DocV,
    cur: Option<NodeId>,
    f: nat,
)
    requires
        f > d.nodes.len(),
    ensures
        crate::runtime::registry::mark_layout_up(d, cur, f) == crate::runtime::registry::mark_layout_up(
            d,
            cur,
            walk_fuel(d),
        ),
{
    lemma_unmarked_le(d.nodes);
    lemma_layout_fuel(d, cur, f, walk_fuel(d));
}

proof fn lemma_loop_segments_nonempty(rem: Seq<char>)
    ensures
        forall|k: int|
            0 <= k < complex_loop_spec(rem).len() ==> (#[trigger] complex_loop_spec(rem)[k]).parts.len() > 0,
    decreases rem.len(),
{
    let r0 = crate::text::trim_start(rem);
    crate::text::lemma_trim_start_suffix(rem);
    if r0.len() > 0 {
        let (comb, r1) = crate::runtime::selector_match::leading_combinator(r0);
        let cp = crate::runtime::selector_match::compound_spec(r1);
        if cp.parts.len() > 0 && cp.rest.len() < rem.len() {
            lemma_loop_segments_nonempty(cp.rest);
            let first = seq![SegmentV { combinator: comb, parts: cp.parts }];
            assert forall|k: int| 0 <= k < complex_loop_spec(rem).len() implies (
            #[trigger] complex_loop_spec(rem)[k]).parts.len() > 0 by {
                if k > 0 {
                    assert(complex_loop_spec(rem)[k] == complex_loop_spec(cp.rest)[k - 1]);
                }
            }
        }
    }
}

/// A selector read from blank text is `None`; one that is read has at
/// least one compound selector, each with at least one simple selector,
/// and the specificity that its simple selectors sum to.
pub proof fn law_parsed_selector_shape(s: Seq<char>)
    ensures
        trim(s).len() == 0 ==> complex_spec(s) is None,
        complex_spec(s) matches Some(c) ==> {
            &&& c.segments.len() > 0
            &&& forall|k: int| 0 <= k < c.segments.len() ==> (#[trigger] c.segments[k]).parts.len() > 0
            &&& specificity_consistent(c)
        },
{
    crate::text::lemma_trim_len(s);
    lemma_loop_segments_nonempty(trim(s));
}

/// A word of a simple selector: no `.`, `#` or white space in it.
pub open spec fn plain_word(w: Seq<char>) -> bool {
    forall|k: int| 0 <= k < w.len() ==> w[k] != '.' && w[k] != '#' && !crate::text::is_ws(#[trigger] w[k])
}

/// `.c1.c2..` for the classes `cs`.
pub open spec fn dotted(cs: Seq<Seq<char>>) -> Seq<char>
    decreases cs.len(),
{
    if cs.len() == 0 {
        seq![]
    } else {
        seq!['.'] + cs[0] + dotted(cs.drop_first())
    }
}

/// `#id`, or nothing.
pub open spec fn with_id(i: Option<Seq<char>>) -> Seq<char> {
    match i {
        Some(x) => seq!['#'] + x,
        None => seq![],
    }
}

proof fn lemma_dotted_chars(cs: Seq<Seq<char>>)
    requires
        forall|k: int| 0 <= k < cs.len() ==> plain_word(#[trigger] cs[k]),
    ensures
        forall|k: int| 0 <= k < dotted(cs).len() ==> dotted(cs)[k] != '#' && !crate::text::is_ws(#[trigger] dotted(cs)[k]),
        cs.len() > 0 ==> dotted(cs).len() > 0 && dotted(cs)[0] == '.',
    decreases cs.len(),
{
    if cs.len() > 0 {
        assert(plain_word(cs[0]));
        lemma_dotted_chars(cs.drop_first());
        let d = dotted(cs);
        let r = dotted(cs.drop_first());
        assert(d == seq!['.'] + cs[0] + r);
        assert forall|k: int| 0 <= k < d.len() implies d[k] != '#' && !crate::text::is_ws(#[trigger] d[k]) by {
            if k == 0 {
            } else if k < 1 + cs[0].len() {
                assert(d[k] == cs[0][k - 1]);
            } else {
                assert(d[k] == r[k - 1 - cs[0].len()]);
            }
        }
    }
}

proof fn lemma_find_at(a: Seq<char>, c: char, b: Seq<char>)
    requires
        forall|k: int| 0 <= k < a.len() ==> a[k] != c,
    ensures
        crate::text::find_char(a + seq![c] + b, c) == Some(a.len() as int),
{
    let s = a + seq![c] + b;
    assert(s[a.len() as int] == c);
    crate::text::lemma_find_char_some(s, c, a.len() as int);
    crate::text::lemma_find_first_bounds(s, crate::text::eq_pred(c));
    let i = crate::text::find_char(s, c)->0;
    if i < a.len() {
        assert(s[i] == a[i]);
    }
}

proof fn lemma_find_none(a: Seq<char>, c: char)
    requires
        forall|k: int| 0 <= k < a.len() ==> a[k] != c,
    ensures
        crate::text::find_char(a, c) is None,
{
    crate::text::lemma_find_first_bounds(a, crate::text::eq_pred(c));
}

proof fn lemma_split_dotted(a: Seq<char>, cs: Seq<Seq<char>>)
    requires
        plain_word(a),
        forall|k: int| 0 <= k < cs.len() ==> plain_word(#[trigger] cs[k]),
    ensures
        crate::text::split(a + dotted(cs), '.') == seq![a] + cs,
    decreases cs.len(),
{
    if cs.len() == 0 {
        assert(a + dotted(cs) =~= a);
        lemma_find_none(a, '.');
    } else {
        let rest = cs[0] + dotted(cs.drop_first());
        assert(plain_word(cs[0]));
        assert(a + dotted(cs) =~= a + seq!['.'] + rest);
        lemma_find_at(a, '.', rest);
        assert((a + seq!['.'] + rest).take(a.len() as int) =~= a);
        assert((a + seq!['.'] + rest).skip(a.len() as int + 1) =~= rest);
        lemma_split_dotted(cs[0], cs.drop_first());
        assert(seq![a] + (seq![cs[0]] + cs.drop_first()) =~= seq![a] + cs);
    }
}

proof fn lemma_word_tail_plain(s: Seq<char>)
    requires
        forall|k: int| 0 <= k < s.len() ==> !crate::text::is_ws(#[trigger] s[k]),
    ensures
        crate::toolchain::css::word_tail(s) == s,
    decreases s.len(),
{
    if s.len() > 0 {
        lemma_word_tail_plain(s.drop_last());
        assert(s.drop_last().push(s.last()) =~= s);
    }
}

/// A selector written as a tag (possibly empty or `*`), classes and an
/// optional id matches an element exactly when the tag is empty, `*` or
/// the element's, every class is one of the element's, and the id, if
/// given, is the element's.
pub proof fn law_simple_selector_match(
    t: Seq<char>,
    cs: Seq<Seq<char>>,
    i: Option<Seq<char>>,
    tag: Seq<char>,
    classes: Seq<Seq<char>>,
    id: Option<Seq<char>>,
)
    requires
        plain_word(t),
        forall|k: int| 0 <= k < cs.len() ==> plain_word(#[trigger] cs[k]) && cs[k].len() > 0,
        i matches Some(x) ==> plain_word(x) && x.len() > 0,
        (t + dotted(cs) + with_id(i)).len() > 0,
    ensures
        crate::toolchain::css::simple_match_spec(t + dotted(cs) + with_id(i), tag, classes, id) == (
        (t.len() == 0 || t == tag || t == seq!['*']) && (forall|k: int| 0 <= k < cs.len() ==> classes.contains(
            #[trigger] cs[k],
        )) && (i matches Some(x) ==> id == Some(x))),
{
    let body = t + dotted(cs);
    let sel = body + with_id(i);
    lemma_dotted_chars(cs);
    assert forall|k: int| 0 <= k < body.len() implies body[k] != '#' && !crate::text::is_ws(#[trigger] body[k]) by {
        if k >= t.len() {
            assert(body[k] == dotted(cs)[k - t.len()]);
        }
    }
    assert forall|k: int| 0 <= k < sel.len() implies !crate::text::is_ws(#[trigger] sel[k]) by {
        if k >= body.len() {
            if let Some(x) = i {
                if k > body.len() {
                    assert(sel[k] == x[k - body.len() - 1]);
                }
            }
        }
    }
    assert(!crate::text::is_ws(sel[0]));
    assert(crate::text::trim_start(sel) == sel);
    assert(!crate::text::is_ws(sel.last()));
    assert(crate::text::trim_end(sel) == sel);
    assert(trim(sel) == sel);
    lemma_word_tail_plain(sel);
    lemma_split_dotted(t, cs);
    match i {
        Some(x) => {
            assert(sel =~= body + seq!['#'] + x);
            lemma_find_at(body, '#', x);
            assert(sel.take(body.len() as int) =~= body);
            assert(sel.skip(body.len() as int + 1) =~= x);
        },
        None => {
            assert(sel =~= body);
            lemma_find_none(body, '#');
        },
    }
    let pieces = seq![t] + cs;
    assert(trim(t) == t) by {
        if t.len() > 0 {
            assert(!crate::text::is_ws(t[0]));
            assert(!crate::text::is_ws(t.last()));
        }
    }
    assert forall|k: int| 0 <= k < cs.len() implies trim(#[trigger] cs[k]) == cs[k] by {
        assert(plain_word(cs[k]));
        assert(!crate::text::is_ws(cs[k][0]));
        assert(!crate::text::is_ws(cs[k].last()));
    }
    if sel == seq!['*'] {
        assert(t.len() > 0) by {
            if t.len() == 0 {
                if cs.len() > 0 {
                    assert(sel[0] == dotted(cs)[0]);
                } else {
                    assert(sel[0] == '#');
                }
            }
        }
        assert(dotted(cs).len() == 0 && with_id(i).len() == 0);
        assert(cs.len() == 0);
        assert(t =~= seq!['*']);
    } else {
        assert(crate::toolchain::css::classes_listed(pieces, classes) == (forall|k: int|
            0 <= k < cs.len() ==> classes.contains(#[trigger] cs[k]))) by {
            if crate::toolchain::css::classes_listed(pieces, classes) {
                assert forall|k: int| 0 <= k < cs.len() implies classes.contains(#[trigger] cs[k]) by {
                    assert(pieces[k + 1] == cs[k]);
                }
            }
            if forall|k: int| 0 <= k < cs.len() ==> classes.contains(#[trigger] cs[k]) {
                assert forall|k: int| 1 <= k < pieces.len() && trim(#[trigger] pieces[k]).len() > 0 implies classes.contains(trim(pieces[k])) by {
                    assert(pieces[k] == cs[k - 1]);
                }
            }
        }
    }
}

} // verus!
