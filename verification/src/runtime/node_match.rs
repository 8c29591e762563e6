//! Matching complex selectors against the nodes of a document, from the
//! rightmost compound selector leftwards.
use vstd::prelude::*;

use super::dom_node::{kv_get, opt_chars, DomNode, NodeV};
use super::node_id::NodeId;
use super::registry::{first_index, index_of_child, DomRegistry};
use crate::text::{
    chars_of, eq_chars, find_seq, find_seq_in, has_string, lemma_find_seq, lemma_find_seq_occurs,
    strs,
};
use crate::toolchain::css::words_exec;
use super::selector_match::{
    nth_spec, view_basic, view_complex, view_complexes, view_parts, view_pseudo, view_segment,
    view_segments, AttrOp, BasicSelector, BasicSelectorV, Combinator, ComplexSelector, ComplexV,
    PseudoClass, PseudoClassV, SegmentV, SelectSegment,
};
use crate::text::{contains_seq, ends_with, starts_with};
use crate::toolchain::css::words;

verus! {

// ═══════════════════════ moving through the tree ═══════════════════════

/// The parent of the node `id`.
pub open spec fn parent_of(nodes: Seq<(NodeId, NodeV)>, id: NodeId) -> Option<NodeId> {
    match kv_get(nodes, id) {
        Some(n) => n.parent,
        None => None,
    }
}

/// Whether `id` names an element of the document.
pub open spec fn is_elem(nodes: Seq<(NodeId, NodeV)>, id: NodeId) -> bool {
    match kv_get(nodes, id) {
        Some(n) => n.tag is Some,
        None => false,
    }
}

/// The last element among the first `k` of `kids`.
pub open spec fn last_elem_before(nodes: Seq<(NodeId, NodeV)>, kids: Seq<NodeId>, k: int) -> Option<
    NodeId,
>
    decreases k,
{
    if k <= 0 || k > kids.len() {
        None
    } else if is_elem(nodes, kids[k - 1]) {
        Some(kids[k - 1])
    } else {
        last_elem_before(nodes, kids, k - 1)
    }
}

/// The element just before the node `id` among its parent's children.
pub open spec fn prev_elem(nodes: Seq<(NodeId, NodeV)>, id: NodeId) -> Option<NodeId> {
    match parent_of(nodes, id) {
        None => None,
        Some(p) => match kv_get(nodes, p) {
            None => None,
            Some(pn) => {
                let i = first_index(pn.children, id);
                if i < 0 {
                    None
                } else {
                    last_elem_before(nodes, pn.children, i)
                }
            },
        },
    }
}

/// Where a combinator leads from `id`: the parent for a child or
/// descendant combinator, the previous element for a sibling one.
pub open spec fn step(nodes: Seq<(NodeId, NodeV)>, c: Combinator, id: NodeId) -> Option<NodeId> {
    match c {
        Combinator::Child | Combinator::Descendant => parent_of(nodes, id),
        Combinator::Adjacent | Combinator::Sibling => prev_elem(nodes, id),
    }
}

// ═══════════════════════ positions among siblings ═══════════════════════

/// Whether a child counts when positions are taken: any element when
/// `ty` is `None`, else an element whose tag is the one `ty` holds.
pub open spec fn counts(c: NodeV, ty: Option<Option<Seq<char>>>) -> bool {
    c.tag is Some && match ty {
        None => true,
        Some(t) => c.tag == t,
    }
}

/// The position of `id` among the counted children `kids[j..]`, given
/// `pos` counted before `j`; the count of all when `id` is not counted.
pub open spec fn pos_from(
    nodes: Seq<(NodeId, NodeV)>,
    kids: Seq<NodeId>,
    j: int,
    id: NodeId,
    ty: Option<Option<Seq<char>>>,
    pos: int,
) -> int
    decreases kids.len() - j,
{
    if j < 0 || j >= kids.len() {
        pos
    } else {
        match kv_get(nodes, kids[j]) {
            Some(c) => if counts(c, ty) {
                if kids[j] == id {
                    pos + 1
                } else {
                    pos_from(nodes, kids, j + 1, id, ty, pos + 1)
                }
            } else {
                pos_from(nodes, kids, j + 1, id, ty, pos)
            },
            None => pos_from(nodes, kids, j + 1, id, ty, pos),
        }
    }
}

/// The position of the node `id` among the counted children of its
/// parent, from the first (`reverse` false) or from the last; 1 for a node
/// without a parent.
pub open spec fn sibling_pos(
    nodes: Seq<(NodeId, NodeV)>,
    n: NodeV,
    id: NodeId,
    ty: Option<Option<Seq<char>>>,
    reverse: bool,
) -> int {
    match n.parent {
        None => 1,
        Some(p) => match kv_get(nodes, p) {
            None => 1,
            Some(pn) => pos_from(
                nodes,
                if reverse {
                    pn.children.reverse()
                } else {
                    pn.children
                },
                0,
                id,
                ty,
                0,
            ),
        },
    }
}

/// The last element among the first `k` children whose tag is `tag`.
pub open spec fn last_of_type_before(
    nodes: Seq<(NodeId, NodeV)>,
    kids: Seq<NodeId>,
    k: int,
    tag: Option<Seq<char>>,
) -> Option<NodeV>
    decreases k,
{
    if k <= 0 || k > kids.len() {
        None
    } else {
        match kv_get(nodes, kids[k - 1]) {
            Some(c) => if c.tag is Some && c.tag == tag {
                Some(c)
            } else {
                last_of_type_before(nodes, kids, k - 1, tag)
            },
            None => last_of_type_before(nodes, kids, k - 1, tag),
        }
    }
}

/// Whether the node is the last child of its type: true without a parent,
/// or when no child has its type.
pub open spec fn last_of_type(nodes: Seq<(NodeId, NodeV)>, n: NodeV, id: NodeId) -> bool {
    match n.parent {
        None => true,
        Some(p) => match kv_get(nodes, p) {
            None => true,
            Some(pn) => match last_of_type_before(nodes, pn.children, pn.children.len() as int, n.tag) {
                Some(c) => c.node_id == id,
                None => true,
            },
        },
    }
}

/// Whether the node is the first of its parent's children.
pub open spec fn first_child(nodes: Seq<(NodeId, NodeV)>, n: NodeV, id: NodeId) -> bool {
    match n.parent {
        None => false,
        Some(p) => match kv_get(nodes, p) {
            None => false,
            Some(pn) => pn.children.len() > 0 && pn.children[0] == id,
        },
    }
}

/// Whether the node is the last of its parent's children.
pub open spec fn last_child(nodes: Seq<(NodeId, NodeV)>, n: NodeV, id: NodeId) -> bool {
    match n.parent {
        None => false,
        Some(p) => match kv_get(nodes, p) {
            None => false,
            Some(pn) => pn.children.len() > 0 && pn.children.last() == id,
        },
    }
}

/// Whether the parent has exactly one child.
pub open spec fn only_child(nodes: Seq<(NodeId, NodeV)>, n: NodeV) -> bool {
    match n.parent {
        None => false,
        Some(p) => match kv_get(nodes, p) {
            None => false,
            Some(pn) => pn.children.len() == 1,
        },
    }
}

// ═══════════════════════ simple selectors ═══════════════════════

/// An attribute selector against an element.
pub open spec fn attr_matches(n: NodeV, name: Seq<char>, op: AttrOp, value: Seq<char>) -> bool {
    if n.tag is None {
        false
    } else {
        let v = kv_get(n.attrs, name);
        match op {
            AttrOp::Has => v is Some,
            AttrOp::Exact => v == Some(value),
            AttrOp::Contains => v matches Some(x) && contains_seq(x, value),
            AttrOp::StartsWith => v matches Some(x) && starts_with(x, value),
            AttrOp::EndsWith => v matches Some(x) && ends_with(x, value),
            AttrOp::WordMatch => v matches Some(x) && words(x).contains(value),
            AttrOp::HyphenMatch => v matches Some(x) && (x == value || starts_with(
                x,
                value.push('-'),
            )),
        }
    }
}

/// Whether some attribute is `(name, value)`.
pub open spec fn has_attr_pair(n: NodeV, name: Seq<char>, value: Seq<char>) -> bool {
    exists|i: int| 0 <= i < n.attrs.len() && #[trigger] n.attrs[i] == (name, value)
}

/// The budget of a match of `c`: the nodes and the segments, which the
/// walk left and up through a tree of these nodes never uses up.
pub open spec fn match_fuel(nodes: Seq<(NodeId, NodeV)>, c: ComplexV) -> nat {
    (nodes.len() + c.segments.len() + 1) as nat
}

// ═══════════════════════ complex selectors ═══════════════════════

/// Whether the selector matches the node `id`: its segments tried from the
/// rightmost one, following each combinator left.
pub open spec fn sel_matches(nodes: Seq<(NodeId, NodeV)>, c: ComplexV, id: NodeId) -> bool
    decreases c, 0nat, 0nat,
{
    if c.segments.len() == 0 {
        false
    } else {
        walk(nodes, c.segments, c.segments.len() as int, Some(id), match_fuel(nodes, c))
    }
}

/// The walk, with `idx` segments left to match and `cur` the node to try.
pub open spec fn walk(
    nodes: Seq<(NodeId, NodeV)>,
    segs: Seq<SegmentV>,
    idx: int,
    cur: Option<NodeId>,
    fuel: nat,
) -> bool
    decreases segs, fuel, 1nat,
{
    if fuel == 0 {
        false
    } else if idx <= 0 || idx > segs.len() {
        idx == 0
    } else {
        let si = idx - 1;
        match cur {
            None => false,
            Some(id) => if !seg_matches(nodes, segs[si], id) {
                false
            } else if si == 0 {
                true
            } else {
                let comb = segs[si].combinator;
                let nxt = step(nodes, comb, id);
                match comb {
                    Combinator::Descendant | Combinator::Sibling => scan(
                        nodes,
                        segs,
                        si,
                        comb,
                        nxt,
                        fuel,
                    ),
                    _ => walk(nodes, segs, si, nxt, (fuel - 1) as nat),
                }
            },
        }
    }
}

/// The search left or up for a node that matches the segment before
/// `si`; the walk goes on from the first one found.
pub open spec fn scan(
    nodes: Seq<(NodeId, NodeV)>,
    segs: Seq<SegmentV>,
    si: int,
    comb: Combinator,
    cur: Option<NodeId>,
    fuel: nat,
) -> bool
    decreases segs, fuel, 0nat,
{
    if fuel == 0 || si <= 0 || si > segs.len() {
        false
    } else {
        match cur {
            None => false,
            Some(cid) => if seg_matches(nodes, segs[si - 1], cid) {
                walk(nodes, segs, si - 1, Some(cid), (fuel - 1) as nat)
            } else {
                scan(nodes, segs, si, comb, step(nodes, comb, cid), (fuel - 1) as nat)
            },
        }
    }
}

/// Whether a compound selector matches the node `id`: an element with
/// every part matching.
pub open spec fn seg_matches(nodes: Seq<(NodeId, NodeV)>, seg: SegmentV, id: NodeId) -> bool
    decreases seg, 0nat, 0nat,
{
    match kv_get(nodes, id) {
        None => false,
        Some(n) => n.tag is Some && parts_from(nodes, seg.parts, 0, n, id),
    }
}

/// Whether the parts from `i` on match.
pub open spec fn parts_from(
    nodes: Seq<(NodeId, NodeV)>,
    parts: Seq<BasicSelectorV>,
    i: int,
    n: NodeV,
    id: NodeId,
) -> bool
    decreases parts, 0nat, parts.len() - i,
{
    if i < 0 || i >= parts.len() {
        true
    } else {
        part_matches(nodes, parts[i], n, id) && parts_from(nodes, parts, i + 1, n, id)
    }
}

/// Whether one simple selector matches.
pub open spec fn part_matches(nodes: Seq<(NodeId, NodeV)>, p: BasicSelectorV, n: NodeV, id: NodeId) -> bool
    decreases p, 0nat, 0nat,
{
    match p {
        BasicSelectorV::Tag(t) => n.tag == Some(t),
        BasicSelectorV::Id(x) => n.id == Some(x),
        BasicSelectorV::Class(c) => n.classes.contains(c),
        BasicSelectorV::Universal => true,
        BasicSelectorV::Attribute { name, op, value } => attr_matches(n, name, op, value),
        BasicSelectorV::PseudoClass(pc) => pseudo_matches(nodes, pc, n, id),
        BasicSelectorV::PseudoElement(_) => true,
    }
}

/// Whether some selector of `l` from `i` on matches.
pub open spec fn any_from(nodes: Seq<(NodeId, NodeV)>, l: Seq<ComplexV>, i: int, id: NodeId) -> bool
    decreases l, 0nat, l.len() - i,
{
    if i < 0 || i >= l.len() {
        false
    } else {
        sel_matches(nodes, l[i], id) || any_from(nodes, l, i + 1, id)
    }
}

/// Whether a node below `id` (children first, then what is below each)
/// matches `c`, at most `fuel` levels down.
pub open spec fn has_desc(nodes: Seq<(NodeId, NodeV)>, id: NodeId, c: ComplexV, fuel: nat) -> bool
    decreases c, fuel, 0nat,
{
    if fuel == 0 {
        false
    } else {
        match kv_get(nodes, id) {
            None => false,
            Some(n) => has_from(nodes, n.children, 0, c, (fuel - 1) as nat),
        }
    }
}

/// Whether a child among `kids[i..]`, or a node below it, matches `c`.
pub open spec fn has_from(
    nodes: Seq<(NodeId, NodeV)>,
    kids: Seq<NodeId>,
    i: int,
    c: ComplexV,
    fuel: nat,
) -> bool
    decreases c, fuel, kids.len() - i + 1,
{
    if i < 0 || i >= kids.len() {
        false
    } else {
        sel_matches(nodes, c, kids[i]) || has_desc(nodes, kids[i], c, fuel) || has_from(
            nodes,
            kids,
            i + 1,
            c,
            fuel,
        )
    }
}

/// Whether a pseudo-class matches. The states that this document does not
/// track (hover, focus, form states and the like) always match.
pub open spec fn pseudo_matches(nodes: Seq<(NodeId, NodeV)>, pc: PseudoClassV, n: NodeV, id: NodeId) -> bool
    decreases pc, 0nat, 0nat,
{
    match pc {
        PseudoClassV::Root => n.parent is None,
        PseudoClassV::Empty => n.children.len() == 0,
        PseudoClassV::FirstChild => first_child(nodes, n, id),
        PseudoClassV::LastChild => last_child(nodes, n, id),
        PseudoClassV::OnlyChild => only_child(nodes, n),
        PseudoClassV::FirstOfType => sibling_pos(nodes, n, id, Some(n.tag), false) == 1,
        PseudoClassV::LastOfType => last_of_type(nodes, n, id),
        PseudoClassV::OnlyOfType => sibling_pos(nodes, n, id, Some(n.tag), false) == 1
            && last_of_type(nodes, n, id),
        PseudoClassV::NthChild(a, b) => nth_spec(sibling_pos(nodes, n, id, None, false), a as int, b as int),
        PseudoClassV::NthLastChild(a, b) => nth_spec(
            sibling_pos(nodes, n, id, None, true),
            a as int,
            b as int,
        ),
        PseudoClassV::NthOfType(a, b) => nth_spec(
            sibling_pos(nodes, n, id, Some(Some(tag_or_empty(n.tag))), false),
            a as int,
            b as int,
        ),
        PseudoClassV::NthLastOfType(a, b) => nth_spec(
            sibling_pos(nodes, n, id, Some(Some(tag_or_empty(n.tag))), true),
            a as int,
            b as int,
        ),
        PseudoClassV::Not(inner) => !sel_matches(nodes, *inner, id),
        PseudoClassV::Is(l) => any_from(nodes, l, 0, id),
        PseudoClassV::Where(l) => any_from(nodes, l, 0, id),
        PseudoClassV::Has(inner) => has_desc(nodes, id, *inner, (nodes.len() + 1) as nat),
        PseudoClassV::Lang(l) => has_attr_pair(n, "lang"@, l),
        PseudoClassV::Dir(d) => has_attr_pair(n, "dir"@, d),
        _ => true,
    }
}

/// The tag, or the empty string for a text node.
pub open spec fn tag_or_empty(t: Option<Seq<char>>) -> Seq<char> {
    match t {
        Some(x) => x,
        None => seq![],
    }
}


// ═══════════════════════ executable helpers ═══════════════════════

/// The parent of `id`.
fn parent_exec(reg: &DomRegistry, id: NodeId) -> (r: Option<NodeId>)
    ensures
        r == parent_of(reg@.nodes, id),
{
    match reg.allNodes.get(&id) {
        Some(n) => n.parentNode,
        None => None,
    }
}

/// Whether `id` names an element.
fn is_elem_exec(reg: &DomRegistry, id: NodeId) -> (r: bool)
    ensures
        r == is_elem(reg@.nodes, id),
{
    match reg.allNodes.get(&id) {
        Some(n) => n.is_element(),
        None => false,
    }
}

/// The element just before `id` among its parent's children.
fn prev_sibling_element(reg: &DomRegistry, id: NodeId) -> (r: Option<NodeId>)
    ensures
        r == prev_elem(reg@.nodes, id),
{
    let p = match parent_exec(reg, id) {
        Some(p) => p,
        None => {
            return None;
        },
    };
    let parent = match reg.allNodes.get(&p) {
        Some(x) => x,
        None => {
            return None;
        },
    };
    let kids = &parent.childNodes;
    let my_pos = match index_of_child(kids, id) {
        Some(i) => i,
        None => {
            return None;
        },
    };
    let mut k: usize = my_pos;
    while k > 0
        invariant
            k <= my_pos < kids@.len(),
            parent_of(reg@.nodes, id) == Some(p),
            kv_get(reg@.nodes, p) == Some(parent@),
            kids@ == parent@.children,
            first_index(kids@, id) == my_pos,
            last_elem_before(reg@.nodes, kids@, my_pos as int) == last_elem_before(reg@.nodes, kids@, k as int),
        decreases k,
    {
        if is_elem_exec(reg, kids[k - 1]) {
            return Some(kids[k - 1]);
        }
        k -= 1;
    }
    None
}

/// Where a combinator leads from `id`.
fn step_exec(reg: &DomRegistry, c: Combinator, id: NodeId) -> (r: Option<NodeId>)
    ensures
        r == step(reg@.nodes, c, id),
{
    match c {
        Combinator::Child | Combinator::Descendant => parent_exec(reg, id),
        Combinator::Adjacent | Combinator::Sibling => prev_sibling_element(reg, id),
    }
}

/// Whether two optional strings are equal.
fn opt_eq(a: &Option<String>, b: &Option<String>) -> (r: bool)
    ensures
        r == (opt_chars(*a) == opt_chars(*b)),
{
    match (a, b) {
        (Some(x), Some(y)) => crate::text::eq_str(x.as_str(), y.as_str()),
        (None, None) => true,
        _ => false,
    }
}

/// The filter of a position count, as values.
pub open spec fn ty_view(ty: Option<&Option<String>>) -> Option<Option<Seq<char>>> {
    match ty {
        None => None,
        Some(t) => Some(opt_chars(*t)),
    }
}

/// Whether a child counts for a position.
fn counts_exec(c: &DomNode, ty: Option<&Option<String>>) -> (r: bool)
    ensures
        r == counts(c@, ty_view(ty)),
{
    c.is_element() && match ty {
        None => true,
        Some(t) => opt_eq(&c.tagName, t),
    }
}

/// The position of `node_id` among its counted siblings.
fn sibling_position(
    reg: &DomRegistry,
    node: &DomNode,
    node_id: NodeId,
    ty: Option<&Option<String>>,
    reverse: bool,
) -> (r: u64)
    ensures
        r as int == sibling_pos(reg@.nodes, node@, node_id, ty_view(ty), reverse),
{
    let p = match node.parentNode {
        Some(p) => p,
        None => {
            return 1;
        },
    };
    let parent = match reg.allNodes.get(&p) {
        Some(x) => x,
        None => {
            return 1;
        },
    };
    let kids = &parent.childNodes;
    let n = kids.len();
    let ghost order = if reverse {
        kids@.reverse()
    } else {
        kids@
    };
    let ghost tv = ty_view(ty);
    let mut j: usize = 0;
    let mut pos: u64 = 0;
    while j < n
        invariant
            j <= n == kids@.len() == order.len(),
            pos <= j,
            order == if reverse {
                kids@.reverse()
            } else {
                kids@
            },
            tv == ty_view(ty),
            node@.parent == Some(p),
            kv_get(reg@.nodes, p) == Some(parent@),
            kids@ == parent@.children,
            pos_from(reg@.nodes, order, 0, node_id, tv, 0) == pos_from(
                reg@.nodes,
                order,
                j as int,
                node_id,
                tv,
                pos as int,
            ),
        decreases n - j,
    {
        let cid = if reverse {
            kids[n - 1 - j]
        } else {
            kids[j]
        };
        assert(cid == order[j as int]);
        match reg.allNodes.get(&cid) {
            Some(c) => {
                if counts_exec(c, ty) {
                    pos = pos + 1;
                    if cid == node_id {
                        return pos;
                    }
                }
            },
            None => {},
        }
        j += 1;
    }
    pos
}

/// Whether `node` is the last child of its type.
fn is_last_of_type(reg: &DomRegistry, node: &DomNode, node_id: NodeId) -> (r: bool)
    ensures
        r == last_of_type(reg@.nodes, node@, node_id),
{
    let p = match node.parentNode {
        Some(p) => p,
        None => {
            return true;
        },
    };
    let parent = match reg.allNodes.get(&p) {
        Some(x) => x,
        None => {
            return true;
        },
    };
    let kids = &parent.childNodes;
    let mut k: usize = kids.len();
    while k > 0
        invariant
            k <= kids@.len(),
            node@.parent == Some(p),
            kv_get(reg@.nodes, p) == Some(parent@),
            kids@ == parent@.children,
            last_of_type_before(reg@.nodes, kids@, kids@.len() as int, node@.tag) == last_of_type_before(
                reg@.nodes,
                kids@,
                k as int,
                node@.tag,
            ),
        decreases k,
    {
        if let Some(c) = reg.allNodes.get(&kids[k - 1]) {
            if c.is_element() && opt_eq(&c.tagName, &node.tagName) {
                return c.nodeId == node_id;
            }
        }
        k -= 1;
    }
    true
}

/// Whether position `pos` is of the form `a*n + b`.
fn nth_at(pos: u64, a: i32, b: i32) -> (r: bool)
    ensures
        r == nth_spec(pos as int, a as int, b as int),
{
    let p = pos as i128;
    let bb = b as i128;
    if a == 0 {
        return p == bb;
    }
    if p < bb {
        return false;
    }
    let m: i128 = if a < 0 {
        -(a as i128)
    } else {
        a as i128
    };
    (p - bb) % m == 0
}

/// Whether `s` starts with `p`.
fn starts_with_chars(s: &Vec<char>, p: &Vec<char>) -> (r: bool)
    ensures
        r == starts_with(s@, p@),
{
    if p.len() > s.len() {
        return false;
    }
    let mut i: usize = 0;
    while i < p.len()
        invariant
            p@.len() <= s@.len(),
            i <= p@.len(),
            forall|j: int| 0 <= j < i ==> s@[j] == p@[j],
        decreases p@.len() - i,
    {
        if s[i] != p[i] {
            assert(s@.take(p@.len() as int)[i as int] != p@[i as int]);
            return false;
        }
        i += 1;
    }
    assert(s@.take(p@.len() as int) =~= p@);
    true
}

/// Whether `s` ends with `p`.
fn ends_with_chars(s: &Vec<char>, p: &Vec<char>) -> (r: bool)
    ensures
        r == ends_with(s@, p@),
{
    let n = s.len();
    let m = p.len();
    if m > n {
        return false;
    }
    let off = n - m;
    let mut i: usize = 0;
    while i < m
        invariant
            m == p@.len() <= n == s@.len(),
            off == n - m,
            i <= m,
            forall|j: int| 0 <= j < i ==> s@[off + j] == p@[j],
        decreases m - i,
    {
        if s[off + i] != p[i] {
            assert(s@.skip(off as int)[i as int] != p@[i as int]);
            return false;
        }
        i += 1;
    }
    assert(s@.skip(off as int) =~= p@);
    true
}

/// The value of the first attribute named `name`.
fn attr_value<'a>(node: &'a DomNode, name: &str) -> (r: Option<&'a String>)
    ensures
        match r {
            Some(v) => kv_get(node@.attrs, name@) == Some(v@),
            None => kv_get(node@.attrs, name@) is None,
        },
{
    let n = node.attrs.len();
    let ghost s = node@.attrs;
    let mut i: usize = 0;
    while i < n
        invariant
            i <= n == node.attrs@.len() == s.len(),
            s == node@.attrs,
            forall|j: int| 0 <= j < i ==> #[trigger] s[j].0 != name@,
        decreases n - i,
    {
        if crate::text::eq_str(node.attrs[i].0.as_str(), name) {
            proof {
                super::dom_node::lemma_kv_pos_at(s, name@, i as int);
                assert(s[i as int].1 == node.attrs@[i as int].1@);
            }
            return Some(&node.attrs[i].1);
        }
        i += 1;
    }
    proof {
        super::dom_node::lemma_kv_pos_none(s, name@);
    }
    None
}

/// An attribute selector against a node.
fn attribute_matches(node: &DomNode, name: &str, op: AttrOp, value: &str) -> (r: bool)
    ensures
        r == attr_matches(node@, name@, op, value@),
{
    if !node.is_element() {
        return false;
    }
    let v = attr_value(node, name);
    let val = chars_of(value);
    match op {
        AttrOp::Has => v.is_some(),
        AttrOp::Exact => match v {
            Some(x) => crate::text::eq_str(x.as_str(), value),
            None => false,
        },
        AttrOp::Contains => match v {
            Some(x) => {
                let xc = chars_of(x.as_str());
                let f = find_seq_in(&xc, &val);
                proof {
                    lemma_find_seq(xc@, val@);
                    if contains_seq(xc@, val@) {
                        let i = choose|i: int|
                            0 <= i <= xc@.len() - val@.len() && #[trigger] xc@.subrange(i, i + val@.len()) == val@;
                        lemma_find_seq_occurs(xc@, val@, i);
                    }
                    if let Some(i) = find_seq(xc@, val@) {
                        assert(xc@.subrange(i, i + val@.len()) == val@);
                    }
                }
                f.is_some()
            },
            None => false,
        },
        AttrOp::StartsWith => match v {
            Some(x) => starts_with_chars(&chars_of(x.as_str()), &val),
            None => false,
        },
        AttrOp::EndsWith => match v {
            Some(x) => ends_with_chars(&chars_of(x.as_str()), &val),
            None => false,
        },
        AttrOp::WordMatch => match v {
            Some(x) => {
                let ws = words_exec(&chars_of(x.as_str()));
                assert(strs(ws@) =~= crate::toolchain::css::words(x@));
                has_string(ws.as_slice(), &val)
            },
            None => false,
        },
        AttrOp::HyphenMatch => match v {
            Some(x) => {
                let xc = chars_of(x.as_str());
                if eq_chars(&xc, &val) {
                    true
                } else {
                    let mut pre = val.clone();
                    pre.push('-');
                    assert(pre@ =~= val@.push('-'));
                    starts_with_chars(&xc, &pre)
                }
            },
            None => false,
        },
    }
}

/// Whether some attribute is `(name, value)`.
fn has_attr_pair_exec(node: &DomNode, name: &str, value: &String) -> (r: bool)
    ensures
        r == has_attr_pair(node@, name@, value@),
{
    let n = node.attrs.len();
    let mut i: usize = 0;
    while i < n
        invariant
            i <= n == node.attrs@.len(),
            forall|j: int| 0 <= j < i ==> #[trigger] node@.attrs[j] != (name@, value@),
        decreases n - i,
    {
        if crate::text::eq_str(node.attrs[i].0.as_str(), name) && crate::text::eq_str(
            node.attrs[i].1.as_str(),
            value.as_str(),
        ) {
            assert(node@.attrs[i as int] == (name@, value@));
            return true;
        }
        i += 1;
    }
    false
}


// ═══════════════════════ views, element by element ═══════════════════════

pub proof fn lemma_view_segments_at(s: Seq<SelectSegment>)
    ensures
        view_segments(s).len() == s.len(),
        forall|i: int| 0 <= i < s.len() ==> #[trigger] view_segments(s)[i] == view_segment(s[i]),
    decreases s.len(),
{
    if s.len() > 0 {
        lemma_view_segments_at(s.drop_last());
        assert forall|i: int| 0 <= i < s.len() implies #[trigger] view_segments(s)[i] == view_segment(
            s[i],
        ) by {
            if i < s.len() - 1 {
                assert(s.drop_last()[i] == s[i]);
            }
        }
    }
}

pub proof fn lemma_view_parts_at(s: Seq<BasicSelector>)
    ensures
        view_parts(s).len() == s.len(),
        forall|i: int| 0 <= i < s.len() ==> #[trigger] view_parts(s)[i] == view_basic(s[i]),
    decreases s.len(),
{
    if s.len() > 0 {
        lemma_view_parts_at(s.drop_last());
        assert forall|i: int| 0 <= i < s.len() implies #[trigger] view_parts(s)[i] == view_basic(s[i]) by {
            if i < s.len() - 1 {
                assert(s.drop_last()[i] == s[i]);
            }
        }
    }
}

pub proof fn lemma_view_complexes_at(s: Seq<ComplexSelector>)
    ensures
        view_complexes(s).len() == s.len(),
        forall|i: int| 0 <= i < s.len() ==> #[trigger] view_complexes(s)[i] == view_complex(s[i]),
    decreases s.len(),
{
    if s.len() > 0 {
        lemma_view_complexes_at(s.drop_last());
        assert forall|i: int| 0 <= i < s.len() implies #[trigger] view_complexes(s)[i] == view_complex(
            s[i],
        ) by {
            if i < s.len() - 1 {
                assert(s.drop_last()[i] == s[i]);
            }
        }
    }
}

// ═══════════════════════ matching ═══════════════════════

/// Matching a selector against a node of a document.
pub trait SelectorMatchExt {
    /// Whether the selector matches the node `node_id`.
    fn matches(&self, registry: &DomRegistry, node_id: NodeId) -> bool;
}

impl SelectorMatchExt for ComplexSelector {
    /// Whether the selector matches the node `node_id`: the rightmost
    /// compound selector must match it, then each combinator leads left
    /// (to the parent, an ancestor, the previous element or an earlier
    /// one) to a node that the compound selector before it matches.
    fn matches(&self, registry: &DomRegistry, node_id: NodeId) -> (r: bool)
        ensures
            r == sel_matches(registry@.nodes, view_complex(*self), node_id),
        decreases *self, 0nat, 1nat,
    {
        let n = self.segments.len();
        if n == 0 {
            return false;
        }
        let ghost nodes = registry@.nodes;
        let ghost c = view_complex(*self);
        let ghost segs = c.segments;
        proof {
            lemma_view_segments_at(self.segments@);
        }
        let mut fuel: u128 = registry.allNodes.len() as u128 + n as u128 + 1;
        let mut cur: Option<NodeId> = Some(node_id);
        let mut idx: usize = n;
        loop
            invariant
                idx <= n == self.segments@.len() == segs.len(),
                segs == view_segments(self.segments@),
                nodes == registry@.nodes,
                c == view_complex(*self),
                forall|i: int| 0 <= i < n ==> #[trigger] segs[i] == view_segment(self.segments@[i]),
                walk(nodes, segs, idx as int, cur, fuel as nat) == sel_matches(nodes, c, node_id),
            decreases fuel,
        {
            if fuel == 0 {
                return false;
            }
            if idx == 0 {
                return true;
            }
            let si = idx - 1;
            let id = match cur {
                Some(i) => i,
                None => {
                    return false;
                },
            };
            if !seg_matches_exec(&self.segments[si], registry, id) {
                return false;
            }
            if si == 0 {
                return true;
            }
            let comb = self.segments[si].combinator;
            let nxt = step_exec(registry, comb, id);
            match comb {
                Combinator::Descendant | Combinator::Sibling => {
                    match scan_exec(self, registry, si, comb, nxt, fuel) {
                        Some((cid, f)) => {
                            idx = si - 1;
                            cur = Some(cid);
                            fuel = f;
                        },
                        None => {
                            return false;
                        },
                    }
                },
                _ => {
                    idx = si;
                    cur = nxt;
                    fuel = fuel - 1;
                },
            }
        }
    }
}

/// The search left or up for a node that matches the segment before
/// `si`: the node found and the fuel left, or nothing when the walk fails.
fn scan_exec(
    sel: &ComplexSelector,
    registry: &DomRegistry,
    si: usize,
    comb: Combinator,
    start: Option<NodeId>,
    fuel: u128,
) -> (r: Option<(NodeId, u128)>)
    requires
        0 < si < sel.segments@.len(),
    ensures
        match r {
            Some((cid, f)) => f < fuel && scan(
                registry@.nodes,
                view_segments(sel.segments@),
                si as int,
                comb,
                start,
                fuel as nat,
            ) == walk(registry@.nodes, view_segments(sel.segments@), si - 1, Some(cid), f as nat),
            None => !scan(
                registry@.nodes,
                view_segments(sel.segments@),
                si as int,
                comb,
                start,
                fuel as nat,
            ),
        },
    decreases *sel, 0nat, 0nat,
{
    let ghost nodes = registry@.nodes;
    let ghost segs = view_segments(sel.segments@);
    proof {
        lemma_view_segments_at(sel.segments@);
    }
    let mut f = fuel;
    let mut cur = start;
    while f > 0
        invariant
            0 < si < sel.segments@.len() == segs.len(),
            segs == view_segments(sel.segments@),
            nodes == registry@.nodes,
            forall|i: int| 0 <= i < segs.len() ==> #[trigger] segs[i] == view_segment(sel.segments@[i]),
            f <= fuel,
            scan(nodes, segs, si as int, comb, cur, f as nat) == scan(
                nodes,
                segs,
                si as int,
                comb,
                start,
                fuel as nat,
            ),
        decreases f,
    {
        let cid = match cur {
            Some(x) => x,
            None => {
                return None;
            },
        };
        if seg_matches_exec(&sel.segments[si - 1], registry, cid) {
            return Some((cid, f - 1));
        }
        cur = step_exec(registry, comb, cid);
        f = f - 1;
    }
    None
}

/// Whether a compound selector matches the node `id`.
fn seg_matches_exec(seg: &SelectSegment, registry: &DomRegistry, id: NodeId) -> (r: bool)
    ensures
        r == seg_matches(registry@.nodes, view_segment(*seg), id),
    decreases *seg, 0nat, 0nat,
{
    let node = match registry.allNodes.get(&id) {
        Some(n) => n,
        None => {
            return false;
        },
    };
    if !node.is_element() {
        return false;
    }
    let ghost parts = view_segment(*seg).parts;
    proof {
        lemma_view_parts_at(seg.parts@);
    }
    let n = seg.parts.len();
    let mut i: usize = 0;
    while i < n
        invariant
            i <= n == seg.parts@.len() == parts.len(),
            parts == view_parts(seg.parts@),
            forall|k: int| 0 <= k < n ==> #[trigger] parts[k] == view_basic(seg.parts@[k]),
            kv_get(registry@.nodes, id) == Some(node@),
            parts_from(registry@.nodes, parts, 0, node@, id) == parts_from(
                registry@.nodes,
                parts,
                i as int,
                node@,
                id,
            ),
        decreases n - i,
    {
        if !part_matches_exec(&seg.parts[i], node, registry, id) {
            return false;
        }
        i += 1;
    }
    true
}

/// Whether one simple selector matches.
fn part_matches_exec(part: &BasicSelector, node: &DomNode, registry: &DomRegistry, id: NodeId) -> (r:
    bool)
    ensures
        r == part_matches(registry@.nodes, view_basic(*part), node@, id),
    decreases *part, 0nat, 0nat,
{
    match part {
        BasicSelector::Tag(t) => match &node.tagName {
            Some(x) => crate::text::eq_str(x.as_str(), t.as_str()),
            None => false,
        },
        BasicSelector::Id(i) => match &node.id {
            Some(x) => crate::text::eq_str(x.as_str(), i.as_str()),
            None => false,
        },
        BasicSelector::Class(c) => {
            assert(strs(node.classList@) =~= node@.classes);
            has_string(node.classList.as_slice(), &chars_of(c.as_str()))
        },
        BasicSelector::Universal => true,
        BasicSelector::Attribute { name, op, value } => attribute_matches(
            node,
            name.as_str(),
            *op,
            value.as_str(),
        ),
        BasicSelector::PseudoClass(pc) => pseudo_matches_exec(pc, node, registry, id),
        BasicSelector::PseudoElement(_) => true,
    }
}

/// Whether some selector of `l` matches.
fn any_exec(l: &Vec<ComplexSelector>, registry: &DomRegistry, id: NodeId) -> (r: bool)
    ensures
        r == any_from(registry@.nodes, view_complexes(l@), 0, id),
    decreases *l, 0nat, 0nat,
{
    let ghost vl = view_complexes(l@);
    proof {
        lemma_view_complexes_at(l@);
    }
    let n = l.len();
    let mut i: usize = 0;
    while i < n
        invariant
            i <= n == l@.len() == vl.len(),
            vl == view_complexes(l@),
            forall|k: int| 0 <= k < n ==> #[trigger] vl[k] == view_complex(l@[k]),
            any_from(registry@.nodes, vl, 0, id) == any_from(registry@.nodes, vl, i as int, id),
        decreases n - i,
    {
        if l[i].matches(registry, id) {
            return true;
        }
        i += 1;
    }
    false
}

/// Whether a node below `id` matches `c`.
fn has_desc_exec(registry: &DomRegistry, id: NodeId, c: &ComplexSelector, fuel: u128) -> (r: bool)
    ensures
        r == has_desc(registry@.nodes, id, view_complex(*c), fuel as nat),
    decreases *c, fuel, 0nat,
{
    if fuel == 0 {
        return false;
    }
    let node = match registry.allNodes.get(&id) {
        Some(n) => n,
        None => {
            return false;
        },
    };
    let kids = &node.childNodes;
    let ghost cv = view_complex(*c);
    let mut i: usize = 0;
    while i < kids.len()
        invariant
            0 < fuel,
            i <= kids@.len(),
            kids@ == node@.children,
            cv == view_complex(*c),
            kv_get(registry@.nodes, id) == Some(node@),
            has_from(registry@.nodes, kids@, 0, cv, (fuel - 1) as nat) == has_from(
                registry@.nodes,
                kids@,
                i as int,
                cv,
                (fuel - 1) as nat,
            ),
        decreases kids@.len() - i,
    {
        if c.matches(registry, kids[i]) {
            return true;
        }
        if has_desc_exec(registry, kids[i], c, fuel - 1) {
            return true;
        }
        i += 1;
    }
    false
}

/// Whether a pseudo-class matches.
fn pseudo_matches_exec(pc: &PseudoClass, node: &DomNode, registry: &DomRegistry, id: NodeId) -> (r:
    bool)
    ensures
        r == pseudo_matches(registry@.nodes, view_pseudo(*pc), node@, id),
    decreases *pc, 0nat, 0nat,
{
    match pc {
        PseudoClass::Root => node.parentNode.is_none(),
        PseudoClass::Empty => node.childNodes.len() == 0,
        PseudoClass::FirstChild => match node.parentNode {
            Some(p) => match registry.allNodes.get(&p) {
                Some(parent) => parent.childNodes.len() > 0 && parent.childNodes[0] == id,
                None => false,
            },
            None => false,
        },
        PseudoClass::LastChild => match node.parentNode {
            Some(p) => match registry.allNodes.get(&p) {
                Some(parent) => {
                    let k = parent.childNodes.len();
                    k > 0 && parent.childNodes[k - 1] == id
                },
                None => false,
            },
            None => false,
        },
        PseudoClass::OnlyChild => match node.parentNode {
            Some(p) => match registry.allNodes.get(&p) {
                Some(parent) => parent.childNodes.len() == 1,
                None => false,
            },
            None => false,
        },
        PseudoClass::FirstOfType => sibling_position(registry, node, id, Some(&node.tagName), false)
            == 1,
        PseudoClass::LastOfType => is_last_of_type(registry, node, id),
        PseudoClass::OnlyOfType => sibling_position(registry, node, id, Some(&node.tagName), false)
            == 1 && is_last_of_type(registry, node, id),
        PseudoClass::NthChild(a, b) => nth_at(sibling_position(registry, node, id, None, false), *a, *b),
        PseudoClass::NthLastChild(a, b) => nth_at(
            sibling_position(registry, node, id, None, true),
            *a,
            *b,
        ),
        PseudoClass::NthOfType(a, b) => {
            let t: Option<String> = Some(
                match &node.tagName {
                    Some(x) => crate::text::owned(x.as_str()),
                    None => String::new(),
                },
            );
            nth_at(sibling_position(registry, node, id, Some(&t), false), *a, *b)
        },
        PseudoClass::NthLastOfType(a, b) => {
            let t: Option<String> = Some(
                match &node.tagName {
                    Some(x) => crate::text::owned(x.as_str()),
                    None => String::new(),
                },
            );
            nth_at(sibling_position(registry, node, id, Some(&t), true), *a, *b)
        },
        PseudoClass::Not(inner) => !(**inner).matches(registry, id),
        PseudoClass::Is(l) => any_exec(l, registry, id),
        PseudoClass::Where(l) => any_exec(l, registry, id),
        PseudoClass::Has(inner) => {
            let f = registry.allNodes.len() as u128 + 1;
            has_desc_exec(registry, id, &**inner, f)
        },
        PseudoClass::Lang(l) => has_attr_pair_exec(node, "lang", l),
        PseudoClass::Dir(d) => has_attr_pair_exec(node, "dir", d),
        _ => true,
    }
}

} // verus!
