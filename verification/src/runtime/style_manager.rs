//! Reading style sheet text into rules.
use vstd::prelude::*;

use super::cascade::{
    cascade_fold, cascade_rule_refs, deref_rules, lemma_weighed_v, packed, strip_weights, weighed_v,
    weights_fit,
};
use super::css_rule::{view_decls, CssRule};
use super::dom_node::{kv_get, NodeV};
use super::index::{add_new, candidate_lists, rule_keys, RuleIndex};
use super::node_id::NodeId;
use super::node_match::{sel_matches, SelectorMatchExt};
use super::registry::DomRegistry;
use super::rule_order::{isort, lemma_isort, sort_keys};
use super::style_sheet::{CssStyleSheet, StyleSheetList};
use super::selector_match::{complex_spec, fits, lemma_split_pieces_len, view_complex, ComplexSelector, ComplexV};
use crate::text::{
    chars_of, find_char, find_char_in, lemma_find_first_bounds, lemma_trim_len,
    lemma_trim_start_suffix, lowercase, lowercase_of, eq_pred, slice_of, split, split_chars,
    string_of, suffix, trim, trim_chars, trim_start, trim_start_chars, views,
};

verus! {

// ═══════════════════════ comments ═══════════════════════

/// Where a comment's body ends in `t`: the position just after the first
/// `*/`, if there is one.
pub open spec fn close_end(t: Seq<char>) -> Option<int>
    decreases t.len(),
{
    if t.len() < 2 {
        None
    } else if t[0] == '*' && t[1] == '/' {
        Some(2)
    } else {
        match close_end(t.drop_first()) {
            Some(i) => Some(i + 1),
            None => None,
        }
    }
}

pub proof fn lemma_close_end(t: Seq<char>)
    ensures
        close_end(t) matches Some(i) ==> 2 <= i <= t.len() && t[i - 2] == '*' && t[i - 1] == '/',
    decreases t.len(),
{
    if t.len() >= 2 && !(t[0] == '*' && t[1] == '/') {
        lemma_close_end(t.drop_first());
    }
}

/// A position moved `d` places on.
pub open spec fn shift(o: Option<int>, d: int) -> Option<int> {
    match o {
        Some(k) => Some(k + d),
        None => None,
    }
}

/// `s` with every `/* .. */` comment taken out; an unclosed comment runs to
/// the end.
pub open spec fn strip_spec(s: Seq<char>) -> Seq<char>
    decreases s.len(),
{
    if s.len() == 0 {
        seq![]
    } else if s.len() >= 2 && s[0] == '/' && s[1] == '*' {
        match close_end(s.skip(2)) {
            Some(i) => {
                proof {
                    lemma_close_end(s.skip(2));
                }
                strip_spec(s.skip(2).skip(i))
            },
            None => seq![],
        }
    } else {
        seq![s[0]] + strip_spec(s.skip(1))
    }
}

/// Takes the comments out of style sheet text.
pub(crate) fn strip_comments(css: &str) -> (r: String)
    ensures
        r@ == strip_spec(css@),
{
    let v = chars_of(css);
    let n = v.len();
    let mut out: Vec<char> = Vec::new();
    let mut i: usize = 0;
    assert(v@.skip(0) =~= v@);
    assert(out@ + strip_spec(v@) =~= strip_spec(v@));
    while i < n
        invariant
            i <= n == v@.len(),
            v@ == css@,
            strip_spec(v@) == out@ + strip_spec(v@.skip(i as int)),
        decreases n - i,
    {
        let ghost rest = v@.skip(i as int);
        if v[i] == '/' && i + 1 < n && v[i + 1] == '*' {
            // skip to just after the closing `*/`
            let mut j: usize = i + 2;
            let ghost t = rest.skip(2);
            let mut found = false;
            proof {
                assert(t =~= v@.skip(j as int));
                match close_end(t) {
                    Some(k) => assert(shift(close_end(v@.skip(j as int)), j - i - 2) == Some(k)),
                    None => {},
                }
            }
            while j < n - 1
                invariant_except_break
                    !found,
                invariant
                    i + 2 <= j <= n,
                    n == v@.len(),
                    t == v@.skip(i + 2),
                    close_end(t) == shift(close_end(v@.skip(j as int)), j - i - 2),
                ensures
                    found ==> j + 1 < n && v@[j as int] == '*' && v@[j + 1] == '/',
                    !found ==> j + 1 >= n,
                    i + 2 <= j <= n,
                    close_end(t) == shift(close_end(v@.skip(j as int)), j - i - 2),
                decreases n - j,
            {
                proof {
                    assert(v@.skip(j as int).drop_first() =~= v@.skip(j + 1));
                }
                if v[j] == '*' && v[j + 1] == '/' {
                    found = true;
                    break;
                }
                j += 1;
            }
            proof {
                assert(rest.len() >= 2 && rest[0] == '/' && rest[1] == '*');
                assert(rest.skip(2) =~= t);
            }
            if found {
                proof {
                    assert(v@.skip(j as int)[0] == v@[j as int]);
                    assert(v@.skip(j as int)[1] == v@[j + 1]);
                    assert(close_end(v@.skip(j as int)) == Some(2int));
                    assert(t.skip(j + 2 - i - 2) =~= v@.skip(j + 2));
                }
                i = j + 2;
            } else {
                proof {
                    assert(close_end(v@.skip(j as int)) is None);
                    assert(out@ + seq![] =~= out@);
                    assert(v@.skip(n as int) =~= Seq::<char>::empty());
                }
                i = n;
            }
        } else {
            proof {
                assert(rest.skip(1) =~= v@.skip(i + 1));
                assert(out@.push(v@[i as int]) + strip_spec(v@.skip(i + 1)) =~= out@ + (seq![
                    v@[i as int],
                ] + strip_spec(v@.skip(i + 1))));
            }
            out.push(v[i]);
            i += 1;
        }
    }
    proof {
        assert(v@.skip(n as int) =~= Seq::<char>::empty());
        assert(out@ + Seq::<char>::empty() =~= out@);
    }
    string_of(&out)
}

// ═══════════════════════ declarations ═══════════════════════

/// The declaration that one `;`-separated piece gives: `prop: value` with
/// the property lowercased and both sides trimmed, when neither is empty.
pub open spec fn decl_of(piece: Seq<char>) -> Option<(Seq<char>, Seq<char>)> {
    let d = trim(piece);
    match find_char(d, ':') {
        Some(p) => {
            let prop = lowercase_of(trim(d.take(p)));
            let val = trim(d.skip(p + 1));
            if d.len() > 0 && prop.len() > 0 && val.len() > 0 {
                Some((prop, val))
            } else {
                None
            }
        },
        None => None,
    }
}

/// The declarations that a run of pieces gives, in order.
pub open spec fn decls_of(pieces: Seq<Seq<char>>) -> Seq<(Seq<char>, Seq<char>)>
    decreases pieces.len(),
{
    if pieces.len() == 0 {
        seq![]
    } else {
        decls_of(pieces.drop_last()) + match decl_of(pieces.last()) {
            Some(d) => seq![d],
            None => seq![],
        }
    }
}

/// The declarations of a block such as `margin: 0; padding: 0`.
pub open spec fn block_decls(block: Seq<char>) -> Seq<(Seq<char>, Seq<char>)> {
    decls_of(split(block, ';'))
}

/// The declaration in one piece, if any.
fn parse_decl(piece: &[char]) -> (r: Option<(String, String)>)
    ensures
        r matches Some(d) ==> decl_of(piece@) == Some((d.0@, d.1@)),
        r is None ==> decl_of(piece@) is None,
{
    let d = trim_chars(piece);
    if d.len() == 0 {
        return None;
    }
    match find_char_in(&d, ':') {
        Some(p) => {
            proof {
                lemma_find_first_bounds(d@, eq_pred(':'));
            }
            let prop = lowercase(&trim_chars(&slice_of(&d, 0, p)));
            let val = trim_chars(&suffix(&d, p + 1));
            proof {
                assert(d@.subrange(0, p as int) =~= d@.take(p as int));
            }
            if prop.len() > 0 && val.len() > 0 {
                Some((string_of(&prop), string_of(&val)))
            } else {
                None
            }
        },
        None => None,
    }
}

/// Reads the declarations of a block, in order.
fn parse_declarations(block: &[char]) -> (r: Vec<(String, String)>)
    ensures
        view_decls(r@) == block_decls(block@),
{
    let pieces = split_chars(block, ';');
    let ghost ps = split(block@, ';');
    let mut r: Vec<(String, String)> = Vec::new();
    let mut i: usize = 0;
    while i < pieces.len()
        invariant
            i <= pieces@.len(),
            views(pieces@) == ps,
            ps == split(block@, ';'),
            view_decls(r@) == decls_of(ps.take(i as int)),
        decreases pieces.len() - i,
    {
        proof {
            assert(ps.take(i + 1).drop_last() =~= ps.take(i as int));
            assert(ps[i as int] == pieces@[i as int]@);
        }
        match parse_decl(&pieces[i]) {
            Some(d) => {
                let ghost before = r@;
                r.push(d);
                assert(view_decls(r@) =~= view_decls(before).push((d.0@, d.1@)));
            },
            None => {},
        }
        proof {
            let dd = decls_of(ps.take(i as int));
            assert(dd + seq![] =~= dd);
            assert(forall|x: (Seq<char>, Seq<char>)| dd + seq![x] =~= dd.push(x));
        }
        i += 1;
    }
    assert(ps.take(ps.len() as int) =~= ps);
    r
}

// ═══════════════════════ rules ═══════════════════════

/// The model of a rule: selector text, selector, declarations.
pub type RuleV = (Seq<char>, ComplexV, Seq<(Seq<char>, Seq<char>)>);

/// A rule as a model.
pub open spec fn view_rule(r: CssRule) -> RuleV {
    (r.selectorText@, view_complex(r.selector), view_decls(r.style@))
}

pub open spec fn view_rules(s: Seq<CssRule>) -> Seq<RuleV> {
    s.map_values(|r: CssRule| view_rule(r))
}

/// The rules that the selectors `pieces` (separated by commas) with the
/// declarations `decls` give: one per selector that is not blank and
/// parses, and none when the block declares nothing.
pub open spec fn group_rules(pieces: Seq<Seq<char>>, decls: Seq<(Seq<char>, Seq<char>)>) -> Seq<RuleV>
    decreases pieces.len(),
{
    if pieces.len() == 0 {
        seq![]
    } else {
        let sel = trim(pieces.last());
        group_rules(pieces.drop_last(), decls) + if sel.len() > 0 && decls.len() > 0 {
            match complex_spec(sel) {
                Some(c) => seq![(sel, c, decls)],
                None => seq![],
            }
        } else {
            seq![]
        }
    }
}

/// The rules of style sheet text without comments: blocks
/// `selectors { declarations }` one after another, until the text ends, a
/// stray `}` comes, or a block is not closed.
pub open spec fn css_rules(r: Seq<char>) -> Seq<RuleV>
    decreases r.len(),
{
    let t = trim_start(r);
    if t.len() == 0 || t[0] == '}' {
        seq![]
    } else {
        match find_char(t, '{') {
            None => seq![],
            Some(bs) => {
                let sel = trim(t.take(bs));
                let rest = t.skip(bs + 1);
                match find_char(rest, '}') {
                    None => seq![],
                    Some(be) => {
                        proof {
                            lemma_trim_start_suffix(r);
                            lemma_find_first_bounds(t, eq_pred('{'));
                            lemma_find_first_bounds(rest, eq_pred('}'));
                        }
                        group_rules(split(sel, ','), block_decls(rest.take(be))) + css_rules(
                            rest.skip(be + 1),
                        )
                    },
                }
            },
        }
    }
}

/// Appends the rules of one block: one per selector in `sel` (separated by
/// commas) that is not blank and parses, each with the block's declarations.
fn add_block_rules(sel: &[char], block: &[char], rules: &mut Vec<CssRule>)
    requires
        sel@.len() <= u32::MAX,
    ensures
        view_rules(final(rules)@) == view_rules(old(rules)@) + group_rules(
            split(sel@, ','),
            block_decls(block@),
        ),
{
    let decls_probe = parse_declarations(block);
    let pieces = split_chars(sel, ',');
    let ghost ps = split(sel@, ',');
    let ghost base = rules@;
    proof {
        lemma_split_pieces_len(sel@, ',');
        assert(ps.take(0) =~= Seq::<Seq<char>>::empty());
        assert(view_rules(base) + Seq::<RuleV>::empty() =~= view_rules(base));
    }
    let mut k: usize = 0;
    while k < pieces.len()
        invariant
            k <= pieces@.len(),
            views(pieces@) == ps,
            ps == split(sel@, ','),
            sel@.len() <= u32::MAX,
            forall|i: int| 0 <= i < ps.len() ==> (#[trigger] ps[i]).len() <= sel@.len(),
            view_decls(decls_probe@) == block_decls(block@),
            view_rules(rules@) == view_rules(base) + group_rules(
                ps.take(k as int),
                block_decls(block@),
            ),
        decreases pieces.len() - k,
    {
        proof {
            assert(ps.take(k + 1).drop_last() =~= ps.take(k as int));
            assert(ps[k as int] == pieces@[k as int]@);
            assert(ps.take(k + 1).last() == ps[k as int]);
            lemma_trim_len(ps[k as int]);
        }
        let p = trim_chars(&pieces[k]);
        let ghost g = group_rules(ps.take(k as int), block_decls(block@));
        if p.len() > 0 && decls_probe.len() > 0 {
            let text = string_of(&p);
            match ComplexSelector::parse(text.as_str()) {
                Some(selector) => {
                    let decls = parse_declarations(block);
                    let rule = CssRule { selectorText: text, selector, style: decls };
                    let ghost before = rules@;
                    rules.push(rule);
                    proof {
                        assert(view_rules(rules@) =~= view_rules(before).push(view_rule(rule)));
                        assert(view_rules(base) + g.push(view_rule(rule)) =~= view_rules(base) + g
                            + seq![view_rule(rule)]);
                    }
                },
                None => {
                    proof {
                        assert(g + Seq::<RuleV>::empty() =~= g);
                    }
                },
            }
        } else {
            proof {
                assert(g + Seq::<RuleV>::empty() =~= g);
            }
        }
        k += 1;
    }
    proof {
        assert(ps.take(ps.len() as int) =~= ps);
    }
}

/// Reads style sheet text into rules: comments are dropped; each block
/// `a, b { p: v; .. }` gives one rule per selector that parses, with the
/// block's declarations, and a block without declarations gives none.
pub fn parse_css(css: &str) -> (r: Vec<CssRule>)
    requires
        fits(css@),
    ensures
        view_rules(r@) == css_rules(strip_spec(css@)),
{
    let stripped = strip_comments(css);
    let v = chars_of(stripped.as_str());
    proof {
        lemma_strip_len(css@);
    }
    let mut rules: Vec<CssRule> = Vec::new();
    let mut remaining = v;
    while remaining.len() > 0
        invariant
            remaining@.len() <= v@.len() <= u32::MAX,
            v@ == strip_spec(css@),
            css_rules(v@) == view_rules(rules@) + css_rules(remaining@),
        ensures
            css_rules(v@) == view_rules(rules@),
        decreases remaining@.len(),
    {
        let ghost r0 = remaining@;
        let ghost old_rules = rules@;
        let t = trim_start_chars(&remaining);
        proof {
            lemma_trim_start_suffix(r0);
        }
        if t.len() == 0 || t[0] == '}' {
            assert(css_rules(r0) == Seq::<RuleV>::empty());
            assert(view_rules(rules@) + Seq::<RuleV>::empty() =~= view_rules(rules@));
            break;
        }
        let bs = match find_char_in(&t, '{') {
            Some(b) => b,
            None => {
                assert(css_rules(r0) == Seq::<RuleV>::empty());
                assert(view_rules(rules@) + Seq::<RuleV>::empty() =~= view_rules(rules@));
                break;
            },
        };
        proof {
            lemma_find_first_bounds(t@, eq_pred('{'));
        }
        let sel = trim_chars(&slice_of(&t, 0, bs));
        let rest = suffix(&t, bs + 1);
        let be = match find_char_in(&rest, '}') {
            Some(b) => b,
            None => {
                assert(css_rules(r0) == Seq::<RuleV>::empty());
                assert(view_rules(rules@) + Seq::<RuleV>::empty() =~= view_rules(rules@));
                break;
            },
        };
        proof {
            lemma_find_first_bounds(rest@, eq_pred('}'));
            assert(t@.subrange(0, bs as int) =~= t@.take(bs as int));
        }
        let block = slice_of(&rest, 0, be);
        let after = suffix(&rest, be + 1);
        proof {
            assert(rest@.subrange(0, be as int) =~= rest@.take(be as int));
        }
        proof {
            lemma_trim_len(t@.take(bs as int));
        }
        add_block_rules(&sel, &block, &mut rules);
        proof {
            assert(view_rules(rules@) + css_rules(after@) =~= view_rules(old_rules) + (group_rules(
                split(sel@, ','),
                block_decls(block@),
            ) + css_rules(after@)));
        }
        remaining = after;
        proof {
            if remaining@.len() == 0 {
                assert(css_rules(remaining@) == Seq::<RuleV>::empty());
                assert(view_rules(rules@) + Seq::<RuleV>::empty() =~= view_rules(rules@));
            }
        }
    }
    rules
}

/// Taking comments out never makes text longer.
pub proof fn lemma_strip_len(s: Seq<char>)
    ensures
        strip_spec(s).len() <= s.len(),
    decreases s.len(),
{
    if s.len() > 0 {
        if s.len() >= 2 && s[0] == '/' && s[1] == '*' {
            lemma_close_end(s.skip(2));
            match close_end(s.skip(2)) {
                Some(i) => lemma_strip_len(s.skip(2).skip(i)),
                None => {},
            }
        } else {
            lemma_strip_len(s.skip(1));
        }
    }
}

// ═══════════════════════ the style engine ═══════════════════════

/// The rule positions an index offers for a node.
pub open spec fn node_candidates(ix: RuleIndex, n: NodeV) -> Seq<usize> {
    add_new(
        seq![],
        candidate_lists(ix, n.tag, n.classes, n.id, n.attrs.map_values(|a: (Seq<char>, Seq<char>)| a.0)),
    )
}

/// The rules at the first `k` positions of `ris` that the sheet has and
/// that match the node `id`, each with its sheet's and its own position.
pub open spec fn sheet_matches(
    nodes: Seq<(NodeId, NodeV)>,
    id: NodeId,
    rules: Seq<CssRule>,
    si: usize,
    ris: Seq<usize>,
    k: int,
) -> Seq<(CssRule, usize, usize)>
    decreases k,
{
    if k <= 0 || k > ris.len() {
        seq![]
    } else {
        let prev = sheet_matches(nodes, id, rules, si, ris, k - 1);
        let ri = ris[k - 1];
        if ri < rules.len() && sel_matches(nodes, view_complex(rules[ri as int].selector), id) {
            prev.push((rules[ri as int], si, ri))
        } else {
            prev
        }
    }
}

/// The matched rules of the first `j` sheet indices, in order.
pub open spec fn all_matches(
    nodes: Seq<(NodeId, NodeV)>,
    id: NodeId,
    n: NodeV,
    idxs: Seq<SheetIndex>,
    sheets: Seq<CssStyleSheet>,
    j: int,
) -> Seq<(CssRule, usize, usize)>
    decreases j,
{
    if j <= 0 || j > idxs.len() {
        seq![]
    } else {
        let prev = all_matches(nodes, id, n, idxs, sheets, j - 1);
        let x = idxs[j - 1];
        if x.sheet_index < sheets.len() {
            let ris = node_candidates(x.rule_index, n);
            prev + sheet_matches(
                nodes,
                id,
                sheets[x.sheet_index as int].cssRules@,
                x.sheet_index,
                ris,
                ris.len() as int,
            )
        } else {
            prev
        }
    }
}

/// The order keys of matched rules.
pub open spec fn order_keys(m: Seq<(CssRule, usize, usize)>) -> Seq<(u32, u32, u32, usize, usize, usize)> {
    Seq::new(
        m.len(),
        |j: int|
            (
                m[j].0.selector.specificity.0,
                m[j].0.selector.specificity.1,
                m[j].0.selector.specificity.2,
                m[j].1,
                m[j].2,
                j as usize,
            ),
    )
}

/// Matched rules in cascade order: by specificity, sheet and position,
/// rules equal in all three in the order found.
pub open spec fn cascade_order(m: Seq<(CssRule, usize, usize)>) -> Seq<CssRule> {
    let ks = isort(order_keys(m));
    Seq::new(ks.len(), |j: int| m[ks[j].5 as int].0)
}

/// Whether the weight of every rule of every sheet fits in `u32`.
pub open spec fn sheets_fit(sheets: Seq<CssStyleSheet>) -> bool {
    forall|i: int| 0 <= i < sheets.len() ==> weights_fit(#[trigger] sheets[i].cssRules@)
}

/// The positions below `k` of the sheets that are not disabled, in order.
pub open spec fn active_positions(s: Seq<CssStyleSheet>, k: int) -> Seq<int>
    decreases k,
{
    if k <= 0 {
        seq![]
    } else if !s[k - 1].disabled {
        active_positions(s, k - 1).push(k - 1)
    } else {
        active_positions(s, k - 1)
    }
}

/// The index of one style sheet.
#[derive(Debug)]
pub struct SheetIndex {
    /// The sheet's position in the style-sheet list.
    pub sheet_index: usize,
    /// Its rules, indexed.
    pub rule_index: RuleIndex,
}

/// The style engine: an index for each active style sheet.
#[derive(Debug)]
pub struct StyleEngine {
    sheet_indices: Vec<SheetIndex>,
}

impl StyleEngine {
    /// The engine's sheet indices.
    pub closed spec fn indices(self) -> Seq<SheetIndex> {
        self.sheet_indices@
    }

    /// Whether every index is well formed.
    pub closed spec fn ready(self) -> bool {
        forall|i: int|
            0 <= i < self.sheet_indices@.len() ==> {
                let x = (#[trigger] self.sheet_indices@[i]).rule_index;
                x.id.wf() && x.class.wf() && x.tag.wf() && x.attr.wf()
            }
    }

    /// An engine with no indices.
    pub fn new() -> (r: Self)
        ensures
            r.indices().len() == 0,
            r.ready(),
    {
        Self { sheet_indices: Vec::new() }
    }

    /// Rebuilds the indices from the list's active sheets: one for each
    /// sheet that is not disabled, in order, holding the sheet's position
    /// in the list and the index of its rules.
    #[allow(non_snake_case)]
    pub fn rebuildIndices(&mut self, style_sheets: &StyleSheetList)
        ensures
            final(self).ready(),
            final(self).indices().len() == active_positions(style_sheets@, style_sheets@.len() as int).len(),
            forall|i: int|
                0 <= i < final(self).indices().len() ==> (#[trigger] final(self).indices()[i]).sheet_index
                    == active_positions(style_sheets@, style_sheets@.len() as int)[i]
                    && final(self).indices()[i].sheet_index < style_sheets@.len()
                    && final(self).indices()[i].rule_index.indexes(
                    rule_keys(style_sheets@[final(self).indices()[i].sheet_index as int].cssRules@),
                ),
    {
        self.sheet_indices.clear();
        let n = style_sheets.length();
        let ghost sv = style_sheets@;
        let mut k: usize = 0;
        while k < n
            invariant
                k <= n == sv.len(),
                sv == style_sheets@,
                self.sheet_indices@.len() == active_positions(sv, k as int).len(),
                forall|j: int|
                    0 <= j < self.sheet_indices@.len() ==> (#[trigger] self.sheet_indices@[j]).sheet_index
                        == active_positions(sv, k as int)[j] && self.sheet_indices@[j].sheet_index < k
                        && self.sheet_indices@[j].rule_index.indexes(
                        rule_keys(sv[self.sheet_indices@[j].sheet_index as int].cssRules@),
                    ),
            decreases n - k,
        {
            let sheet = style_sheets.item(k).unwrap();
            if !sheet.disabled {
                let rule_index = RuleIndex::build(sheet.cssRules.as_slice());
                self.sheet_indices.push(SheetIndex { sheet_index: k, rule_index });
            }
            k += 1;
        }
    }
}

impl Default for StyleEngine {
    fn default() -> (r: Self)
        ensures
            r.indices().len() == 0,
            r.ready(),
    {
        Self::new()
    }
}


impl StyleEngine {
    /// The declarations that win for the node `node_id`: the rules that the
    /// indices offer and that match the node, ordered by specificity, sheet
    /// and position, then the node's inline style above them all; nothing
    /// for a node that is not in the document. Each winning declaration is
    /// what a computed style is built from.
    #[allow(non_snake_case)]
    pub fn computeStyle(&self, style_sheets: &StyleSheetList, registry: &DomRegistry, node_id: NodeId) -> (r:
        Vec<(String, String)>)
        requires
            self.ready(),
            sheets_fit(style_sheets@),
        ensures
            view_decls(r@) == match kv_get(registry@.nodes, node_id) {
                None => seq![],
                Some(n) => strip_weights(
                    cascade_fold(
                        weighed_v(
                            block_decls(n.style),
                            cascade_order(
                                all_matches(
                                    registry@.nodes,
                                    node_id,
                                    n,
                                    self.indices(),
                                    style_sheets@,
                                    self.indices().len() as int,
                                ),
                            ),
                        ),
                    ),
                ),
            },
    {
        let node = match registry.allNodes.get(&node_id) {
            Some(n) => n,
            None => {
                let e: Vec<(String, String)> = Vec::new();
                assert(view_decls(e@) =~= seq![]);
                return e;
            },
        };
        let ghost n = node@;
        let ghost nodes = registry@.nodes;
        let ghost idxs = self.sheet_indices@;
        let ghost sheets = style_sheets@;
        let tag: Option<&str> = match &node.tagName {
            Some(t) => Some(t.as_str()),
            None => None,
        };
        let eid: Option<&str> = match &node.id {
            Some(t) => Some(t.as_str()),
            None => None,
        };
        assert(node.classList@.map_values(|c: String| c@) =~= n.classes);
        assert(node.attrs@.map_values(|a: (String, String)| a.0@) =~= n.attrs.map_values(
            |a: (Seq<char>, Seq<char>)| a.0,
        ));
        let mut pool: Vec<&CssRule> = Vec::new();
        let mut keys: Vec<(u32, u32, u32, usize, usize, usize)> = Vec::new();
        let ghost mut m: Seq<(CssRule, usize, usize)> = seq![];
        let mut j: usize = 0;
        while j < self.sheet_indices.len()
            invariant
                j <= idxs.len() == self.sheet_indices@.len(),
                idxs == self.sheet_indices@,
                self.ready(),
                sheets == style_sheets@,
                sheets_fit(sheets),
                nodes == registry@.nodes,
                kv_get(nodes, node_id) == Some(n),
                n == node@,
                node.classList@.map_values(|c: String| c@) == n.classes,
                node.attrs@.map_values(|a: (String, String)| a.0@) == n.attrs.map_values(
                    |a: (Seq<char>, Seq<char>)| a.0,
                ),
                (match tag {
                    Some(t) => Some(t@),
                    None => None::<Seq<char>>,
                }) == n.tag,
                (match eid {
                    Some(t) => Some(t@),
                    None => None::<Seq<char>>,
                }) == n.id,
                m == all_matches(nodes, node_id, n, idxs, sheets, j as int),
                pool@.len() == m.len(),
                forall|k: int| 0 <= k < m.len() ==> *pool@[k] == (#[trigger] m[k]).0,
                keys@ == order_keys(m),
                forall|k: int| 0 <= k < m.len() ==> packed((#[trigger] m[k]).0.selector.specificity) <= u32::MAX,
            decreases self.sheet_indices@.len() - j,
        {
            let x = &self.sheet_indices[j];
            assert(x.rule_index.id.wf() && x.rule_index.class.wf() && x.rule_index.tag.wf() && x.rule_index.attr.wf());
            match style_sheets.item(x.sheet_index) {
                None => {},
                Some(sheet) => {
                    let ris = x.rule_index.find_candidates(
                        tag,
                        node.classList.as_slice(),
                        eid,
                        node.attrs.as_slice(),
                    );
                    assert(ris@ == node_candidates(x.rule_index, n));
                    let ghost m0 = m;
                    let ghost rules = sheet.cssRules@;
                    assert(weights_fit(rules));
                    let mut k: usize = 0;
                    while k < ris.len()
                        invariant
                            k <= ris@.len(),
                            rules == sheet.cssRules@,
                            weights_fit(rules),
                            nodes == registry@.nodes,
                            m == m0 + sheet_matches(nodes, node_id, rules, x.sheet_index, ris@, k as int),
                            pool@.len() == m.len(),
                            forall|q: int| 0 <= q < m.len() ==> *pool@[q] == (#[trigger] m[q]).0,
                            keys@ == order_keys(m),
                            forall|q: int| 0 <= q < m.len() ==> packed((#[trigger] m[q]).0.selector.specificity) <= u32::MAX,
                        decreases ris@.len() - k,
                    {
                        let ri = ris[k];
                        if ri < sheet.cssRules.len() {
                            let rule: &CssRule = &sheet.cssRules[ri];
                            if rule.selector.matches(registry, node_id) {
                                let sp = rule.selector.specificity;
                                let at = pool.len();
                                keys.push((sp.0, sp.1, sp.2, x.sheet_index, ri, at));
                                pool.push(rule);
                                proof {
                                    let e = (rules[ri as int], x.sheet_index, ri);
                                    assert(packed(rules[ri as int].selector.specificity) <= u32::MAX);
                                    m = m.push(e);
                                    assert(keys@ =~= order_keys(m));
                                }
                            }
                        }
                        k += 1;
                    }
                },
            }
            j += 1;
        }
        let sorted = sort_keys(&keys);
        proof {
            lemma_isort(keys@);
            assert forall|t: int| 0 <= t < sorted@.len() implies (#[trigger] sorted@[t]).5 < m.len() by {
                broadcast use vstd::seq_lib::to_multiset_contains;

                let x = sorted@[t];
                assert(sorted@.contains(x));
                vstd::seq_lib::to_multiset_contains(sorted@, x);
                assert(sorted@.to_multiset().count(x) > 0);
                assert(isort(keys@).to_multiset() == keys@.to_multiset());
                assert(keys@.to_multiset().count(x) > 0);
                vstd::seq_lib::to_multiset_contains(keys@, x);
                assert(keys@.contains(x));
                let i = choose|i: int| 0 <= i < keys@.len() && keys@[i] == sorted@[t];
                assert(keys@[i].5 == i as usize);
            }
        }
        let mut ordered: Vec<&CssRule> = Vec::new();
        let mut t: usize = 0;
        while t < sorted.len()
            invariant
                t <= sorted@.len(),
                sorted@ == isort(keys@),
                keys@ == order_keys(m),
                pool@.len() == m.len(),
                forall|k: int| 0 <= k < m.len() ==> *pool@[k] == (#[trigger] m[k]).0,
                forall|q: int| 0 <= q < sorted@.len() ==> (#[trigger] sorted@[q]).5 < m.len(),
                ordered@.len() == t,
                forall|q: int| 0 <= q < t ==> *ordered@[q] == m[sorted@[q].5 as int].0,
            decreases sorted@.len() - t,
        {
            let at = sorted[t].5;
            ordered.push(pool[at]);
            t += 1;
        }
        let ghost co = cascade_order(m);
        assert(deref_rules(ordered@) =~= co);
        assert(weights_fit(co)) by {
            assert forall|q: int| 0 <= q < co.len() implies packed((#[trigger] co[q]).selector.specificity)
                <= u32::MAX by {
                assert(co[q] == m[sorted@[q].5 as int].0);
            }
        }
        let inline = parse_declarations(&chars_of(node.style.as_str()));
        proof {
            lemma_weighed_v(inline@, co);
        }
        let r = cascade_rule_refs(inline.as_slice(), ordered.as_slice());
        assert(view_decls(r@) =~= r@.map_values(|d: (String, String)| (d.0@, d.1@)));
        r
    }
}


impl StyleEngine {
    /// Finishes a style pass (`flushStyleDirty`) from one `(node, changed)`
    /// result per node that was restyled, `changed` telling whether its
    /// computed style differs from the one it had: every such node's style
    /// flag is cleared; a changed node is marked for layout and paint, and
    /// layout marks spread from its parent up to the first ancestor already
    /// marked; then the set of nodes to restyle is emptied.
    #[allow(non_snake_case)]
    pub fn flushStyleDirty(&self, registry: &mut DomRegistry, results: &[(NodeId, bool)])
        ensures
            final(registry)@ == super::registry::flush_spec(old(registry)@, results@),
    {
        registry.record_style_pass(results);
    }
}

} // verus!
