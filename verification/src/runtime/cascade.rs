//! The cascade: which declaration wins for each property, and colour values.
use vstd::prelude::*;

use super::css_rule::CssRule;
use super::specificity::Specificity;
use crate::text::{
    utf8_len, all_ascii, ascii_lower, chars_of, eq_str, lowercase, lowercase_of, owned, parse_u8,
    parse_u8_spec, slice_of, split, split_chars, trim, trim_chars,
};

verus! {

// ═══════════════════════ winners of the cascade ═══════════════════════

/// A declaration as the cascade weighs it: property, value, weight.
pub type Weighed = (Seq<char>, Seq<char>, int);

/// The weight of a selector in the cascade: `ids * 1000 + classes * 100 + tags`.
pub open spec fn packed(s: Specificity) -> int {
    s.0 * 1000 + s.1 * 100 + s.2
}

/// The weight of inline declarations: above every selector.
pub open spec fn inline_weight() -> int {
    u32::MAX as int
}

/// Whether `best` names each property at most once.
pub open spec fn props_unique(best: Seq<Weighed>) -> bool {
    forall|i: int, j: int|
        0 <= i < best.len() && 0 <= j < best.len() && i != j ==> #[trigger] best[i].0
            != #[trigger] best[j].0
}

/// Whether `best` has an entry for property `p`.
pub open spec fn has_prop(best: Seq<Weighed>, p: Seq<char>) -> bool {
    exists|i: int| 0 <= i < best.len() && #[trigger] best[i].0 == p
}

/// The position of property `p` in `best`.
pub open spec fn prop_pos(best: Seq<Weighed>, p: Seq<char>) -> int {
    choose|i: int| 0 <= i < best.len() && #[trigger] best[i].0 == p
}

/// One step of the cascade: a declaration replaces the one held for its
/// property when its weight is at least as high; a new property is added at
/// the end.
pub open spec fn absorb(best: Seq<Weighed>, d: Weighed) -> Seq<Weighed> {
    if has_prop(best, d.0) {
        if d.2 >= best[prop_pos(best, d.0)].2 {
            best.update(prop_pos(best, d.0), d)
        } else {
            best
        }
    } else {
        best.push(d)
    }
}

/// The cascade over declarations in order: one entry per property, in the
/// order properties first appear.
pub open spec fn cascade_fold(ds: Seq<Weighed>) -> Seq<Weighed>
    decreases ds.len(),
{
    if ds.len() == 0 {
        seq![]
    } else {
        absorb(cascade_fold(ds.drop_last()), ds.last())
    }
}

/// The declarations of the matched rules, in order, weighed by their rule's
/// selector; then the inline declarations, weighed above all of them.
pub open spec fn weighed_decls(
    inline: Seq<(String, String)>,
    rules: Seq<CssRule>,
) -> Seq<Weighed>
    decreases rules.len(),
{
    if rules.len() == 0 {
        inline.map_values(|d: (String, String)| (d.0@, d.1@, inline_weight()))
    } else {
        rule_decls(rules[0]) + weighed_decls(inline, rules.drop_first())
    }
}

/// `weighed_decls` with the inline declarations given as values.
pub open spec fn weighed_v(inline: Seq<(Seq<char>, Seq<char>)>, rules: Seq<CssRule>) -> Seq<Weighed>
    decreases rules.len(),
{
    if rules.len() == 0 {
        inline.map_values(|d: (Seq<char>, Seq<char>)| (d.0, d.1, inline_weight()))
    } else {
        rule_decls(rules[0]) + weighed_v(inline, rules.drop_first())
    }
}

pub proof fn lemma_weighed_v(inline: Seq<(String, String)>, rules: Seq<CssRule>)
    ensures
        weighed_decls(inline, rules) == weighed_v(super::css_rule::view_decls(inline), rules),
    decreases rules.len(),
{
    if rules.len() == 0 {
        assert(weighed_decls(inline, rules) =~= weighed_v(super::css_rule::view_decls(inline), rules));
    } else {
        lemma_weighed_v(inline, rules.drop_first());
    }
}

/// The declarations of one rule, weighed by its selector.
pub open spec fn rule_decls(r: CssRule) -> Seq<Weighed> {
    r.style@.map_values(|d: (String, String)| (d.0@, d.1@, packed(r.selector.specificity)))
}

/// Whether every rule's weight fits in `u32`.
pub open spec fn weights_fit(rules: Seq<CssRule>) -> bool {
    forall|i: int| 0 <= i < rules.len() ==> packed(#[trigger] rules[i].selector.specificity) <= u32::MAX
}

/// Entries without their weights.
pub open spec fn strip_weights(s: Seq<Weighed>) -> Seq<(Seq<char>, Seq<char>)> {
    s.map_values(|w: Weighed| (w.0, w.1))
}

proof fn lemma_absorb_unique(best: Seq<Weighed>, d: Weighed)
    requires
        props_unique(best),
    ensures
        props_unique(absorb(best, d)),
        forall|p: Seq<char>| has_prop(absorb(best, d), p) <==> (has_prop(best, p) || p == d.0),
        absorb(best, d).len() >= best.len(),
{
    let a = absorb(best, d);
    if has_prop(best, d.0) {
        let k = prop_pos(best, d.0);
        assert forall|p: Seq<char>| has_prop(a, p) <==> (has_prop(best, p) || p == d.0) by {
            if has_prop(best, p) {
                let i = choose|i: int| 0 <= i < best.len() && #[trigger] best[i].0 == p;
                assert(a[i].0 == p);
            }
            if p == d.0 {
                assert(a[k].0 == p);
            }
            if has_prop(a, p) {
                let i = choose|i: int| 0 <= i < a.len() && #[trigger] a[i].0 == p;
                if i != k {
                    assert(best[i].0 == p);
                }
            }
        }
    } else {
        assert forall|p: Seq<char>| has_prop(a, p) <==> (has_prop(best, p) || p == d.0) by {
            if has_prop(best, p) {
                let i = choose|i: int| 0 <= i < best.len() && #[trigger] best[i].0 == p;
                assert(a[i].0 == p);
            }
            if p == d.0 {
                assert(a[best.len() as int].0 == p);
            }
            if has_prop(a, p) {
                let i = choose|i: int| 0 <= i < a.len() && #[trigger] a[i].0 == p;
                if i < best.len() {
                    assert(best[i].0 == p);
                }
            }
        }
    }
}

/// The cascade holds one entry per property, and an entry for exactly the
/// properties that some declaration sets.
pub proof fn lemma_cascade_props(ds: Seq<Weighed>)
    ensures
        props_unique(cascade_fold(ds)),
        forall|p: Seq<char>|
            has_prop(cascade_fold(ds), p) <==> exists|k: int| 0 <= k < ds.len() && #[trigger] ds[k].0 == p,
    decreases ds.len(),
{
    if ds.len() > 0 {
        let pre = ds.drop_last();
        lemma_cascade_props(pre);
        lemma_absorb_unique(cascade_fold(pre), ds.last());
        assert forall|p: Seq<char>|
            has_prop(cascade_fold(ds), p) <==> exists|k: int| 0 <= k < ds.len() && #[trigger] ds[k].0 == p by {
            if exists|k: int| 0 <= k < ds.len() && #[trigger] ds[k].0 == p {
                let k = choose|k: int| 0 <= k < ds.len() && #[trigger] ds[k].0 == p;
                if k < pre.len() {
                    assert(pre[k].0 == p);
                }
            }
            if has_prop(cascade_fold(pre), p) {
                let k = choose|k: int| 0 <= k < pre.len() && #[trigger] pre[k].0 == p;
                assert(ds[k].0 == p);
            }
        }
    }
}

/// What decides the cascade: for each property, the entry kept is a
/// declaration of that property with the highest weight among them, and no
/// later declaration of the property weighs as much. So a heavier selector
/// beats a lighter one, inline declarations beat every selector, and among
/// equal weights the declaration written last wins.
pub proof fn lemma_cascade_winner(ds: Seq<Weighed>, i: int)
    requires
        0 <= i < cascade_fold(ds).len(),
    ensures
        exists|k: int|
            0 <= k < ds.len() && #[trigger] ds[k] == cascade_fold(ds)[i] && (forall|m: int|
                k < m < ds.len() && ds[m].0 == ds[k].0 ==> ds[m].2 < ds[k].2),
        forall|m: int|
            0 <= m < ds.len() && ds[m].0 == cascade_fold(ds)[i].0 ==> #[trigger] ds[m].2
                <= cascade_fold(ds)[i].2,
    decreases ds.len(),
{
    let pre = ds.drop_last();
    let d = ds.last();
    let b = cascade_fold(pre);
    let a = cascade_fold(ds);
    lemma_cascade_props(pre);
    lemma_cascade_props(ds);
    let n = ds.len() - 1;
    if has_prop(b, d.0) {
        let p = prop_pos(b, d.0);
        if i == p && d.2 >= b[p].2 {
            // the new declaration wins its property
            assert(ds[n] == a[i]);
            lemma_cascade_winner(pre, p);
            assert forall|m: int|
                0 <= m < ds.len() && ds[m].0 == a[i].0 implies #[trigger] ds[m].2 <= a[i].2 by {
                if m < n {
                    assert(pre[m].0 == b[p].0);
                }
            }
        } else {
            assert(a[i] == b[i]);
            lemma_cascade_winner(pre, i);
            let k = choose|k: int|
                0 <= k < pre.len() && #[trigger] pre[k] == b[i] && (forall|m: int|
                    k < m < pre.len() && pre[m].0 == pre[k].0 ==> pre[m].2 < pre[k].2);
            assert(ds[k] == a[i]);
            if i == p {
                assert(d.2 < b[p].2);
            } else {
                assert(b[i].0 != d.0);
            }
            assert forall|m: int|
                k < m < ds.len() && ds[m].0 == ds[k].0 implies ds[m].2 < ds[k].2 by {
                if m < n {
                    assert(pre[m] == ds[m]);
                }
            }
            assert forall|m: int|
                0 <= m < ds.len() && ds[m].0 == a[i].0 implies #[trigger] ds[m].2 <= a[i].2 by {
                if m < n {
                    assert(pre[m] == ds[m]);
                }
            }
        }
    } else {
        if i == b.len() {
            assert(a[i] == d);
            assert forall|m: int|
                0 <= m < ds.len() && ds[m].0 == a[i].0 implies #[trigger] ds[m].2 <= a[i].2 by {
                if m < n {
                    assert(pre[m].0 == d.0);
                    assert(has_prop(b, d.0));
                }
            }
            assert(ds[n] == a[i]);
        } else {
            assert(a[i] == b[i]);
            lemma_cascade_winner(pre, i);
            let k = choose|k: int|
                0 <= k < pre.len() && #[trigger] pre[k] == b[i] && (forall|m: int|
                    k < m < pre.len() && pre[m].0 == pre[k].0 ==> pre[m].2 < pre[k].2);
            assert(ds[k] == a[i]);
            assert(b[i].0 != d.0);
            assert forall|m: int|
                k < m < ds.len() && ds[m].0 == ds[k].0 implies ds[m].2 < ds[k].2 by {
                if m < n {
                    assert(pre[m] == ds[m]);
                }
            }
            assert forall|m: int|
                0 <= m < ds.len() && ds[m].0 == a[i].0 implies #[trigger] ds[m].2 <= a[i].2 by {
                if m < n {
                    assert(pre[m] == ds[m]);
                }
            }
        }
    }
}

/// One step of the cascade on the executable list.
fn absorb_decl(best: &mut Vec<(String, String, u32)>, prop: &String, val: &String, w: u32)
    requires
        props_unique(entries_view(old(best)@)),
    ensures
        entries_view(final(best)@) == absorb(entries_view(old(best)@), (prop@, val@, w as int)),
        props_unique(entries_view(final(best)@)),
{
    let ghost b = entries_view(best@);
    let ghost d = (prop@, val@, w as int);
    proof {
        lemma_absorb_unique(b, d);
    }
    let mut i: usize = 0;
    while i < best.len()
        invariant
            i <= best@.len(),
            b == entries_view(best@),
            best@ == old(best)@,
            d == (prop@, val@, w as int),
            props_unique(b),
            forall|j: int| 0 <= j < i ==> b[j].0 != prop@,
        decreases best.len() - i,
    {
        if eq_str(best[i].0.as_str(), prop.as_str()) {
            assert(b[i as int].0 == prop@);
            assert(has_prop(b, prop@));
            assert(prop_pos(b, prop@) == i);
            if w >= best[i].2 {
                let entry = (owned(prop.as_str()), owned(val.as_str()), w);
                let ghost old_best = best@;
                best.set(i, entry);
                proof {
                    lemma_entries_update(old_best, i as int, entry);
                }
                assert(entries_view(best@) =~= b.update(i as int, d));
            }
            return;
        }
        i += 1;
    }
    assert(!has_prop(b, prop@));
    best.push((owned(prop.as_str()), owned(val.as_str()), w));
    assert(entries_view(best@) =~= b.push(d));
}

proof fn lemma_entries_update(s: Seq<(String, String, u32)>, i: int, e: (String, String, u32))
    requires
        0 <= i < s.len(),
    ensures
        entries_view(s.update(i, e)) == entries_view(s).update(i, (e.0@, e.1@, e.2 as int)),
{
    assert(entries_view(s.update(i, e)) =~= entries_view(s).update(i, (e.0@, e.1@, e.2 as int)));
}

/// The executable entries as models.
pub open spec fn entries_view(s: Seq<(String, String, u32)>) -> Seq<Weighed> {
    s.map_values(|e: (String, String, u32)| (e.0@, e.1@, e.2 as int))
}

/// The rules a sequence of references points to.
pub open spec fn deref_rules(s: Seq<&CssRule>) -> Seq<CssRule> {
    s.map_values(|r: &CssRule| *r)
}

/// The declaration that wins for each property, in the order properties
/// first appear: the declarations of `matched_rules` (in order, weighed by
/// their selectors' specificity) and then `inline_style` (weighed above all).
pub fn cascade_declarations(inline_style: &[(String, String)], matched_rules: &[CssRule]) -> (r: Vec<
    (String, String),
>)
    requires
        weights_fit(matched_rules@),
    ensures
        r@.map_values(|d: (String, String)| (d.0@, d.1@)) == strip_weights(
            cascade_fold(weighed_decls(inline_style@, matched_rules@)),
        ),
{
    let mut refs: Vec<&CssRule> = Vec::new();
    let mut i: usize = 0;
    while i < matched_rules.len()
        invariant
            i <= matched_rules@.len(),
            refs@.len() == i,
            forall|j: int| 0 <= j < i ==> *refs@[j] == matched_rules@[j],
        decreases matched_rules@.len() - i,
    {
        let r: &CssRule = &matched_rules[i];
        assert(*r == matched_rules@[i as int]);
        refs.push(r);
        i += 1;
    }
    assert(deref_rules(refs@) =~= matched_rules@);
    cascade_rule_refs(inline_style, refs.as_slice())
}

/// `cascade_declarations` on rules held by reference.
/// The declaration that wins for each property, in the order properties
/// first appear: the declarations of `matched_rules` (in order, weighed by
/// their selectors' specificity) and then `inline_style` (weighed above all).
pub fn cascade_rule_refs(inline_style: &[(String, String)], matched_rules: &[&CssRule]) -> (r: Vec<
    (String, String),
>)
    requires
        weights_fit(deref_rules(matched_rules@)),
    ensures
        r@.map_values(|d: (String, String)| (d.0@, d.1@)) == strip_weights(
            cascade_fold(weighed_decls(inline_style@, deref_rules(matched_rules@))),
        ),
{
    let ghost rs = deref_rules(matched_rules@);
    let mut best: Vec<(String, String, u32)> = Vec::new();
    let ghost all = weighed_decls(inline_style@, rs);
    let ghost mut done: Seq<Weighed> = seq![];
    assert(entries_view(best@) =~= cascade_fold(done));
    assert(rs.skip(0) =~= rs);
    let mut ri: usize = 0;
    while ri < matched_rules.len()
        invariant
            ri <= matched_rules@.len() == rs.len(),
            rs == deref_rules(matched_rules@),
            weights_fit(rs),
            all == weighed_decls(inline_style@, rs),
            done + weighed_decls(inline_style@, rs.skip(ri as int)) == all,
            entries_view(best@) == cascade_fold(done),
            props_unique(entries_view(best@)),
        decreases matched_rules.len() - ri,
    {
        let rule: &CssRule = matched_rules[ri];
        let sp = rule.selector.specificity;
        assert(rs[ri as int] == *rule);
        assert(packed(rs[ri as int].selector.specificity) <= u32::MAX);
        let w: u32 = sp.0 * 1000 + sp.1 * 100 + sp.2;
        let ghost rd = rule_decls(*rule);
        proof {
            assert(rs.skip(ri as int).drop_first() =~= rs.skip(ri + 1));
            assert(rs.skip(ri as int)[0] == *rule);
        }
        let mut di: usize = 0;
        while di < rule.style.len()
            invariant
                di <= rule.style@.len(),
                rd == rule_decls(*rule),
                w == packed(rule.selector.specificity),
                entries_view(best@) == cascade_fold(done + rd.take(di as int)),
                props_unique(entries_view(best@)),
            decreases rule.style.len() - di,
        {
            proof {
                lemma_cascade_props(done + rd.take(di as int));
                assert((done + rd.take(di + 1)).drop_last() =~= done + rd.take(di as int));
                assert((done + rd.take(di + 1)).last() == (rule.style@[di as int].0@, rule.style@[di as int].1@, w as int));
            }
            absorb_decl(&mut best, &rule.style[di].0, &rule.style[di].1, w);
            di += 1;
        }
        proof {
            assert(rd.take(rd.len() as int) =~= rd);
            assert(done + rd + weighed_decls(inline_style@, rs.skip(ri + 1)) =~= done
                + weighed_decls(inline_style@, rs.skip(ri as int)));
            done = done + rd;
        }
        ri += 1;
    }
    let ghost il = inline_style@.map_values(|d: (String, String)| (d.0@, d.1@, inline_weight()));
    proof {
        assert(rs.skip(ri as int).len() == 0);
        assert(done + il == all);
    }
    let mut ii: usize = 0;
    while ii < inline_style.len()
        invariant
            ii <= inline_style@.len(),
            il == inline_style@.map_values(|d: (String, String)| (d.0@, d.1@, inline_weight())),
            entries_view(best@) == cascade_fold(done + il.take(ii as int)),
            props_unique(entries_view(best@)),
        decreases inline_style.len() - ii,
    {
        proof {
            assert((done + il.take(ii + 1)).drop_last() =~= done + il.take(ii as int));
        }
        absorb_decl(&mut best, &inline_style[ii].0, &inline_style[ii].1, u32::MAX);
        ii += 1;
    }
    proof {
        assert(il.take(il.len() as int) =~= il);
    }
    let mut r: Vec<(String, String)> = Vec::new();
    let mut k: usize = 0;
    while k < best.len()
        invariant
            k <= best@.len(),
            r@.len() == k,
            forall|j: int| 0 <= j < k ==> (#[trigger] r@[j]).0@ == best@[j].0@ && r@[j].1@ == best@[j].1@,
        decreases best.len() - k,
    {
        let e = (owned(best[k].0.as_str()), owned(best[k].1.as_str()));
        r.push(e);
        k += 1;
    }
    proof {
        let lhs = r@.map_values(|d: (String, String)| (d.0@, d.1@));
        let rhs = strip_weights(entries_view(best@));
        assert(lhs.len() == rhs.len());
        assert forall|j: int| 0 <= j < lhs.len() implies #[trigger] lhs[j] == rhs[j] by {
            assert(r@[j].0@ == best@[j].0@);
        }
        assert(lhs =~= rhs);
    }
    r
}

// ═══════════════════════ colours ═══════════════════════

/// Whether `c` is a hexadecimal digit.
pub open spec fn is_hex_digit(c: char) -> bool {
    ('0' <= c <= '9') || ('a' <= c <= 'f') || ('A' <= c <= 'F')
}

/// The value of a hexadecimal digit.
pub open spec fn hex_val(c: char) -> int {
    if '0' <= c <= '9' {
        c as int - '0' as int
    } else if 'a' <= c <= 'f' {
        c as int - 'a' as int + 10
    } else {
        c as int - 'A' as int + 10
    }
}

/// The value of a run of hexadecimal digits.
pub open spec fn hex_digits_value(s: Seq<char>) -> int
    decreases s.len(),
{
    if s.len() == 0 {
        0
    } else {
        hex_digits_value(s.drop_last()) * 16 + hex_val(s.last())
    }
}

pub open spec fn all_hex(s: Seq<char>) -> bool {
    forall|i: int| 0 <= i < s.len() ==> is_hex_digit(#[trigger] s[i])
}

/// `u32::from_str_radix(s, 16)`: an optional `+`, then one or more
/// hexadecimal digits, nothing else, with a value that fits in `u32`.
pub open spec fn hex_u32_spec(s: Seq<char>) -> Option<u32> {
    let d = if s.len() > 0 && s[0] == '+' { s.drop_first() } else { s };
    if d.len() > 0 && all_hex(d) && hex_digits_value(d) <= u32::MAX {
        Some(hex_digits_value(d) as u32)
    } else {
        None
    }
}

/// The colour, as `0xAARRGGBB`, that a lowercased and trimmed value names:
/// one of six names, `#rrggbb`, `#rgb` or `rgb(r, g, b)`.
pub open spec fn color_spec(v: Seq<char>) -> Option<u32> {
    if v == "black"@ {
        Some(0xFF000000u32)
    } else if v == "white"@ {
        Some(0xFFFFFFFFu32)
    } else if v == "red"@ {
        Some(0xFFFF0000u32)
    } else if v == "green"@ {
        Some(0xFF00FF00u32)
    } else if v == "blue"@ {
        Some(0xFF0000FFu32)
    } else if v == "transparent"@ {
        Some(0x00000000u32)
    } else if v.len() > 0 && v[0] == '#' {
        let hex = v.drop_first();
        if utf8_len(hex) == 6 {
            match hex_u32_spec(hex) {
                Some(c) => Some((0xFF000000 + c) as u32),
                None => None,
            }
        } else if utf8_len(hex) == 3 {
            match (
                hex_u32_spec(hex.subrange(0, 1)),
                hex_u32_spec(hex.subrange(1, 2)),
                hex_u32_spec(hex.subrange(2, 3)),
            ) {
                (Some(r), Some(g), Some(b)) => Some(
                    (0xFF000000 + r * 0x11 * 0x10000 + g * 0x11 * 0x100 + b * 0x11) as u32,
                ),
                _ => None,
            }
        } else {
            None
        }
    } else if v.len() >= 5 && v.take(4) == "rgb("@ && v.last() == ')' {
        let parts = split(v.subrange(4, v.len() - 1), ',');
        if parts.len() == 3 {
            match (
                parse_u8_spec(trim(parts[0])),
                parse_u8_spec(trim(parts[1])),
                parse_u8_spec(trim(parts[2])),
            ) {
                (Some(r), Some(g), Some(b)) => Some(
                    (0xFF000000 + r * 0x10000 + g * 0x100 + b) as u32,
                ),
                _ => None,
            }
        } else {
            None
        }
    } else {
        None
    }
}

/// Whether reading `v` would cut a character in two: the three bytes after
/// `#` are sliced one by one, which splits any non-ASCII character there.
pub open spec fn cuts_char(v: Seq<char>) -> bool {
    v.len() > 0 && v[0] == '#' && utf8_len(v.drop_first()) == 3 && !all_ascii(v.drop_first())
}

proof fn lemma_utf8_len_ascii(s: Seq<char>)
    requires
        all_ascii(s),
    ensures
        utf8_len(s) == s.len(),
    decreases s.len(),
{
    if s.len() > 0 {
        lemma_utf8_len_ascii(s.drop_last());
    }
}

proof fn lemma_utf8_len_ge(s: Seq<char>)
    ensures
        utf8_len(s) >= s.len(),
        !all_ascii(s) ==> utf8_len(s) > s.len(),
    decreases s.len(),
{
    if s.len() > 0 {
        lemma_utf8_len_ge(s.drop_last());
        if !all_ascii(s) && all_ascii(s.drop_last()) {
            if crate::text::is_ascii_char(s.last()) {
                assert forall|i: int| 0 <= i < s.len() implies crate::text::is_ascii_char(
                    #[trigger] s[i],
                ) by {
                    if i < s.len() - 1 {
                        assert(s.drop_last()[i] == s[i]);
                    }
                }
            }
        }
    }
}

proof fn lemma_utf8_len_prefix(s: Seq<char>, i: int)
    requires
        0 <= i <= s.len(),
    ensures
        utf8_len(s.take(i)) <= utf8_len(s),
    decreases s.len() - i,
{
    if i < s.len() {
        lemma_utf8_len_prefix(s, i + 1);
        assert(s.take(i + 1).drop_last() =~= s.take(i));
    } else {
        assert(s.take(i) =~= s);
    }
}

/// The UTF-8 length of `v` when it is at most 8 bytes.
fn utf8_len_small(v: &[char]) -> (r: Option<usize>)
    ensures
        r matches Some(n) ==> n == utf8_len(v@) && n <= 8,
        r is None ==> utf8_len(v@) > 8,
{
    let mut n: usize = 0;
    let mut i: usize = 0;
    while i < v.len()
        invariant
            i <= v@.len(),
            n == utf8_len(v@.take(i as int)),
            n <= 8,
        decreases v.len() - i,
    {
        proof {
            assert(v@.take(i + 1).drop_last() =~= v@.take(i as int));
        }
        let c = v[i] as u32;
        if c < 0x80 {
            n = n + 1;
        } else if c < 0x800 {
            n = n + 2;
        } else if c < 0x10000 {
            n = n + 3;
        } else {
            n = n + 4;
        }
        i += 1;
        if n > 8 {
            proof {
                lemma_utf8_len_prefix(v@, i as int);
            }
            return None;
        }
    }
    assert(v@.take(v@.len() as int) =~= v@);
    Some(n)
}

proof fn lemma_hex_value_bound(s: Seq<char>)
    requires
        hex_u32_spec(s) is Some,
    ensures
        hex_u32_spec(s)->0 < crate::text::pow16(s.len()),
{
    let d = if s.len() > 0 && s[0] == '+' { s.drop_first() } else { s };
    lemma_hex_bound(d);
    crate::text::lemma_pow16_le(d.len(), s.len());
}

fn hex_digit_value(c: char) -> (r: Option<u32>)
    ensures
        r matches Some(x) ==> is_hex_digit(c) && x == hex_val(c),
        r is None ==> !is_hex_digit(c),
{
    if '0' <= c && c <= '9' {
        Some(c as u32 - '0' as u32)
    } else if 'a' <= c && c <= 'f' {
        Some(c as u32 - 'a' as u32 + 10)
    } else if 'A' <= c && c <= 'F' {
        Some(c as u32 - 'A' as u32 + 10)
    } else {
        None
    }
}

proof fn lemma_hex_bound(s: Seq<char>)
    requires
        all_hex(s),
    ensures
        0 <= hex_digits_value(s) < crate::text::pow16(s.len()),
    decreases s.len(),
{
    if s.len() > 0 {
        lemma_hex_bound(s.drop_last());
        assert(is_hex_digit(s.last()));
    }
}

/// `u32::from_str_radix(s, 16)` on at most seven characters.
fn parse_hex(v: &[char]) -> (r: Option<u32>)
    requires
        v@.len() <= 7,
    ensures
        r == hex_u32_spec(v@),
{
    let n = v.len();
    let start: usize = if n > 0 && v[0] == '+' { 1 } else { 0 };
    let ghost d = if v@.len() > 0 && v@[0] == '+' { v@.drop_first() } else { v@ };
    proof {
        if start == 1 {
            assert(d =~= v@.skip(1));
        } else {
            assert(d =~= v@.skip(0));
        }
    }
    if start == n {
        return None;
    }
    let mut acc: u32 = 0;
    let mut i = start;
    while i < n
        invariant
            start <= i <= n == v@.len() <= 7,
            start <= 1,
            d == v@.skip(start as int),
            d == (if v@.len() > 0 && v@[0] == '+' { v@.drop_first() } else { v@ }),
            all_hex(v@.subrange(start as int, i as int)),
            acc == hex_digits_value(v@.subrange(start as int, i as int)),
            acc < crate::text::pow16((i - start) as nat),
        decreases n - i,
    {
        let ghost prev = v@.subrange(start as int, i as int);
        proof {
            assert(v@.subrange(start as int, i + 1).drop_last() =~= prev);
            crate::text::lemma_pow16_le((i - start) as nat, 6);
        }
        match hex_digit_value(v[i]) {
            Some(x) => {
                acc = acc * 16 + x;
                i += 1;
            },
            None => {
                proof {
                    assert(d[i - start] == v@[i as int]);
                    assert(!is_hex_digit(d[i - start]));
                }
                return None;
            },
        }
    }
    proof {
        assert(v@.subrange(start as int, n as int) =~= d);
    }
    Some(acc)
}

/// The colour that a CSS value names, as `0xAARRGGBB`: `black`, `white`,
/// `red`, `green`, `blue` or `transparent`; `#rrggbb`; `#rgb`, each digit
/// doubled; or `rgb(r, g, b)` with components from 0 to 255. Case and
/// surrounding white space do not matter. `None` for anything else.
pub fn parse_color(value: &str) -> (r: Option<u32>)
    requires
        all_ascii(trim(value@)) || !cuts_char(lowercase_of(trim(value@))),
    ensures
        r == color_spec(lowercase_of(trim(value@))),
        all_ascii(trim(value@)) ==> r == color_spec(
            trim(value@).map_values(|c: char| ascii_lower(c)),
        ),
{
    let raw = chars_of(value);
    let t = trim_chars(&raw);
    let v = lowercase(&t);
    proof {
        reveal_strlit("black");
        reveal_strlit("white");
        reveal_strlit("red");
        reveal_strlit("green");
        reveal_strlit("blue");
        reveal_strlit("transparent");
        reveal_strlit("rgb(");
    }
    if crate::text::eq_lit(&v, "black") {
        return Some(0xFF000000);
    }
    if crate::text::eq_lit(&v, "white") {
        return Some(0xFFFFFFFF);
    }
    if crate::text::eq_lit(&v, "red") {
        return Some(0xFFFF0000);
    }
    if crate::text::eq_lit(&v, "green") {
        return Some(0xFF00FF00);
    }
    if crate::text::eq_lit(&v, "blue") {
        return Some(0xFF0000FF);
    }
    if crate::text::eq_lit(&v, "transparent") {
        return Some(0x00000000);
    }
    if v.len() > 0 && v[0] == '#' {
        let hex = crate::text::suffix(&v, 1);
        assert(hex@ =~= v@.drop_first());
        proof {
            lemma_utf8_len_ge(hex@);
            crate::text::lemma_pow16_le(0, 0);
        }
        return match utf8_len_small(&hex) {
            Some(6) => match parse_hex(&hex) {
                Some(c) => {
                    proof {
                        lemma_hex_value_bound(hex@);
                        crate::text::lemma_pow16_le(hex@.len(), 6);
                    }
                    Some(0xFF000000 + c)
                },
                None => None,
            },
            Some(3) => {
                proof {
                    if all_ascii(t@) {
                        assert forall|i: int| 0 <= i < hex@.len() implies crate::text::is_ascii_char(
                            #[trigger] hex@[i],
                        ) by {
                            assert(hex@[i] == v@[i + 1]);
                            assert(v@[i + 1] == ascii_lower(t@[i + 1]));
                        }
                    }
                    assert(all_ascii(hex@));
                    lemma_utf8_len_ascii(hex@);
                }
                let r = parse_hex(&slice_of(&hex, 0, 1));
                let g = parse_hex(&slice_of(&hex, 1, 2));
                let b = parse_hex(&slice_of(&hex, 2, 3));
                match (r, g, b) {
                    (Some(r), Some(g), Some(b)) => {
                        proof {
                            lemma_hex_value_bound(hex@.subrange(0, 1));
                            lemma_hex_value_bound(hex@.subrange(1, 2));
                            lemma_hex_value_bound(hex@.subrange(2, 3));
                        }
                        Some(0xFF000000 + r * 0x11 * 0x10000 + g * 0x11 * 0x100 + b * 0x11)
                    },
                    _ => None,
                }
            },
            _ => None,
        };
    }
    if v.len() >= 5 && crate::text::starts_with_lit(&v, "rgb(") && v[v.len() - 1] == ')' {
        let inner = slice_of(&v, 4, v.len() - 1);
        let parts = split_chars(&inner, ',');
        if parts.len() == 3 {
            let r = parse_u8(&trim_chars(&parts[0]));
            let g = parse_u8(&trim_chars(&parts[1]));
            let b = parse_u8(&trim_chars(&parts[2]));
            return match (r, g, b) {
                (Some(r), Some(g), Some(b)) => Some(
                    0xFF000000 + (r as u32) * 0x10000 + (g as u32) * 0x100 + (b as u32),
                ),
                _ => None,
            };
        }
    }
    None
}

/// Whether every character of `v` is ASCII.
fn all_ascii_exec(v: &[char]) -> (r: bool)
    ensures
        r == all_ascii(v@),
{
    let mut i: usize = 0;
    while i < v.len()
        invariant
            i <= v@.len(),
            forall|j: int| 0 <= j < i ==> crate::text::is_ascii_char(#[trigger] v@[j]),
        decreases v.len() - i,
    {
        if (v[i] as u32) >= 128 {
            assert(!crate::text::is_ascii_char(v@[i as int]));
            return false;
        }
        i += 1;
    }
    true
}

/// [`parse_color`] where it can read the value: `None` exactly when the
/// three bytes after `#` of the lowercased value hold a non-ASCII
/// character, which [`parse_color`] cannot slice.
pub fn try_parse_color(value: &str) -> (r: Option<Option<u32>>)
    ensures
        r is None <==> !all_ascii(trim(value@)) && cuts_char(lowercase_of(trim(value@))),
        r matches Some(c) ==> c == color_spec(lowercase_of(trim(value@))),
{
    let raw = chars_of(value);
    let t = trim_chars(&raw);
    let v = lowercase(&t);
    if !all_ascii_exec(&t) && v.len() > 0 && v[0] == '#' {
        let hex = crate::text::suffix(&v, 1);
        assert(hex@ =~= v@.drop_first());
        if utf8_len_small(&hex) == Some(3usize) && !all_ascii_exec(&hex) {
            return None;
        }
    }
    Some(parse_color(value))
}


// ═══════════════════════ packed colours ═══════════════════════

/// The opaque colour `0xFFRRGGBB` with the given components.
pub open spec fn opaque_color(r: u8, g: u8, b: u8) -> int {
    0xFF000000 + r * 0x10000 + g * 0x100 + b
}

/// An opaque colour packed from its red, green and blue components, for a
/// background.
pub fn bg_color_rgb(r: u8, g: u8, b: u8) -> (c: u32)
    ensures
        c == opaque_color(r, g, b),
{
    0xFF00_0000u32 + (r as u32) * 0x1_0000 + (g as u32) * 0x100 + (b as u32)
}

/// An opaque colour packed from its components, for text: the same packing
/// as for a background.
pub fn text_color_rgb(r: u8, g: u8, b: u8) -> (c: u32)
    ensures
        c == opaque_color(r, g, b),
{
    bg_color_rgb(r, g, b)
}

/// The uppercase hexadecimal digit of `d`, below sixteen.
pub open spec fn hex_digit_char(d: int) -> char {
    if d < 10 {
        (48 + d) as char
    } else {
        (55 + d) as char
    }
}

/// The last `n` hexadecimal digits of `v`, uppercase, most significant
/// first, with leading zeros.
pub open spec fn hex_fixed(v: nat, n: nat) -> Seq<char>
    decreases n,
{
    if n == 0 {
        seq![]
    } else {
        hex_fixed(v / 16, (n - 1) as nat).push(hex_digit_char((v % 16) as int))
    }
}

/// `#RRGGBB`: the red, green and blue bytes of a packed colour in
/// uppercase hexadecimal, the alpha byte left out.
pub open spec fn color_hex_spec(color: u32) -> Seq<char> {
    seq!['#'] + hex_fixed((color % 0x100_0000) as nat, 6)
}

fn hex_digit(d: u32) -> (c: char)
    requires
        d < 16,
    ensures
        c == hex_digit_char(d as int),
{
    let b: u8 = if d < 10 {
        48 + d as u8
    } else {
        55 + d as u8
    };
    b as char
}

fn hex_fixed_exec(v: u32, n: usize) -> (r: Vec<char>)
    ensures
        r@ == hex_fixed(v as nat, n as nat),
    decreases n,
{
    if n == 0 {
        Vec::new()
    } else {
        let mut r = hex_fixed_exec(v / 16, n - 1);
        r.push(hex_digit(v % 16));
        r
    }
}

/// A packed colour as `#RRGGBB`.
pub fn color_to_hex(color: u32) -> (r: String)
    ensures
        r@ == color_hex_spec(color),
{
    let mut digits: Vec<char> = Vec::new();
    digits.push('#');
    let rest = hex_fixed_exec(color % 0x100_0000, 6);
    let mut i: usize = 0;
    while i < rest.len()
        invariant
            i <= rest@.len(),
            digits@ == seq!['#'] + rest@.take(i as int),
        decreases rest.len() - i,
    {
        digits.push(rest[i]);
        i += 1;
        assert(rest@.take(i as int) =~= rest@.take((i - 1) as int).push(rest@[i - 1]));
    }
    assert(rest@.take(rest@.len() as int) =~= rest@);
    crate::text::string_of(&digits)
}

} // verus!
