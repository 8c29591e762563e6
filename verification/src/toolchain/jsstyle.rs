//! Styles for elements that a script creates: the declarations of the rules
//! that match a new element, and the `:last-child` rules to refresh when
//! children are added.
use vstd::prelude::*;

use crate::text::{
    chars_of, count_char, count_char_in, find_char, has_char, join, join_chars, owned, push_all,
    push_lit, slice_of, split, split_chars, starts_with, starts_with_lit, strip_suffix,
    strip_suffix_lit, string_of, trim, trim_chars, views, eq_chars,
};
use super::css::{simple_match_spec, selector_matches, view_css_rule, words, words_exec, CssRule};

verus! {

/// A rule as plain values: selector and declarations.
pub type RuleV = (Seq<char>, Seq<(Seq<char>, Seq<char>)>);

/// The rules as plain values.
pub open spec fn rules_view(rules: Seq<CssRule>) -> Seq<RuleV> {
    rules.map_values(|r: CssRule| view_css_rule(r))
}

/// Declarations as plain values.
pub open spec fn decls_view(d: Seq<(String, String)>) -> Seq<(Seq<char>, Seq<char>)> {
    d.map_values(|x: (String, String)| (x.0@, x.1@))
}

// ═══════════════════════ `:last-child` ═══════════════════════

/// A selector without a final `:last-child`, trimmed, and whether it had
/// one.
pub open spec fn strip_last_child_spec(selector: Seq<char>) -> (Seq<char>, bool) {
    let t = trim(selector);
    match strip_suffix(t, ":last-child"@) {
        Some(x) => (trim(x), true),
        None => (t, false),
    }
}

/// A selector without a final `:last-child`, and whether it had one.
pub(crate) fn strip_last_child_selector(selector: &[char]) -> (r: (Vec<char>, bool))
    ensures
        (r.0@, r.1) == strip_last_child_spec(selector@),
{
    let t = trim_chars(selector);
    match strip_suffix_lit(&t, ":last-child") {
        Some(x) => (trim_chars(&x), true),
        None => (t, false),
    }
}

/// The runtime tests `class.contains("c")` for the class names of a
/// selector's pieces between dots.
pub open spec fn class_conditions(parts: Seq<Seq<char>>) -> Seq<Seq<char>>
    decreases parts.len(),
{
    if parts.len() == 0 {
        seq![]
    } else {
        let cls = trim(parts.last());
        let prev = class_conditions(parts.drop_last());
        if cls.len() == 0 || find_char(cls, '#') is Some || find_char(cls, ':') is Some {
            prev
        } else {
            prev.push("class.contains(\""@ + cls + "\")"@)
        }
    }
}

/// The runtime condition for a selector's classes, joined with `&&`.
pub open spec fn match_condition_spec(selector: Seq<char>) -> Seq<char> {
    join(class_conditions(split(strip_last_child_spec(selector).0, '.')), " && "@)
}

/// The runtime condition that tests an element's classes against a
/// selector.
pub(crate) fn build_match_condition(selector: &[char]) -> (r: Vec<char>)
    ensures
        r@ == match_condition_spec(selector@),
{
    let (base, _) = strip_last_child_selector(selector);
    let parts = split_chars(&base, '.');
    let ghost ps = views(parts@);
    let mut conds: Vec<Vec<char>> = Vec::new();
    let mut i: usize = 0;
    while i < parts.len()
        invariant
            i <= parts@.len(),
            ps == views(parts@),
            views(conds@) == class_conditions(ps.take(i as int)),
        decreases parts.len() - i,
    {
        assert(ps.take(i + 1).drop_last() =~= ps.take(i as int));
        assert(ps.take(i + 1).last() == parts@[i as int]@);
        let cls = trim_chars(&parts[i]);
        if !(cls.len() == 0 || has_char(&cls, '#') || has_char(&cls, ':')) {
            let mut c = chars_of("class.contains(\"");
            push_all(&mut c, &cls);
            push_lit(&mut c, "\")");
            let ghost c0 = conds@;
            conds.push(c);
            assert(views(conds@) =~= views(c0).push(c@));
        }
        i += 1;
    }
    assert(ps.take(parts@.len() as int) =~= ps);
    join_chars(&conds, " && ")
}

/// Whether a word of a selector combines more than one simple part
/// (`tag.class`, `.a.b`, `.a#b`, ..).
pub open spec fn compound(a: Seq<char>) -> bool {
    count_char(a, '.') + count_char(a, '#') + (if !starts_with(a, "."@) && !starts_with(a, "#"@) {
        1int
    } else {
        0int
    }) > 1
}

/// Whether a descendant selector has an ancestor word that is compound.
pub open spec fn compound_ancestor_spec(selector: Seq<char>) -> bool {
    let parts = words(selector);
    parts.len() > 1 && exists|k: int| 0 <= k < parts.len() - 1 && compound(#[trigger] parts[k])
}

/// Whether one of the ancestor words of `selector` is compound.
pub(crate) fn has_compound_ancestor(selector: &[char]) -> (r: bool)
    ensures
        r == compound_ancestor_spec(selector@),
{
    let parts = words_exec(selector);
    let ghost ps = parts@.map_values(|w: String| w@);
    if parts.len() <= 1 {
        return false;
    }
    let mut k: usize = 0;
    while k < parts.len() - 1
        invariant
            parts@.len() > 1,
            k <= parts@.len() - 1,
            ps == parts@.map_values(|w: String| w@),
            ps == words(selector@),
            forall|j: int| 0 <= j < k ==> !compound(#[trigger] ps[j]),
        decreases parts.len() - 1 - k,
    {
        let a = chars_of(parts[k].as_str());
        assert(a@ == ps[k as int]);
        let dots = count_char_in(&a, '.');
        let hashes = count_char_in(&a, '#');
        let has_tag: usize = if !starts_with_lit(&a, ".") && !starts_with_lit(&a, "#") {
            1
        } else {
            0
        };
        if dots as u128 + hashes as u128 + has_tag as u128 > 1 {
            return true;
        }
        k += 1;
    }
    false
}

// ═══════════════════════ styles of new elements ═══════════════════════

/// The declarations of the rules that an element with tag `tag` and the
/// class list `classes` matches, in rule order; without a class, rules
/// with a compound ancestor are passed over.
pub open spec fn matched_decls(
    rules: Seq<RuleV>,
    tag: Seq<char>,
    no_class: bool,
    classes: Seq<Seq<char>>,
) -> Seq<(Seq<char>, Seq<char>)>
    decreases rules.len(),
{
    if rules.len() == 0 {
        seq![]
    } else {
        let prev = matched_decls(rules.drop_last(), tag, no_class, classes);
        let r = rules.last();
        if !(no_class && compound_ancestor_spec(r.0)) && simple_match_spec(r.0, tag, classes, None) {
            prev + r.1
        } else {
            prev
        }
    }
}

/// A declaration as text: `name: value`.
pub open spec fn decl_text(d: (Seq<char>, Seq<char>)) -> Seq<char> {
    d.0 + ": "@ + d.1
}

/// The style text for an element created by a script: the matched
/// declarations joined with `; `, if there are any.
pub open spec fn element_style_spec(tag: Seq<char>, class: Option<Seq<char>>, rules: Seq<RuleV>) -> Option<
    Seq<char>,
> {
    let classes = match class {
        Some(c) => words(c),
        None => seq![],
    };
    let decls = matched_decls(rules, tag, class is None, classes);
    if decls.len() == 0 {
        None
    } else {
        Some(join(decls.map_values(|d: (Seq<char>, Seq<char>)| decl_text(d)), "; "@))
    }
}

/// The style text for an element with tag `tag` and class attribute
/// `class` that a script creates.
pub(crate) fn lookup_styles_for_element(tag: &[char], class: Option<&[char]>, css_rules: &[CssRule]) -> (r:
    Option<Vec<char>>)
    ensures
        r matches Some(x) ==> element_style_spec(
            tag@,
            match class {
                Some(c) => Some(c@),
                None => None,
            },
            rules_view(css_rules@),
        ) == Some(x@),
        r is None ==> element_style_spec(
            tag@,
            match class {
                Some(c) => Some(c@),
                None => None,
            },
            rules_view(css_rules@),
        ) is None,
{
    let classes: Vec<String> = match class {
        Some(c) => words_exec(c),
        None => Vec::new(),
    };
    let ghost cv = classes@.map_values(|c: String| c@);
    assert(cv == match class {
        Some(c) => words(c@),
        None => seq![],
    }) by {
        if class is None {
            assert(cv =~= Seq::<Seq<char>>::empty());
        }
    }
    let ghost rv = rules_view(css_rules@);
    let tag_s = string_of(tag);
    let mut texts: Vec<Vec<char>> = Vec::new();
    let mut i: usize = 0;
    let ghost no_class = class is None;
    while i < css_rules.len()
        invariant
            i <= css_rules@.len(),
            rv == rules_view(css_rules@),
            cv == classes@.map_values(|c: String| c@),
            tag_s@ == tag@,
            no_class == class is None,
            views(texts@) == matched_decls(rv.take(i as int), tag@, no_class, cv).map_values(
                |d: (Seq<char>, Seq<char>)| decl_text(d),
            ),
        decreases css_rules.len() - i,
    {
        let rule = &css_rules[i];
        let ghost r = rv[i as int];
        assert(rv.take(i + 1).drop_last() =~= rv.take(i as int));
        assert(rv.take(i + 1).last() == r);
        assert(r == view_css_rule(*rule));
        let sel = chars_of(rule.selector.as_str());
        let skip = class.is_none() && has_compound_ancestor(&sel);
        if !skip && selector_matches(rule.selector.as_str(), tag_s.as_str(), &classes, None) {
            let mut k: usize = 0;
            let ghost t0 = views(texts@);
            let ghost ds = decls_view(rule.declarations@);
            assert(r.1 == ds);
            while k < rule.declarations.len()
                invariant
                    k <= rule.declarations@.len(),
                    ds == decls_view(rule.declarations@),
                    views(texts@) == t0 + ds.take(k as int).map_values(
                        |d: (Seq<char>, Seq<char>)| decl_text(d),
                    ),
                decreases rule.declarations.len() - k,
            {
                let mut t = chars_of(rule.declarations[k].0.as_str());
                push_lit(&mut t, ": ");
                let mut v = chars_of(rule.declarations[k].1.as_str());
                t.append(&mut v);
                let ghost x0 = texts@;
                texts.push(t);
                assert(ds[k as int] == (rule.declarations@[k as int].0@, rule.declarations@[k as int].1@));
                assert(views(texts@) =~= views(x0).push(decl_text(ds[k as int])));
                assert(ds.take(k + 1).map_values(|d: (Seq<char>, Seq<char>)| decl_text(d)) =~= ds.take(
                    k as int,
                ).map_values(|d: (Seq<char>, Seq<char>)| decl_text(d)).push(decl_text(ds[k as int])));
                k += 1;
            }
            proof {
                assert(ds.take(ds.len() as int) =~= ds);
                let prev = matched_decls(rv.take(i as int), tag@, no_class, cv);
                assert((prev + ds).map_values(|d: (Seq<char>, Seq<char>)| decl_text(d)) =~= prev.map_values(
                    |d: (Seq<char>, Seq<char>)| decl_text(d),
                ) + ds.map_values(|d: (Seq<char>, Seq<char>)| decl_text(d)));
            }
        }
        i += 1;
    }
    assert(rv.take(css_rules@.len() as int) =~= rv);
    if texts.len() == 0 {
        return None;
    }
    Some(join_chars(&texts, "; "))
}

// ═══════════════════════ `:last-child` overrides ═══════════════════════

/// The declarations of the rules whose selector, with no `:last-child`, is
/// `base` (both trimmed).
pub open spec fn base_decls_spec(rules: Seq<RuleV>, base: Seq<char>) -> Seq<(Seq<char>, Seq<char>)>
    decreases rules.len(),
{
    if rules.len() == 0 {
        seq![]
    } else {
        let prev = base_decls_spec(rules.drop_last(), base);
        let (sel, lc) = strip_last_child_spec(rules.last().0);
        if !lc && trim(sel) == trim(base) {
            prev + rules.last().1
        } else {
            prev
        }
    }
}

/// One `:last-child` override: the base selector, the declarations for the
/// last child, and those of the base rules.
pub type OverrideV = (Seq<char>, Seq<(Seq<char>, Seq<char>)>, Seq<(Seq<char>, Seq<char>)>);

/// The `:last-child` overrides among the first rules of `all`.
pub open spec fn overrides_spec(rules: Seq<RuleV>, all: Seq<RuleV>) -> Seq<OverrideV>
    decreases rules.len(),
{
    if rules.len() == 0 {
        seq![]
    } else {
        let prev = overrides_spec(rules.drop_last(), all);
        let (base, has) = strip_last_child_spec(rules.last().0);
        if has {
            prev.push((base, rules.last().1, base_decls_spec(all, base)))
        } else {
            prev
        }
    }
}

/// A `:last-child` override, as computed.
pub struct Override {
    pub base: Vec<char>,
    pub last_decls: Vec<(String, String)>,
    pub base_decls: Vec<(String, String)>,
}

/// An override as plain values.
pub open spec fn override_view(o: Override) -> OverrideV {
    (o.base@, decls_view(o.last_decls@), decls_view(o.base_decls@))
}

fn copy_decls(d: &[(String, String)]) -> (r: Vec<(String, String)>)
    ensures
        decls_view(r@) == decls_view(d@),
{
    let mut r: Vec<(String, String)> = Vec::new();
    let mut i: usize = 0;
    while i < d.len()
        invariant
            i <= d@.len(),
            decls_view(r@) == decls_view(d@).take(i as int),
        decreases d.len() - i,
    {
        let ghost r0 = r@;
        let e = (owned(d[i].0.as_str()), owned(d[i].1.as_str()));
        r.push(e);
        assert(decls_view(r@) =~= decls_view(r0).push((e.0@, e.1@)));
        assert(decls_view(d@)[i as int] == (d@[i as int].0@, d@[i as int].1@));
        assert(decls_view(r@) =~= decls_view(d@).take(i + 1));
        i += 1;
    }
    assert(decls_view(d@).take(d@.len() as int) =~= decls_view(d@));
    r
}

fn base_decls(css_rules: &[CssRule], base: &[char]) -> (r: Vec<(String, String)>)
    ensures
        decls_view(r@) == base_decls_spec(rules_view(css_rules@), base@),
{
    let ghost rv = rules_view(css_rules@);
    let tb = trim_chars(base);
    let mut out: Vec<(String, String)> = Vec::new();
    let mut i: usize = 0;
    while i < css_rules.len()
        invariant
            i <= css_rules@.len(),
            rv == rules_view(css_rules@),
            tb@ == trim(base@),
            decls_view(out@) == base_decls_spec(rv.take(i as int), base@),
        decreases css_rules.len() - i,
    {
        assert(rv.take(i + 1).drop_last() =~= rv.take(i as int));
        assert(rv.take(i + 1).last() == view_css_rule(css_rules@[i as int]));
        let sel = chars_of(css_rules[i].selector.as_str());
        let (s, lc) = strip_last_child_selector(&sel);
        if !lc && eq_chars(&trim_chars(&s), &tb) {
            let mut more = copy_decls(&css_rules[i].declarations);
            let ghost o0 = out@;
            out.append(&mut more);
            assert(decls_view(out@) =~= decls_view(o0) + decls_view(css_rules@[i as int].declarations@));
        }
        i += 1;
    }
    assert(rv.take(css_rules@.len() as int) =~= rv);
    out
}

/// The `:last-child` overrides of a style sheet.
pub(crate) fn extract_last_child_overrides(css_rules: &[CssRule]) -> (r: Vec<Override>)
    ensures
        r@.map_values(|o: Override| override_view(o)) == overrides_spec(
            rules_view(css_rules@),
            rules_view(css_rules@),
        ),
{
    let ghost rv = rules_view(css_rules@);
    let mut out: Vec<Override> = Vec::new();
    let mut i: usize = 0;
    while i < css_rules.len()
        invariant
            i <= css_rules@.len(),
            rv == rules_view(css_rules@),
            out@.map_values(|o: Override| override_view(o)) == overrides_spec(rv.take(i as int), rv),
        decreases css_rules.len() - i,
    {
        assert(rv.take(i + 1).drop_last() =~= rv.take(i as int));
        assert(rv.take(i + 1).last() == view_css_rule(css_rules@[i as int]));
        let sel = chars_of(css_rules[i].selector.as_str());
        let (base, has) = strip_last_child_selector(&sel);
        if has {
            let bd = base_decls(css_rules, &base);
            let ld = copy_decls(&css_rules[i].declarations);
            let o = Override { base, last_decls: ld, base_decls: bd };
            let ghost o0 = out@;
            out.push(o);
            assert(out@.map_values(|o: Override| override_view(o)) =~= o0.map_values(
                |o: Override| override_view(o),
            ).push(override_view(o)));
        }
        i += 1;
    }
    assert(rv.take(css_rules@.len() as int) =~= rv);
    out
}

} // verus!
