//! Style sheets, rules and declarations.
use vstd::prelude::*;

use crate::runtime::style_manager::{strip_comments, strip_spec};
use crate::text::{
    chars_of, eq_pred, find_char, find_char_in, lemma_find_first_bounds, lemma_trim_start_suffix, owned,
    slice_of, split, split_chars, string_of, strip_suffix, strip_suffix_lit, strs, suffix, trim,
    trim_chars, trim_matches, trim_matches_chars, trim_start, trim_start_chars, views, eq_str,
};

verus! {

/// A rule: its selectors as written and its declarations.
#[derive(Debug, Clone)]
pub struct Rule {
    pub selectors: Vec<String>,
    pub declarations: Vec<Declaration>,
}

/// A declaration: property, value, and whether it is `!important`.
#[derive(Debug, Clone)]
pub struct Declaration {
    pub property: String,
    pub value: String,
    pub important: bool,
}

/// A style sheet: its rules and where it came from.
#[derive(Debug, Clone)]
pub struct StyleSheet {
    pub rules: Vec<Rule>,
    pub url: String,
}

impl StyleSheet {
    /// An empty sheet from `url`.
    pub fn new(url: &str) -> (r: Self)
        ensures
            r.rules@.len() == 0,
            r.url@ == url@,
    {
        Self { rules: Vec::new(), url: owned(url) }
    }
}

// ═══════════════════════ style sheet text ═══════════════════════

/// A declaration of a rule from one `;`-separated piece: `prop: value`,
/// both sides trimmed, the property not empty; a value that ends in
/// `!important` makes the declaration important and is read without it.
pub open spec fn sheet_decl(piece: Seq<char>) -> Option<(Seq<char>, Seq<char>, bool)> {
    let p = trim(piece);
    match find_char(p, ':') {
        None => None,
        Some(i) => {
            let prop = trim(p.take(i));
            let val = trim(p.skip(i + 1));
            if prop.len() == 0 {
                None
            } else {
                match strip_suffix(val, "!important"@) {
                    Some(v) => Some((prop, trim(v), true)),
                    None => Some((prop, val, false)),
                }
            }
        }
    }
}

/// The declarations of a rule's pieces, in order.
pub open spec fn sheet_decls(pieces: Seq<Seq<char>>) -> Seq<(Seq<char>, Seq<char>, bool)>
    decreases pieces.len(),
{
    if pieces.len() == 0 {
        seq![]
    } else {
        sheet_decls(pieces.drop_last()) + match sheet_decl(pieces.last()) {
            Some(d) => seq![d],
            None => seq![],
        }
    }
}

/// The selectors of a rule's comma-separated pieces: each trimmed, the
/// blank ones left out.
pub open spec fn sheet_selectors(pieces: Seq<Seq<char>>) -> Seq<Seq<char>>
    decreases pieces.len(),
{
    if pieces.len() == 0 {
        seq![]
    } else {
        sheet_selectors(pieces.drop_last()) + if trim(pieces.last()).len() > 0 {
            seq![trim(pieces.last())]
        } else {
            seq![]
        }
    }
}

/// The position from `i` of the `}` that closes a block, with `depth`
/// blocks opened inside it still open; `None` when the text ends first.
pub open spec fn close_brace(t: Seq<char>, i: int, depth: nat) -> Option<int>
    decreases t.len() - i,
{
    if i < 0 || i >= t.len() {
        None
    } else if t[i] == '}' {
        if depth == 0 {
            Some(i)
        } else {
            close_brace(t, i + 1, (depth - 1) as nat)
        }
    } else if t[i] == '{' {
        close_brace(t, i + 1, depth + 1)
    } else {
        close_brace(t, i + 1, depth)
    }
}

pub proof fn lemma_close_brace(t: Seq<char>, i: int, depth: nat)
    ensures
        close_brace(t, i, depth) matches Some(e) ==> 0 <= i <= e < t.len(),
    decreases t.len() - i,
{
    if 0 <= i < t.len() {
        if t[i] == '}' {
            if depth > 0 {
                lemma_close_brace(t, i + 1, (depth - 1) as nat);
            }
        } else if t[i] == '{' {
            lemma_close_brace(t, i + 1, depth + 1);
        } else {
            lemma_close_brace(t, i + 1, depth);
        }
    }
}

/// A rule as selectors and declarations.
pub type RuleModel = (Seq<Seq<char>>, Seq<(Seq<char>, Seq<char>, bool)>);

/// Whether `t` starts with a statement at-rule, such as `@import "a.css";`:
/// an `@` with a `;` before any `{`.
pub open spec fn at_statement(t: Seq<char>) -> bool {
    &&& t.len() > 0
    &&& t[0] == '@'
    &&& find_char(t, ';') is Some
    &&& (find_char(t, '{') is None || find_char(t, ';')->0 < find_char(t, '{')->0)
}

/// The rules of style sheet text without comments, one after another:
/// `selectors { declarations }` gives a rule when it names a selector;
/// at-rules, with their blocks (`@media`, `@keyframes`, `@font-face`) or
/// up to their `;` (`@import`), are read elsewhere and passed over here; a
/// stray `}` is passed over; the text ends with the last closed block.
pub open spec fn sheet_rules(r: Seq<char>) -> Seq<RuleModel>
    decreases r.len(),
{
    let t = trim_start(r);
    proof {
        lemma_trim_start_suffix(r);
    }
    if t.len() == 0 {
        seq![]
    } else if t[0] == '}' {
        sheet_rules(t.skip(1))
    } else if at_statement(t) {
        proof {
            lemma_find_first_bounds(t, eq_pred(';'));
        }
        sheet_rules(t.skip(find_char(t, ';')->0 + 1))
    } else {
        match find_char(t, '{') {
            None => seq![],
            Some(bs) => {
                proof {
                    lemma_find_first_bounds(t, eq_pred('{'));
                    lemma_close_brace(t, bs + 1, 0);
                }
                match close_brace(t, bs + 1, 0) {
                    None => seq![],
                    Some(be) => {
                        let prelude = trim(t.take(bs));
                        let sels = sheet_selectors(split(prelude, ','));
                        let here: Seq<RuleModel> = if prelude.len() > 0 && prelude[0] != '@' && sels.len()
                            > 0 {
                            seq![(sels, sheet_decls(split(t.subrange(bs + 1, be), ';')))]
                        } else {
                            seq![]
                        };
                        here + sheet_rules(t.skip(be + 1))
                    },
                }
            },
        }
    }
}

/// The model of a rule.
pub open spec fn view_rule(r: Rule) -> RuleModel {
    (strs(r.selectors@), r.declarations@.map_values(|d: Declaration| view_declaration(d)))
}

/// The model of a list of rules.
pub open spec fn view_rules(s: Seq<Rule>) -> Seq<RuleModel> {
    s.map_values(|r: Rule| view_rule(r))
}

fn sheet_decl_exec(piece: &[char]) -> (r: Option<Declaration>)
    ensures
        match r {
            Some(d) => sheet_decl(piece@) == Some(view_declaration(d)),
            None => sheet_decl(piece@) is None,
        },
{
    let p = trim_chars(piece);
    match find_char_in(&p, ':') {
        None => None,
        Some(i) => {
            proof {
                lemma_find_first_bounds(p@, eq_pred(':'));
                assert(p@.subrange(0, i as int) =~= p@.take(i as int));
            }
            let prop = trim_chars(&slice_of(&p, 0, i));
            let val = trim_chars(&suffix(&p, i + 1));
            if prop.len() == 0 {
                return None;
            }
            match strip_suffix_lit(&val, "!important") {
                Some(v) => {
                    let v2 = trim_chars(&v);
                    Some(Declaration { property: string_of(&prop), value: string_of(&v2), important: true })
                },
                None => Some(Declaration { property: string_of(&prop), value: string_of(&val), important: false }),
            }
        },
    }
}

fn sheet_decls_exec(body: &[char]) -> (r: Vec<Declaration>)
    ensures
        r@.map_values(|d: Declaration| view_declaration(d)) == sheet_decls(split(body@, ';')),
{
    let pieces = split_chars(body, ';');
    let ghost ps = split(body@, ';');
    let mut out: Vec<Declaration> = Vec::new();
    let mut i: usize = 0;
    proof {
        assert(ps.take(0) =~= Seq::<Seq<char>>::empty());
        assert(out@.map_values(|d: Declaration| view_declaration(d)) =~= Seq::<(Seq<char>, Seq<char>, bool)>::empty());
    }
    while i < pieces.len()
        invariant
            i <= pieces@.len(),
            views(pieces@) == ps,
            ps == split(body@, ';'),
            out@.map_values(|d: Declaration| view_declaration(d)) == sheet_decls(ps.take(i as int)),
        decreases pieces.len() - i,
    {
        proof {
            assert(ps.take(i + 1).drop_last() =~= ps.take(i as int));
            assert(ps[i as int] == pieces@[i as int]@);
        }
        let ghost before = out@;
        match sheet_decl_exec(&pieces[i]) {
            Some(d) => {
                out.push(d);
                proof {
                    assert(out@.map_values(|d: Declaration| view_declaration(d)) =~= before.map_values(
                        |d: Declaration| view_declaration(d),
                    ) + seq![view_declaration(d)]);
                }
            },
            None => {
                proof {
                    assert(sheet_decls(ps.take(i + 1)) =~= sheet_decls(ps.take(i as int)));
                }
            },
        }
        i += 1;
    }
    assert(ps.take(ps.len() as int) =~= ps);
    out
}

fn sheet_selectors_exec(prelude: &[char]) -> (r: Vec<String>)
    ensures
        strs(r@) == sheet_selectors(split(prelude@, ',')),
{
    let pieces = split_chars(prelude, ',');
    let ghost ps = split(prelude@, ',');
    let mut out: Vec<String> = Vec::new();
    let mut i: usize = 0;
    proof {
        assert(ps.take(0) =~= Seq::<Seq<char>>::empty());
        assert(strs(out@) =~= Seq::<Seq<char>>::empty());
    }
    while i < pieces.len()
        invariant
            i <= pieces@.len(),
            views(pieces@) == ps,
            ps == split(prelude@, ','),
            strs(out@) == sheet_selectors(ps.take(i as int)),
        decreases pieces.len() - i,
    {
        proof {
            assert(ps.take(i + 1).drop_last() =~= ps.take(i as int));
            assert(ps[i as int] == pieces@[i as int]@);
        }
        let ghost before = out@;
        let t = trim_chars(&pieces[i]);
        if t.len() > 0 {
            out.push(string_of(&t));
            proof {
                assert(strs(out@) =~= strs(before) + seq![t@]);
            }
        } else {
            proof {
                assert(sheet_selectors(ps.take(i + 1)) =~= sheet_selectors(ps.take(i as int)));
            }
        }
        i += 1;
    }
    assert(ps.take(ps.len() as int) =~= ps);
    out
}

fn close_brace_exec(t: &[char], start: usize) -> (r: Option<usize>)
    requires
        start <= t@.len(),
    ensures
        match r {
            Some(e) => close_brace(t@, start as int, 0) == Some(e as int),
            None => close_brace(t@, start as int, 0) is None,
        },
{
    let mut i = start;
    let mut depth: usize = 0;
    while i < t.len()
        invariant
            start <= i <= t@.len(),
            depth <= i,
            close_brace(t@, start as int, 0) == close_brace(t@, i as int, depth as nat),
        decreases t.len() - i,
    {
        if t[i] == '}' {
            if depth == 0 {
                return Some(i);
            }
            depth -= 1;
        } else if t[i] == '{' {
            depth += 1;
        }
        i += 1;
    }
    None
}

/// Reads a whole style sheet: comments are taken out, then each rule
/// `selectors { declarations }` gives a rule with its selectors (split at
/// commas, trimmed, blank ones left out) and its declarations (split at
/// `;`, `prop: value` trimmed, `!important` read off the value); at-rules
/// and stray `}` are passed over; the sheet keeps its URL.
pub fn parse_stylesheet(css: &str, url: &str) -> (r: StyleSheet)
    ensures
        view_rules(r.rules@) == sheet_rules(strip_spec(css@)),
        r.url@ == url@,
{
    let stripped = strip_comments(css);
    let v = chars_of(stripped.as_str());
    let mut rules: Vec<Rule> = Vec::new();
    let mut remaining = v;
    proof {
        assert(view_rules(rules@) =~= Seq::<RuleModel>::empty());
        assert(Seq::<RuleModel>::empty() + sheet_rules(remaining@) =~= sheet_rules(remaining@));
    }
    while remaining.len() > 0
        invariant
            v@ == strip_spec(css@),
            sheet_rules(v@) == view_rules(rules@) + sheet_rules(remaining@),
        ensures
            sheet_rules(v@) == view_rules(rules@),
        decreases remaining@.len(),
    {
        let ghost r0 = remaining@;
        let ghost old_rules = rules@;
        let t = trim_start_chars(&remaining);
        proof {
            lemma_trim_start_suffix(r0);
        }
        if t.len() == 0 {
            assert(view_rules(rules@) + Seq::<RuleModel>::empty() =~= view_rules(rules@));
            break;
        }
        if t[0] == '}' {
            remaining = suffix(&t, 1);
            continue;
        }
        if t[0] == '@' {
            match find_char_in(&t, ';') {
                Some(sc) => {
                    let skip = match find_char_in(&t, '{') {
                        None => true,
                        Some(ob) => sc < ob,
                    };
                    if skip {
                        proof {
                            lemma_find_first_bounds(t@, eq_pred(';'));
                        }
                        remaining = suffix(&t, sc + 1);
                        continue;
                    }
                },
                None => {},
            }
        }
        assert(!at_statement(t@));
        let bs = match find_char_in(&t, '{') {
            Some(b) => b,
            None => {
                assert(view_rules(rules@) + Seq::<RuleModel>::empty() =~= view_rules(rules@));
                break;
            },
        };
        proof {
            lemma_find_first_bounds(t@, eq_pred('{'));
            lemma_close_brace(t@, bs + 1, 0);
        }
        let be = match close_brace_exec(&t, bs + 1) {
            Some(e) => e,
            None => {
                assert(view_rules(rules@) + Seq::<RuleModel>::empty() =~= view_rules(rules@));
                break;
            },
        };
        let prelude = trim_chars(&slice_of(&t, 0, bs));
        proof {
            assert(t@.subrange(0, bs as int) =~= t@.take(bs as int));
        }
        let sels = sheet_selectors_exec(&prelude);
        let ghost here: Seq<RuleModel> = if prelude@.len() > 0 && prelude@[0] != '@' && strs(sels@).len() > 0 {
            seq![(strs(sels@), sheet_decls(split(t@.subrange(bs + 1, be as int), ';')))]
        } else {
            seq![]
        };
        if prelude.len() > 0 && prelude[0] != '@' && sels.len() > 0 {
            let body = slice_of(&t, bs + 1, be);
            let decls = sheet_decls_exec(&body);
            let rule = Rule { selectors: sels, declarations: decls };
            rules.push(rule);
            proof {
                assert(view_rules(rules@) =~= view_rules(old_rules).push(view_rule(rule)));
            }
        }
        proof {
            assert(view_rules(rules@) =~= view_rules(old_rules) + here);
        }
        remaining = suffix(&t, be + 1);
        proof {
            assert(view_rules(rules@) + sheet_rules(remaining@) =~= view_rules(old_rules) + (here
                + sheet_rules(remaining@)));
        }
    }
    StyleSheet { rules, url: owned(url) }
}

/// The declaration that one `;`-separated piece of an inline style gives:
/// `prop: value`, both sides trimmed, not important.
pub open spec fn inline_decl(piece: Seq<char>) -> Option<(Seq<char>, Seq<char>)> {
    let p = trim(piece);
    match find_char(p, ':') {
        Some(i) => Some((trim(p.take(i)), trim(p.skip(i + 1)))),
        None => None,
    }
}

/// The declarations of an inline style, from its pieces in order.
pub open spec fn inline_decls(pieces: Seq<Seq<char>>) -> Seq<(Seq<char>, Seq<char>)>
    decreases pieces.len(),
{
    if pieces.len() == 0 {
        seq![]
    } else {
        inline_decls(pieces.drop_last()) + match inline_decl(pieces.last()) {
            Some(d) => seq![d],
            None => seq![],
        }
    }
}

/// The model of a declaration.
pub open spec fn view_declaration(d: Declaration) -> (Seq<char>, Seq<char>, bool) {
    (d.property@, d.value@, d.important)
}

/// Reads an inline style (`style` attribute): pieces split by `;`, each
/// with a `:` giving a declaration, trimmed on both sides.
pub fn parse_inline_style(css: &str) -> (r: Vec<Declaration>)
    ensures
        r@.map_values(|d: Declaration| view_declaration(d)) == inline_decls(split(css@, ';')).map_values(
            |d: (Seq<char>, Seq<char>)| (d.0, d.1, false),
        ),
{
    let v = chars_of(css);
    let pieces = split_chars(&v, ';');
    let ghost ps = split(css@, ';');
    let mut decls: Vec<Declaration> = Vec::new();
    let mut i: usize = 0;
    let ghost f = |d: Declaration| view_declaration(d);
    let ghost g = |d: (Seq<char>, Seq<char>)| (d.0, d.1, false);
    while i < pieces.len()
        invariant
            i <= pieces@.len(),
            views(pieces@) == ps,
            ps == split(css@, ';'),
            f == (|d: Declaration| view_declaration(d)),
            g == (|d: (Seq<char>, Seq<char>)| (d.0, d.1, false)),
            decls@.map_values(f) == inline_decls(ps.take(i as int)).map_values(g),
        decreases pieces.len() - i,
    {
        proof {
            assert(ps.take(i + 1).drop_last() =~= ps.take(i as int));
            assert(ps[i as int] == pieces@[i as int]@);
        }
        let p = trim_chars(&pieces[i]);
        match find_char_in(&p, ':') {
            Some(k) => {
                proof {
                    lemma_find_first_bounds(p@, eq_pred(':'));
                    assert(p@.subrange(0, k as int) =~= p@.take(k as int));
                }
                assert(k < p.len());
                let prop = trim_chars(&slice_of(&p, 0, k));
                let val = trim_chars(&suffix(&p, k + 1));
                let d = Declaration { property: string_of(&prop), value: string_of(&val), important: false };
                let ghost before = decls@;
                decls.push(d);
                proof {
                    let pre = inline_decls(ps.take(i as int));
                    assert(inline_decls(ps.take(i + 1)) == pre + seq![(prop@, val@)]);
                    assert(decls@.map_values(f) =~= before.map_values(f).push((prop@, val@, false)));
                    assert((pre + seq![(prop@, val@)]).map_values(g) =~= pre.map_values(g).push(
                        (prop@, val@, false),
                    ));
                }
            },
            None => {
                proof {
                    let pre = inline_decls(ps.take(i as int));
                    assert(inline_decls(ps.take(i + 1)) =~= pre);
                }
            },
        }
        i += 1;
    }
    assert(ps.take(ps.len() as int) =~= ps);
    decls
}

/// Media types.
#[derive(Debug, Clone, PartialEq)]
pub enum MediaType {
    All,
    Print,
    Screen,
    Custom(String),
}

/// A `@font-face` rule.
#[derive(Debug, Clone)]
pub struct FontFaceRule {
    pub family: String,
    pub sources: Vec<String>,
    pub style: Option<String>,
    pub weight: Option<String>,
    pub display: Option<String>,
}

/// The value of the last declaration of `prop` among `ds`, if any.
pub open spec fn last_value(ds: Seq<(Seq<char>, Seq<char>, bool)>, prop: Seq<char>) -> Option<Seq<char>>
    decreases ds.len(),
{
    if ds.len() == 0 {
        None
    } else if ds.last().0 == prop {
        Some(ds.last().1)
    } else {
        last_value(ds.drop_last(), prop)
    }
}

/// The declarations of a `@font-face` rule's text: those inside its first
/// block (to the end of the text when the block is not closed), or of the
/// whole text when it has no block.
pub open spec fn font_face_decls(css: Seq<char>) -> Seq<(Seq<char>, Seq<char>, bool)> {
    let body = match find_char(css, '{') {
        None => css,
        Some(bs) => match close_brace(css, bs + 1, 0) {
            Some(be) => css.subrange(bs + 1, be),
            None => css.skip(bs + 1),
        },
    };
    sheet_decls(split(body, ';'))
}

/// A font family name without the quotes around it.
pub open spec fn unquote(v: Seq<char>) -> Seq<char> {
    trim_matches(trim_matches(v, '"'), '\'')
}

/// The model of a `@font-face` rule: family, sources, style, weight,
/// display.
pub type FontFaceModel = (Seq<char>, Seq<Seq<char>>, Option<Seq<char>>, Option<Seq<char>>, Option<Seq<char>>);

/// The `@font-face` rule that text gives: its `font-family` (the last one,
/// unquoted) is required; `src` is split at commas into sources; the last
/// `font-style`, `font-weight` and `font-display` are kept.
pub open spec fn font_face_spec(css: Seq<char>) -> Option<FontFaceModel> {
    let ds = font_face_decls(css);
    match last_value(ds, "font-family"@) {
        None => None,
        Some(f) => Some(
            (
                unquote(f),
                match last_value(ds, "src"@) {
                    Some(v) => sheet_selectors(split(v, ',')),
                    None => seq![],
                },
                last_value(ds, "font-style"@),
                last_value(ds, "font-weight"@),
                last_value(ds, "font-display"@),
            ),
        ),
    }
}

/// The model of an optional text.
pub open spec fn opt_view(o: Option<String>) -> Option<Seq<char>> {
    match o {
        Some(s) => Some(s@),
        None => None,
    }
}

fn last_value_exec(ds: &Vec<Declaration>, prop: &str) -> (r: Option<String>)
    ensures
        opt_view(r) == last_value(ds@.map_values(|d: Declaration| view_declaration(d)), prop@),
{
    let ghost dv = ds@.map_values(|d: Declaration| view_declaration(d));
    let mut k = ds.len();
    assert(dv.take(k as int) =~= dv);
    while k > 0
        invariant
            k <= ds@.len(),
            dv == ds@.map_values(|d: Declaration| view_declaration(d)),
            last_value(dv, prop@) == last_value(dv.take(k as int), prop@),
        decreases k,
    {
        proof {
            assert(dv.take(k as int).drop_last() =~= dv.take(k - 1));
            assert(dv.take(k as int).last() == view_declaration(ds@[k - 1]));
        }
        if eq_str(ds[k - 1].property.as_str(), prop) {
            return Some(owned(ds[k - 1].value.as_str()));
        }
        k -= 1;
    }
    None
}

/// Reads a `@font-face` rule: `None` when it names no `font-family`.
pub fn parse_font_face(css: &str) -> (r: Option<FontFaceRule>)
    ensures
        match r {
            Some(f) => font_face_spec(css@) == Some(
                (f.family@, strs(f.sources@), opt_view(f.style), opt_view(f.weight), opt_view(f.display)),
            ),
            None => font_face_spec(css@) is None,
        },
{
    let v = chars_of(css);
    let body = match find_char_in(&v, '{') {
        None => v,
        Some(bs) => {
            proof {
                lemma_find_first_bounds(v@, eq_pred('{'));
                lemma_close_brace(v@, bs + 1, 0);
            }
            match close_brace_exec(&v, bs + 1) {
                Some(be) => slice_of(&v, bs + 1, be),
                None => suffix(&v, bs + 1),
            }
        },
    };
    let ds = sheet_decls_exec(&body);
    let ghost dv = ds@.map_values(|d: Declaration| view_declaration(d));
    assert(dv == font_face_decls(css@));
    let family = match last_value_exec(&ds, "font-family") {
        None => return None,
        Some(f) => f,
    };
    let fv = chars_of(family.as_str());
    let unq = trim_matches_chars(&trim_matches_chars(&fv, '"'), '\'');
    let sources = match last_value_exec(&ds, "src") {
        Some(sv) => sheet_selectors_exec(&chars_of(sv.as_str())),
        None => Vec::new(),
    };
    proof {
        assert(strs(Seq::<String>::empty()) =~= Seq::<Seq<char>>::empty());
    }
    let style = last_value_exec(&ds, "font-style");
    let weight = last_value_exec(&ds, "font-weight");
    let display = last_value_exec(&ds, "font-display");
    Some(FontFaceRule { family: string_of(&unq), sources, style, weight, display })
}

/// An `@import` rule: the path and an optional media condition.
#[derive(Debug, Clone)]
pub struct ImportRule {
    pub url: String,
    pub media: Option<String>,
}

/// Why an import failed.
#[derive(Debug, Clone)]
pub enum ImportError {
    NotFound(String),
    CircularReference(String),
    ParseError(String),
}

impl StyleSheet {
    /// Loads the sheet's `@import` rules. Not done yet: it always succeeds
    /// and changes nothing.
    pub fn resolve_imports(&mut self, _base_path: &str) -> (r: Result<(), ImportError>)
        ensures
            r is Ok,
            final(self).rules@ == old(self).rules@,
            final(self).url@ == old(self).url@,
    {
        Ok(())
    }
}

} // verus!
