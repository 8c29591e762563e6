//! A small style sheet reader for the compiler, and simple selector tests.
use vstd::prelude::*;

use crate::text::{
    chars_of, is_ascii_whitespace, is_ascii_ws, is_ws, lemma_trim_len, owned, slice_of,
    split, split_chars, string_of, trim, trim_chars, trim_end, trim_end_chars, views, eq_chars,
    eq_lit, eq_str, lemma_trim_end_prefix,
};
use vstd::string::StringSliceAdditionalSpecFns;
use super::html::{view_elem, ElemV, HtmlElement};

verus! {

/// A style rule as the compiler reads it: selector text and declarations.
#[derive(Debug, Clone)]
pub struct CssRule {
    pub selector: String,
    pub declarations: Vec<(String, String)>,
}

// ═══════════════════════ comments ═══════════════════════

/// The position of the first `*/` in `t`, if any.
pub open spec fn close_at(t: Seq<u8>) -> Option<int>
    decreases t.len(),
{
    if t.len() < 2 {
        None
    } else if t[0] == 0x2a && t[1] == 0x2f {
        Some(0)
    } else {
        match close_at(t.drop_first()) {
            Some(k) => Some(k + 1),
            None => None,
        }
    }
}

pub proof fn lemma_close_at(t: Seq<u8>)
    ensures
        close_at(t) matches Some(k) ==> 0 <= k && k + 2 <= t.len() && t[k] == 0x2a && t[k + 1] == 0x2f,
    decreases t.len(),
{
    if t.len() >= 2 && !(t[0] == 0x2a && t[1] == 0x2f) {
        lemma_close_at(t.drop_first());
    }
}

/// The bytes of `b` with each closed `/* .. */` comment taken out; an
/// unclosed `/*` is kept as it is.
pub open spec fn strip_bytes(b: Seq<u8>) -> Seq<u8>
    decreases b.len(),
{
    if b.len() == 0 {
        seq![]
    } else if b.len() >= 2 && b[0] == 0x2f && b[1] == 0x2a && close_at(b.skip(2)) is Some {
        proof {
            lemma_close_at(b.skip(2));
        }
        strip_bytes(b.skip(2).skip(close_at(b.skip(2))->0 + 2))
    } else {
        seq![b[0]] + strip_bytes(b.skip(1))
    }
}

/// Bytes read one by one as characters (Latin-1).
pub open spec fn latin1(b: Seq<u8>) -> Seq<char> {
    b.map_values(|x: u8| x as char)
}

/// Takes the closed comments out of style sheet text; the remaining bytes
/// become one character each.
pub fn strip_css_comments(css: &str) -> (r: String)
    ensures
        r@ == latin1(strip_bytes(css.spec_bytes())),
{
    let bytes = css.as_bytes();
    let n = bytes.len();
    let ghost b = bytes@;
    let mut out: Vec<char> = Vec::new();
    let mut i: usize = 0;
    assert(b.skip(0) =~= b);
    assert(latin1(Seq::<u8>::empty()) =~= Seq::<char>::empty());
    while i < n
        invariant
            i <= n == b.len(),
            b == bytes@,
            b == css.spec_bytes(),
            latin1(strip_bytes(b)) == out@ + latin1(strip_bytes(b.skip(i as int))),
        decreases n - i,
    {
        let ghost rest = b.skip(i as int);
        if i + 1 < n && bytes[i] == 0x2f && bytes[i + 1] == 0x2a {
            // look for the closing `*/`
            let mut j: usize = i + 2;
            let mut found = false;
            proof {
                assert(rest.skip(2) =~= b.skip(j as int));
            }
            while j < n - 1
                invariant_except_break
                    !found,
                invariant
                    i + 2 <= j <= n,
                    n == b.len(),
                    b == bytes@,
                    close_at(b.skip(i + 2)) == match close_at(b.skip(j as int)) {
                        Some(k) => Some(k + (j - i - 2)),
                        None => None,
                    },
                ensures
                    found ==> j + 1 < n && b[j as int] == 0x2a && b[j + 1] == 0x2f,
                    !found ==> j + 1 >= n,
                    i + 2 <= j <= n,
                    close_at(b.skip(i + 2)) == match close_at(b.skip(j as int)) {
                        Some(k) => Some(k + (j - i - 2)),
                        None => None,
                    },
                decreases n - j,
            {
                proof {
                    assert(b.skip(j as int).drop_first() =~= b.skip(j + 1));
                }
                if bytes[j] == 0x2a && bytes[j + 1] == 0x2f {
                    found = true;
                    break;
                }
                j += 1;
            }
            if found {
                proof {
                    assert(b.skip(j as int)[0] == b[j as int]);
                    assert(b.skip(j as int)[1] == b[j + 1]);
                    assert(close_at(b.skip(j as int)) == Some(0int));
                    assert(rest.skip(2) =~= b.skip(i + 2));
                    assert(rest.skip(2).skip(j - i - 2 + 2) =~= b.skip(j + 2));
                }
                i = j + 2;
                continue;
            } else {
                proof {
                    assert(close_at(b.skip(j as int)) is None);
                    assert(rest.skip(2) =~= b.skip(i + 2));
                }
            }
        }
        proof {
            assert(rest.skip(1) =~= b.skip(i + 1));
            assert(rest[0] == b[i as int]);
            assert(latin1(seq![b[i as int]] + strip_bytes(b.skip(i + 1))) =~= seq![
                b[i as int] as char,
            ] + latin1(strip_bytes(b.skip(i + 1))));
        }
        let ghost before = out@;
        out.push(bytes[i] as char);
        proof {
            assert(before + (seq![b[i as int] as char] + latin1(strip_bytes(b.skip(i + 1)))) =~= out@
                + latin1(strip_bytes(b.skip(i + 1))));
        }
        i += 1;
    }
    proof {
        assert(b.skip(n as int) =~= Seq::<u8>::empty());
        assert(out@ + latin1(Seq::<u8>::empty()) =~= out@);
    }
    string_of(&out)
}

// ═══════════════════════ scanning ═══════════════════════

/// The first position from `i` that is not ASCII white space.
pub open spec fn skip_ws(c: Seq<char>, i: int) -> int
    decreases c.len() - i,
{
    if 0 <= i < c.len() && is_ascii_ws(c[i]) {
        skip_ws(c, i + 1)
    } else {
        i
    }
}

/// The first position from `i` that is neither ASCII white space nor `;`.
pub open spec fn skip_ws_semi(c: Seq<char>, i: int) -> int
    decreases c.len() - i,
{
    if 0 <= i < c.len() && (is_ascii_ws(c[i]) || c[i] == ';') {
        skip_ws_semi(c, i + 1)
    } else {
        i
    }
}

/// Where a selector ends: at `{`, just after an opening parenthesis, or at
/// the end.
pub open spec fn sel_end(c: Seq<char>, i: int) -> int
    decreases c.len() - i,
{
    if i < 0 || i >= c.len() || c[i] == '{' {
        i
    } else if c[i] == '(' {
        i + 1
    } else {
        sel_end(c, i + 1)
    }
}

/// Where a declaration block ends: at a `}` outside parentheses, or at the
/// end; `depth` counts the parentheses open.
pub open spec fn block_end(c: Seq<char>, i: int, depth: nat) -> int
    decreases c.len() - i,
{
    if i < 0 || i >= c.len() || (c[i] == '}' && depth == 0) {
        i
    } else {
        block_end(c, i + 1, next_depth(c[i], depth))
    }
}

/// The parenthesis depth after `x`.
pub open spec fn next_depth(x: char, depth: nat) -> nat {
    if x == '(' {
        depth + 1
    } else if x == ')' && depth > 0 {
        (depth - 1) as nat
    } else {
        depth
    }
}

/// Where a value ends: at `;` or `}` outside parentheses, or at the end.
pub open spec fn value_end(c: Seq<char>, i: int, depth: nat) -> int
    decreases c.len() - i,
{
    if i < 0 || i >= c.len() || (depth == 0 && (c[i] == ';' || c[i] == '}')) {
        i
    } else {
        value_end(c, i + 1, next_depth(c[i], depth))
    }
}

/// The first `:` from `i`, or the end.
pub open spec fn colon_from(c: Seq<char>, i: int) -> int
    decreases c.len() - i,
{
    if 0 <= i < c.len() && c[i] != ':' {
        colon_from(c, i + 1)
    } else {
        i
    }
}

pub proof fn lemma_scans(c: Seq<char>, i: int, depth: nat)
    requires
        0 <= i,
    ensures
        i <= skip_ws(c, i),
        i < c.len() ==> skip_ws(c, i) <= c.len(),
        i <= skip_ws_semi(c, i),
        i < c.len() ==> skip_ws_semi(c, i) <= c.len(),
        i <= sel_end(c, i),
        i < c.len() ==> sel_end(c, i) <= c.len(),
        i <= block_end(c, i, depth),
        i < c.len() ==> block_end(c, i, depth) <= c.len(),
        i <= value_end(c, i, depth),
        i < c.len() ==> value_end(c, i, depth) <= c.len(),
        i <= colon_from(c, i),
        i < c.len() ==> colon_from(c, i) <= c.len(),
    decreases c.len() - i,
{
    if i < c.len() {
        lemma_scans(c, i + 1, next_depth(c[i], depth));
        lemma_scans(c, i + 1, depth);
    }
}

// ═══════════════════════ declarations ═══════════════════════

/// The declarations of a block from position `i`: `prop: value` pairs
/// separated by `;`, each side trimmed, kept when neither side is empty.
pub open spec fn decls_from(b: Seq<char>, i: int) -> Seq<(Seq<char>, Seq<char>)>
    decreases b.len() - i,
{
    if i < 0 {
        seq![]
    } else {
        let s = skip_ws_semi(b, i);
        if s >= b.len() {
            seq![]
        } else {
            let pe = colon_from(b, s);
            let v0 = if pe < b.len() { pe + 1 } else { pe };
            let vs = skip_ws(b, v0);
            let ve = value_end(b, vs, 0);
            let prop = trim(b.subrange(s, pe));
            let value = trim(b.subrange(vs, ve));
            proof {
                lemma_scans(b, i, 0);
                lemma_scans(b, s, 0);
                if pe < b.len() {
                    lemma_scans(b, pe + 1, 0);
                    if vs < b.len() {
                        lemma_scans(b, vs, 0);
                    }
                }
            }
            (if prop.len() > 0 && value.len() > 0 {
                seq![(prop, value)]
            } else {
                seq![]
            }) + decls_from(b, ve)
        }
    }
}

fn skip_ws_exec(c: &[char], i: usize) -> (r: usize)
    requires
        i <= c@.len(),
    ensures
        r == skip_ws(c@, i as int),
        i <= r <= c@.len(),
{
    let mut j = i;
    while j < c.len() && is_ascii_whitespace(c[j])
        invariant
            i <= j <= c@.len(),
            skip_ws(c@, i as int) == skip_ws(c@, j as int),
        decreases c.len() - j,
    {
        j += 1;
    }
    j
}

/// Reads the declarations of a block.
fn parse_declarations(block: &[char]) -> (r: Vec<(String, String)>)
    ensures
        r@.map_values(|d: (String, String)| (d.0@, d.1@)) == decls_from(block@, 0),
{
    let b = block;
    let n = b.len();
    let mut out: Vec<(String, String)> = Vec::new();
    let mut i: usize = 0;
    proof {
        assert(out@.map_values(|d: (String, String)| (d.0@, d.1@)) =~= Seq::<(Seq<char>, Seq<char>)>::empty());
    }
    while i < n
        invariant
            i <= n == b@.len(),
            decls_from(b@, 0) == out@.map_values(|d: (String, String)| (d.0@, d.1@)) + decls_from(
                b@,
                i as int,
            ),
        decreases n - i,
    {
        let ghost i0 = i as int;
        // white space and `;`
        let mut s = i;
        while s < n && (is_ascii_whitespace(b[s]) || b[s] == ';')
            invariant
                i <= s <= n == b@.len(),
                skip_ws_semi(b@, i as int) == skip_ws_semi(b@, s as int),
            decreases n - s,
        {
            s += 1;
        }
        if s >= n {
            proof {
                assert(decls_from(b@, i0) == Seq::<(Seq<char>, Seq<char>)>::empty());
                assert(decls_from(b@, n as int) == Seq::<(Seq<char>, Seq<char>)>::empty());
            }
            i = n;
            continue;
        }
        // the property, up to `:`
        let mut pe = s;
        while pe < n && b[pe] != ':'
            invariant
                s <= pe <= n == b@.len(),
                colon_from(b@, s as int) == colon_from(b@, pe as int),
            decreases n - pe,
        {
            pe += 1;
        }
        let prop = trim_chars(&slice_of(b, s, pe));
        let v0 = if pe < n { pe + 1 } else { pe };
        let vs = skip_ws_exec(b, v0);
        // the value, up to `;` or `}` outside parentheses
        let mut ve = vs;
        let mut depth: usize = 0;
        while ve < n && !(depth == 0 && (b[ve] == ';' || b[ve] == '}'))
            invariant
                vs <= ve <= n == b@.len(),
                depth <= ve,
                value_end(b@, vs as int, 0) == value_end(b@, ve as int, depth as nat),
            decreases n - ve,
        {
            if b[ve] == '(' {
                depth += 1;
            } else if b[ve] == ')' && depth > 0 {
                depth -= 1;
            }
            ve += 1;
        }
        let value = trim_chars(&slice_of(b, vs, ve));
        proof {
            lemma_scans(b@, i as int, 0);
        }
        let ghost here = if prop@.len() > 0 && value@.len() > 0 {
            seq![(prop@, value@)]
        } else {
            Seq::<(Seq<char>, Seq<char>)>::empty()
        };
        assert(decls_from(b@, i0) == here + decls_from(b@, ve as int));
        if prop.len() > 0 && value.len() > 0 {
            let ghost before = out@;
            out.push((string_of(&prop), string_of(&value)));
            proof {
                let f = |d: (String, String)| (d.0@, d.1@);
                assert(out@.map_values(f) =~= before.map_values(f).push((prop@, value@)));
                assert(before.map_values(f) + (here + decls_from(b@, ve as int)) =~= out@.map_values(f)
                    + decls_from(b@, ve as int));
            }
        } else {
            proof {
                assert(here + decls_from(b@, ve as int) =~= decls_from(b@, ve as int));
            }
        }
        i = ve;
    }
    proof {
        assert(decls_from(b@, i as int) == Seq::<(Seq<char>, Seq<char>)>::empty());
        let f = |d: (String, String)| (d.0@, d.1@);
        assert(out@.map_values(f) + Seq::<(Seq<char>, Seq<char>)>::empty() =~= out@.map_values(f));
    }
    out
}

// ═══════════════════════ rules ═══════════════════════

/// The rules of text without comments, from position `i`: a selector up
/// to `{` (cut short after an opening parenthesis) and a block up to the
/// matching `}`; blank selectors are skipped, and a selector not followed
/// by `{` is dropped.
pub open spec fn rules_from(c: Seq<char>, i: int) -> Seq<(Seq<char>, Seq<(Seq<char>, Seq<char>)>)>
    decreases c.len() - i,
{
    if i < 0 {
        seq![]
    } else {
        let s = skip_ws(c, i);
        if s >= c.len() {
            seq![]
        } else {
            let e = sel_end(c, s);
            let sel = trim(c.subrange(s, e));
            proof {
                lemma_scans(c, i, 0);
                lemma_scans(c, s, 0);
                crate::text::lemma_trim_len(c.subrange(s, e));
            }
            if sel.len() == 0 {
                if e + 1 <= c.len() {
                    rules_from(c, e + 1)
                } else {
                    seq![]
                }
            } else if e >= c.len() || c[e] != '{' {
                rules_from(c, e)
            } else {
                let d = block_end(c, e + 1, 0);
                proof {
                    lemma_scans(c, e + 1, 0);
                }
                let block = trim(c.subrange(e + 1, d));
                let next = if d < c.len() { d + 1 } else { d };
                seq![(sel, decls_from(block, 0))] + rules_from(c, next)
            }
        }
    }
}

/// A rule as a model.
pub open spec fn view_css_rule(r: CssRule) -> (Seq<char>, Seq<(Seq<char>, Seq<char>)>) {
    (r.selector@, r.declarations@.map_values(|d: (String, String)| (d.0@, d.1@)))
}

/// Reads style sheet text into rules: comments out, then each
/// `selector { declarations }` block gives one rule.
pub fn parse_css(css: &str) -> (r: Vec<CssRule>)
    ensures
        r@.map_values(|x: CssRule| view_css_rule(x)) == rules_from(
            latin1(strip_bytes(css.spec_bytes())),
            0,
        ),
{
    let cleaned = strip_css_comments(css);
    let c = chars_of(cleaned.as_str());
    let n = c.len();
    let ghost cv = c@;
    let mut rules: Vec<CssRule> = Vec::new();
    let mut i: usize = 0;
    proof {
        assert(rules@.map_values(|x: CssRule| view_css_rule(x)) =~= Seq::<
            (Seq<char>, Seq<(Seq<char>, Seq<char>)>),
        >::empty());
    }
    while i < n
        invariant
            i <= n == c@.len(),
            cv == c@,
            rules_from(cv, 0) == rules@.map_values(|x: CssRule| view_css_rule(x)) + rules_from(
                cv,
                i as int,
            ),
        decreases n - i,
    {
        let ghost i0 = i as int;
        let s = skip_ws_exec(&c, i);
        if s >= n {
            proof {
                assert(rules_from(cv, n as int) == Seq::<(Seq<char>, Seq<(Seq<char>, Seq<char>)>)>::empty());
            }
            i = n;
            continue;
        }
        let mut e = s;
        while e < n && c[e] != '{' && c[e] != '('
            invariant
                s <= e <= n == c@.len(),
                sel_end(c@, s as int) == sel_end(c@, e as int),
            decreases n - e,
        {
            e += 1;
        }
        if e < n && c[e] == '(' {
            e += 1;
        }
        let sel = trim_chars(&slice_of(&c, s, e));
        proof {
            lemma_scans(c@, i as int, 0);
            crate::text::lemma_trim_len(c@.subrange(s as int, e as int));
        }
        if sel.len() == 0 {
            if e < n {
                i = e + 1;
            } else {
                i = n;
                assert(rules_from(cv, i0) == Seq::<(Seq<char>, Seq<(Seq<char>, Seq<char>)>)>::empty());
                assert(rules_from(cv, n as int) == Seq::<(Seq<char>, Seq<(Seq<char>, Seq<char>)>)>::empty());
            }
            continue;
        }
        if e >= n || c[e] != '{' {
            i = e;
            continue;
        }
        let mut d = e + 1;
        let mut depth: usize = 0;
        while d < n && !(c[d] == '}' && depth == 0)
            invariant
                e + 1 <= d <= n == c@.len(),
                depth <= d,
                block_end(c@, e + 1, 0) == block_end(c@, d as int, depth as nat),
            decreases n - d,
        {
            if c[d] == '(' {
                depth += 1;
            } else if c[d] == ')' && depth > 0 {
                depth -= 1;
            }
            d += 1;
        }
        let block = trim_chars(&slice_of(&c, e + 1, d));
        let next = if d < n { d + 1 } else { d };
        let declarations = parse_declarations(&block);
        let rule = CssRule { selector: string_of(&sel), declarations };
        let ghost before = rules@;
        rules.push(rule);
        proof {
            let f = |x: CssRule| view_css_rule(x);
            assert(rules@.map_values(f) =~= before.map_values(f).push(view_css_rule(rule)));
            assert(rules_from(cv, i0) == seq![view_css_rule(rule)] + rules_from(cv, next as int));
            assert(before.map_values(f) + (seq![view_css_rule(rule)] + rules_from(cv, next as int))
                =~= rules@.map_values(f) + rules_from(cv, next as int));
        }
        i = next;
    }
    proof {
        assert(rules_from(cv, i as int) == Seq::<(Seq<char>, Seq<(Seq<char>, Seq<char>)>)>::empty());
        let f = |x: CssRule| view_css_rule(x);
        assert(rules@.map_values(f) + Seq::<(Seq<char>, Seq<(Seq<char>, Seq<char>)>)>::empty()
            =~= rules@.map_values(f));
    }
    rules
}

// ═══════════════════════ simple matching ═══════════════════════

/// The characters after the last white space of `t`.
pub open spec fn word_tail(t: Seq<char>) -> Seq<char>
    decreases t.len(),
{
    if t.len() > 0 && !is_ws(t.last()) {
        word_tail(t.drop_last()).push(t.last())
    } else {
        seq![]
    }
}

/// The last white-space separated word of `s`, if any.
pub open spec fn last_word(s: Seq<char>) -> Option<Seq<char>> {
    let t = trim_end(s);
    if t.len() == 0 {
        None
    } else {
        Some(word_tail(t))
    }
}

/// Whether every non-blank piece after the first, trimmed, is among
/// `classes`.
pub open spec fn classes_listed(pieces: Seq<Seq<char>>, classes: Seq<Seq<char>>) -> bool {
    forall|k: int|
        1 <= k < pieces.len() && trim(#[trigger] pieces[k]).len() > 0 ==> classes.contains(
            trim(pieces[k]),
        )
}

/// Whether an element with tag `tag`, classes `classes` and id `id` matches
/// `selector`, read simply: `*` matches anything; otherwise only the last
/// word counts, as `tag.class.class#id` where every part is optional (a tag
/// of `*` matches any tag).
pub open spec fn simple_match_spec(
    selector: Seq<char>,
    tag: Seq<char>,
    classes: Seq<Seq<char>>,
    id: Option<Seq<char>>,
) -> bool {
    let sel = trim(selector);
    if sel == seq!['*'] {
        true
    } else {
        match last_word(sel) {
            None => false,
            Some(simple) => {
                let rid = match crate::text::find_char(simple, '#') {
                    Some(p) => Some(simple.skip(p + 1)),
                    None => None,
                };
                let body = match crate::text::find_char(simple, '#') {
                    Some(p) => simple.take(p),
                    None => simple,
                };
                let pieces = split(body, '.');
                let tag_ok = pieces.len() == 0 || trim(pieces[0]).len() == 0 || trim(pieces[0]) == tag
                    || trim(pieces[0]) == seq!['*'];
                let classes_ok = classes_listed(pieces, classes);
                let id_ok = match rid {
                    Some(ri) => id == Some(ri),
                    None => true,
                };
                tag_ok && classes_ok && id_ok
            },
        }
    }
}

fn word_tail_exec(t: &[char]) -> (r: Vec<char>)
    ensures
        r@ == word_tail(t@),
{
    let n = t.len();
    let mut k = n;
    assert(t@.take(n as int) =~= t@);
    assert(t@ + t@.skip(n as int) =~= t@);
    while k > 0 && !crate::text::is_whitespace(t[k - 1])
        invariant
            k <= n == t@.len(),
            word_tail(t@) == word_tail(t@.take(k as int)) + t@.skip(k as int),
        decreases k,
    {
        proof {
            let tk = t@.take(k as int);
            assert(tk.drop_last() =~= t@.take(k - 1));
            assert(tk.last() == t@[k - 1]);
            assert(seq![t@[k - 1]] + t@.skip(k as int) =~= t@.skip(k - 1));
            assert(word_tail(t@.take(k - 1)).push(t@[k - 1]) + t@.skip(k as int) =~= word_tail(
                t@.take(k - 1),
            ) + t@.skip(k - 1));
        }
        k -= 1;
    }
    proof {
        assert(word_tail(t@.take(k as int)) =~= Seq::<char>::empty());
        assert(Seq::<char>::empty() + t@.skip(k as int) =~= t@.skip(k as int));
    }
    slice_of(t, k, n)
}

/// Whether `needle` is one of `list`.
fn contains_string(list: &[String], needle: &[char]) -> (r: bool)
    ensures
        r == list@.map_values(|c: String| c@).contains(needle@),
{
    let ghost lv = list@.map_values(|c: String| c@);
    let mut i: usize = 0;
    while i < list.len()
        invariant
            i <= list@.len(),
            lv == list@.map_values(|c: String| c@),
            forall|j: int| 0 <= j < i ==> lv[j] != needle@,
        decreases list.len() - i,
    {
        let item = chars_of(list[i].as_str());
        if eq_chars(&item, needle) {
            assert(lv[i as int] == needle@);
            return true;
        }
        i += 1;
    }
    false
}

/// Whether every non-blank piece after the first, trimmed, is one of
/// `classes`.
fn classes_present(pieces: &Vec<Vec<char>>, classes: &[String]) -> (r: bool)
    ensures
        r == classes_listed(views(pieces@), classes@.map_values(|c: String| c@)),
{
    let ghost ps = views(pieces@);
    let mut k: usize = 1;
    while k < pieces.len()
        invariant
            1 <= k,
            ps == views(pieces@),
            forall|j: int|
                1 <= j < k && j < ps.len() && trim(#[trigger] ps[j]).len() > 0 ==> classes@.map_values(
                    |c: String| c@,
                ).contains(trim(ps[j])),
        decreases pieces.len() - k,
    {
        let rc = trim_chars(&pieces[k]);
        assert(ps[k as int] == pieces@[k as int]@);
        if rc.len() > 0 && !contains_string(classes, &rc) {
            return false;
        }
        k += 1;
    }
    true
}

/// Whether an element with tag `tag`, classes `classes` and id `id`
/// matches `selector` (`*`, or the last word of the selector as
/// `tag.class#id` with every part optional).
pub fn selector_matches(selector: &str, tag: &str, classes: &[String], id: Option<&str>) -> (r: bool)
    ensures
        r == simple_match_spec(
            selector@,
            tag@,
            classes@.map_values(|c: String| c@),
            match id {
                Some(x) => Some(x@),
                None => None,
            },
        ),
{
    let raw = chars_of(selector);
    let sel = trim_chars(&raw);
    if sel.len() == 1 && sel[0] == '*' {
        assert(sel@ =~= seq!['*']);
        return true;
    }
    proof {
        if sel@ == seq!['*'] {
            assert(sel@.len() == 1);
        }
    }
    let t = trim_end_chars(&sel);
    if t.len() == 0 {
        return false;
    }
    let simple = word_tail_exec(&t);
    let hash = crate::text::find_char_in(&simple, '#');
    proof {
        crate::text::lemma_find_first_bounds(simple@, crate::text::eq_pred('#'));
    }
    let body = match hash {
        Some(p) => slice_of(&simple, 0, p),
        None => slice_of(&simple, 0, simple.len()),
    };
    proof {
        match hash {
            Some(p) => assert(body@ =~= simple@.take(p as int)),
            None => assert(body@ =~= simple@),
        }
    }
    let pieces = split_chars(&body, '.');
    let ghost ps = split(body@, '.');
    let tag_v = chars_of(tag);
    // the tag
    if pieces.len() > 0 {
        let rt = trim_chars(&pieces[0]);
        assert(ps[0] == pieces@[0]@);
        if rt.len() > 0 && !eq_chars(&rt, &tag_v) && !(rt.len() == 1 && rt[0] == '*') {
            proof {
                if rt@ == seq!['*'] {
                    assert(rt@.len() == 1);
                }
            }
            return false;
        }
        proof {
            if rt.len() == 1 && rt[0] == '*' {
                assert(rt@ =~= seq!['*']);
            }
        }
    }
    // the classes
    let ok = classes_present(&pieces, classes);
    proof {
        assert(views(pieces@) == ps);
    }
    if !ok {
        return false;
    }
    // the id
    match hash {
        Some(p) => {
            assert(p < simple.len());
            let rid = crate::text::suffix(&simple, p + 1);
            match id {
                Some(x) => {
                    let xv = chars_of(x);
                    if !eq_chars(&xv, &rid) {
                        return false;
                    }
                },
                None => {
                    return false;
                },
            }
        },
        None => {},
    }
    true
}

// ═══════════════════════ matching rules to elements ═══════════════════════

/// The white-space separated words of `s` (`str::split_whitespace`).
pub open spec fn words(s: Seq<char>) -> Seq<Seq<char>>
    decreases s.len(),
{
    if s.len() == 0 {
        seq![]
    } else if is_ws(s[0]) {
        words(s.drop_first())
    } else {
        let w = crate::toolchain::html::scan_while(s, 0, |x: char| !is_ws(x));
        proof {
            crate::toolchain::html::lemma_scan_while(s, 0, |x: char| !is_ws(x));
        }
        seq![s.take(w)] + words(s.skip(w))
    }
}

/// The classes of an element: the words of its `class` attribute.
pub open spec fn el_classes(e: ElemV) -> Seq<Seq<char>> {
    if e.attrs.contains_key("class"@) {
        words(e.attrs["class"@])
    } else {
        seq![]
    }
}

/// The id of an element.
pub open spec fn el_id(e: ElemV) -> Option<Seq<char>> {
    if e.attrs.contains_key("id"@) {
        Some(e.attrs["id"@])
    } else {
        None
    }
}

/// The declarations of the rules whose selector the element matches, in
/// rule order.
pub open spec fn matched_decls(
    rules: Seq<(Seq<char>, Seq<(Seq<char>, Seq<char>)>)>,
    e: ElemV,
) -> Seq<(Seq<char>, Seq<char>)>
    decreases rules.len(),
{
    if rules.len() == 0 {
        seq![]
    } else {
        matched_decls(rules.drop_last(), e) + if simple_match_spec(
            rules.last().0,
            e.tag,
            el_classes(e),
            el_id(e),
        ) {
            rules.last().1
        } else {
            seq![]
        }
    }
}

/// `prop: value` pairs joined by `; `.
pub open spec fn style_text(ds: Seq<(Seq<char>, Seq<char>)>) -> Seq<char>
    decreases ds.len(),
{
    if ds.len() == 0 {
        seq![]
    } else if ds.len() == 1 {
        ds[0].0 + seq![':', ' '] + ds[0].1
    } else {
        style_text(ds.drop_last()) + seq![';', ' '] + ds.last().0 + seq![':', ' '] + ds.last().1
    }
}

/// For each named element that some rule matches, the name and the
/// matched declarations as one style text.
pub open spec fn matched_styles(
    rules: Seq<(Seq<char>, Seq<(Seq<char>, Seq<char>)>)>,
    vars: Seq<(Seq<char>, ElemV)>,
) -> Seq<(Seq<char>, Seq<char>)>
    decreases vars.len(),
{
    if vars.len() == 0 {
        seq![]
    } else {
        let ds = matched_decls(rules, vars.last().1);
        matched_styles(rules, vars.drop_last()) + if ds.len() > 0 {
            seq![(vars.last().0, style_text(ds))]
        } else {
            seq![]
        }
    }
}

pub(crate) fn words_exec(s: &[char]) -> (r: Vec<String>)
    ensures
        r@.map_values(|w: String| w@) == words(s@),
{
    let n = s.len();
    let mut out: Vec<String> = Vec::new();
    let mut i: usize = 0;
    let ghost f = |w: String| w@;
    proof {
        assert(s@.skip(0) =~= s@);
        assert(out@.map_values(f) =~= Seq::<Seq<char>>::empty());
    }
    while i < n
        invariant
            i <= n == s@.len(),
            f == (|w: String| w@),
            words(s@) == out@.map_values(f) + words(s@.skip(i as int)),
        decreases n - i,
    {
        let ghost rest = s@.skip(i as int);
        if crate::text::is_whitespace(s[i]) {
            proof {
                assert(rest.drop_first() =~= s@.skip(i + 1));
            }
            i += 1;
        } else {
            let mut j = i;
            while j < n && !crate::text::is_whitespace(s[j])
                invariant
                    i <= j <= n == s@.len(),
                    rest == s@.skip(i as int),
                    crate::toolchain::html::scan_while(rest, 0, |x: char| !is_ws(x))
                        == crate::toolchain::html::scan_while(rest, j - i, |x: char| !is_ws(x)),
                decreases n - j,
            {
                j += 1;
            }
            let w = string_of(&slice_of(s, i, j));
            let ghost before = out@;
            out.push(w);
            proof {
                assert(rest.take(j - i) =~= s@.subrange(i as int, j as int));
                assert(rest.skip(j - i) =~= s@.skip(j as int));
                assert(out@.map_values(f) =~= before.map_values(f).push(w@));
                assert(before.map_values(f) + (seq![w@] + words(s@.skip(j as int))) =~= out@.map_values(f)
                    + words(s@.skip(j as int)));
            }
            i = j;
        }
    }
    proof {
        assert(s@.skip(n as int) =~= Seq::<char>::empty());
        assert(out@.map_values(f) + Seq::<Seq<char>>::empty() =~= out@.map_values(f));
    }
    out
}

fn style_text_exec(ds: &Vec<(String, String)>) -> (r: String)
    ensures
        r@ == style_text(ds@.map_values(|d: (String, String)| (d.0@, d.1@))),
{
    let ghost dv = ds@.map_values(|d: (String, String)| (d.0@, d.1@));
    let mut out: Vec<char> = Vec::new();
    let mut i: usize = 0;
    proof {
        assert(dv.take(0) =~= Seq::<(Seq<char>, Seq<char>)>::empty());
    }
    while i < ds.len()
        invariant
            i <= ds@.len(),
            dv == ds@.map_values(|d: (String, String)| (d.0@, d.1@)),
            out@ == style_text(dv.take(i as int)),
        decreases ds.len() - i,
    {
        let ghost before = out@;
        if i > 0 {
            out.push(';');
            out.push(' ');
        }
        let mut k = chars_of(ds[i].0.as_str());
        out.append(&mut k);
        out.push(':');
        out.push(' ');
        let mut v = chars_of(ds[i].1.as_str());
        out.append(&mut v);
        proof {
            let t = dv.take(i + 1);
            assert(t.drop_last() =~= dv.take(i as int));
            assert(t.last() == (ds@[i as int].0@, ds@[i as int].1@));
            if i == 0 {
                assert(out@ =~= t[0].0 + seq![':', ' '] + t[0].1);
            } else {
                assert(out@ =~= before + seq![';', ' '] + t.last().0 + seq![':', ' '] + t.last().1);
            }
        }
        i += 1;
    }
    assert(dv.take(ds@.len() as int) =~= dv);
    string_of(&out)
}

/// For each `(name, element)` that some rule matches (by
/// [`selector_matches`] on its tag, the words of its `class` attribute and
/// its `id`), the name and the matched declarations as `p: v; p: v`.
pub fn match_css_to_elements(
    css_rules: &[CssRule],
    _elements: &[HtmlElement],
    element_vars: &[(String, HtmlElement)],
) -> (r: Vec<(String, String)>)
    ensures
        r@.map_values(|x: (String, String)| (x.0@, x.1@)) == matched_styles(
            css_rules@.map_values(|c: CssRule| view_css_rule(c)),
            element_vars@.map_values(|x: (String, HtmlElement)| (x.0@, view_elem(x.1))),
        ),
{
    let ghost rv = css_rules@.map_values(|c: CssRule| view_css_rule(c));
    let ghost vv = element_vars@.map_values(|x: (String, HtmlElement)| (x.0@, view_elem(x.1)));
    let ghost g = |x: (String, String)| (x.0@, x.1@);
    let mut results: Vec<(String, String)> = Vec::new();
    let mut e: usize = 0;
    proof {
        assert(vv.take(0) =~= Seq::<(Seq<char>, ElemV)>::empty());
        assert(results@.map_values(g) =~= Seq::<(Seq<char>, Seq<char>)>::empty());
    }
    while e < element_vars.len()
        invariant
            e <= element_vars@.len(),
            rv == css_rules@.map_values(|c: CssRule| view_css_rule(c)),
            vv == element_vars@.map_values(|x: (String, HtmlElement)| (x.0@, view_elem(x.1))),
            g == (|x: (String, String)| (x.0@, x.1@)),
            results@.map_values(g) == matched_styles(rv, vv.take(e as int)),
        decreases element_vars.len() - e,
    {
        let el = &element_vars[e].1;
        let ghost ev = view_elem(*el);
        let classes: Vec<String> = match el.attributes.get("class") {
            Some(c) => words_exec(&chars_of(c.as_str())),
            None => Vec::new(),
        };
        let id: Option<&str> = match el.attributes.get("id") {
            Some(x) => Some(x.as_str()),
            None => None,
        };
        proof {
            reveal_strlit("class");
            reveal_strlit("id");
            if !ev.attrs.contains_key("class"@) {
                assert(classes@.map_values(|w: String| w@) =~= Seq::<Seq<char>>::empty());
            }
        }
        let mut matched: Vec<(String, String)> = Vec::new();
        let ghost f = |d: (String, String)| (d.0@, d.1@);
        let mut k: usize = 0;
        proof {
            assert(rv.take(0) =~= Seq::<(Seq<char>, Seq<(Seq<char>, Seq<char>)>)>::empty());
            assert(matched@.map_values(f) =~= Seq::<(Seq<char>, Seq<char>)>::empty());
        }
        while k < css_rules.len()
            invariant
                k <= css_rules@.len(),
                rv == css_rules@.map_values(|c: CssRule| view_css_rule(c)),
                f == (|d: (String, String)| (d.0@, d.1@)),
                classes@.map_values(|w: String| w@) == el_classes(ev),
                (match id { Some(x) => Some(x@), None => None }) == el_id(ev),
                ev.tag == el.tag@,
                matched@.map_values(f) == matched_decls(rv.take(k as int), ev),
            decreases css_rules.len() - k,
        {
            let rule = &css_rules[k];
            let hit = selector_matches(rule.selector.as_str(), el.tag.as_str(), &classes, id);
            proof {
                assert(rv.take(k + 1).drop_last() =~= rv.take(k as int));
                assert(rv.take(k + 1).last() == view_css_rule(*rule));
            }
            if hit {
                let mut j: usize = 0;
                let ghost base = matched@;
                while j < rule.declarations.len()
                    invariant
                        j <= rule.declarations@.len(),
                        f == (|d: (String, String)| (d.0@, d.1@)),
                        matched@.map_values(f) == base.map_values(f) + rule.declarations@.take(j as int).map_values(f),
                    decreases rule.declarations.len() - j,
                {
                    let d = (owned(rule.declarations[j].0.as_str()), owned(rule.declarations[j].1.as_str()));
                    let ghost before = matched@;
                    matched.push(d);
                    proof {
                        assert(matched@.map_values(f) =~= before.map_values(f).push((d.0@, d.1@)));
                        assert(rule.declarations@.take(j + 1).map_values(f) =~= rule.declarations@.take(j as int).map_values(f).push((d.0@, d.1@)));
                    }
                    j += 1;
                }
                proof {
                    assert(rule.declarations@.take(rule.declarations@.len() as int) =~= rule.declarations@);
                }
            } else {
                proof {
                    assert(matched@.map_values(f) + Seq::<(Seq<char>, Seq<char>)>::empty() =~= matched@.map_values(f));
                }
            }
            k += 1;
        }
        proof {
            assert(rv.take(css_rules@.len() as int) =~= rv);
            assert(vv.take(e + 1).drop_last() =~= vv.take(e as int));
            assert(vv.take(e + 1).last() == (element_vars@[e as int].0@, ev));
        }
        if matched.len() > 0 {
            let text = style_text_exec(&matched);
            let name = owned(element_vars[e].0.as_str());
            let ghost before = results@;
            results.push((name, text));
            proof {
                assert(results@.map_values(g) =~= before.map_values(g).push((name@, text@)));
            }
        } else {
            proof {
                assert(results@.map_values(g) + Seq::<(Seq<char>, Seq<char>)>::empty() =~= results@.map_values(g));
            }
        }
        e += 1;
    }
    assert(vv.take(element_vars@.len() as int) =~= vv);
    results
}

} // verus!
