//! Event handlers read out of page scripts: which element a script names,
//! and each handler body rewritten as Rust statements.
use vstd::prelude::*;

use crate::text::{
    chars_of, find_seq, starts_with, strip_prefix, strip_prefix_lit, string_of, trim, trim_chars,
    trim_end_matches, trim_end_matches_chars, trim_matches, trim_matches_chars,
};
use super::css::{words, words_exec};
use super::html::{view_elem, ElemV, HtmlElement, StrMap};
use crate::text::{find_char, join, lines_of, parse_i32_spec, strs};
use super::jsbody::{event_type_spec, tr, EnvV, St};
use super::jsfuncs::{block_body, defs_upto, inline_lines, lemma_block_body_end, ranges_from, FnDefV};
use super::jsstyle::RuleV;

verus! {

// ═══════════════════════ the lookup table ═══════════════════════

/// The value of `k` in `m`, if set.
pub open spec fn lookup_get(m: Map<Seq<char>, Seq<char>>, k: Seq<char>) -> Option<Seq<char>> {
    if m.contains_key(k) {
        Some(m[k])
    } else {
        None
    }
}

/// `m` with `.w` set to `var` for each class word `w`, in order.
pub open spec fn add_classes(
    m: Map<Seq<char>, Seq<char>>,
    ws: Seq<Seq<char>>,
    var: Seq<char>,
) -> Map<Seq<char>, Seq<char>>
    decreases ws.len(),
{
    if ws.len() == 0 {
        m
    } else {
        add_classes(m, ws.drop_last(), var).insert(seq!['.'] + ws.last(), var)
    }
}

/// `m` after recording element `e`, held in variable `var`: its tag, its
/// `#id`, each `.class`, and the variable's own name all lead to `var`.
pub open spec fn add_element(m: Map<Seq<char>, Seq<char>>, var: Seq<char>, e: ElemV) -> Map<
    Seq<char>,
    Seq<char>,
> {
    let m0 = m.insert(e.tag, var);
    let m1 = if e.attrs.contains_key("id"@) {
        m0.insert(seq!['#'] + e.attrs["id"@], var)
    } else {
        m0
    };
    let m2 = if e.attrs.contains_key("class"@) {
        add_classes(m1, words(e.attrs["class"@]), var)
    } else {
        m1
    };
    m2.insert(var, var)
}

/// The lookup table of a list of (variable, element) pairs, later pairs
/// overriding earlier ones.
pub open spec fn html_lookup_spec(vars: Seq<(Seq<char>, ElemV)>) -> Map<Seq<char>, Seq<char>>
    decreases vars.len(),
{
    if vars.len() == 0 {
        Map::empty()
    } else {
        add_element(html_lookup_spec(vars.drop_last()), vars.last().0, vars.last().1)
    }
}

/// The (variable, element) pairs as plain values.
pub open spec fn element_vars_view(v: Seq<(String, HtmlElement)>) -> Seq<(Seq<char>, ElemV)> {
    v.map_values(|x: (String, HtmlElement)| (x.0@, view_elem(x.1)))
}

/// The table from selectors (`tag`, `#id`, `.class`) and variable names to
/// the variables that hold the page's elements.
pub fn build_html_lookup(element_vars: &[(String, HtmlElement)]) -> (r: StrMap)
    ensures
        r@ == html_lookup_spec(element_vars_view(element_vars@)),
{
    let mut map = StrMap::new();
    let mut i: usize = 0;
    while i < element_vars.len()
        invariant
            i <= element_vars.len(),
            map@ == html_lookup_spec(element_vars_view(element_vars@).take(i as int)),
        decreases element_vars.len() - i,
    {
        let ghost vs = element_vars_view(element_vars@);
        assert(vs.take(i + 1).drop_last() =~= vs.take(i as int));
        let var_name = element_vars[i].0.as_str();
        let el = &element_vars[i].1;
        let ghost e = view_elem(*el);
        let ghost m_before = map@;
        map.insert(el.tag.as_str(), var_name);
        let ghost m0 = map@;
        match el.attributes.get("id") {
            Some(id) => {
                let mut key: Vec<char> = vec!['#'];
                let mut idc = chars_of(id.as_str());
                key.append(&mut idc);
                assert(key@ =~= seq!['#'] + id@);
                let ks = string_of(&key);
                map.insert(ks.as_str(), var_name);
            },
            None => {},
        }
        let ghost m1 = map@;
        match el.attributes.get("class") {
            Some(class) => {
                let cc = chars_of(class.as_str());
                let ws = words_exec(&cc);
                let mut k: usize = 0;
                while k < ws.len()
                    invariant
                        k <= ws@.len(),
                        ws@.map_values(|w: String| w@) == words(cc@),
                        map@ == add_classes(m1, words(cc@).take(k as int), var_name@),
                    decreases ws.len() - k,
                {
                    assert(words(cc@).take(k + 1).drop_last() =~= words(cc@).take(k as int));
                    let mut key: Vec<char> = vec!['.'];
                    let mut wc = chars_of(ws[k].as_str());
                    key.append(&mut wc);
                    assert(key@ =~= seq!['.'] + ws@[k as int]@);
                    let ks = string_of(&key);
                    assert(ws@[k as int]@ == ws@.map_values(|w: String| w@)[k as int]);
                    assert(words(cc@).take(k + 1).last() == words(cc@)[k as int]);
                    map.insert(ks.as_str(), var_name);
                    k += 1;
                }
                assert(words(cc@).take(ws@.len() as int) =~= words(cc@));
            },
            None => {},
        }
        map.insert(var_name, var_name);
        proof {
            assert(e.tag == el.tag@);
            assert(e.attrs == el.attributes@);
            assert(vs[i as int] == (var_name@, e));
            assert(vs.take(i + 1).last() == vs[i as int]);
            assert(map@ == add_element(m_before, var_name@, e));
        }
        i += 1;
    }
    assert(element_vars_view(element_vars@).take(element_vars@.len() as int) =~= element_vars_view(
        element_vars@,
    ));
    map
}

// ═══════════════════════ naming an element ═══════════════════════

/// A name as written in a call: trimmed, then without surrounding double
/// and single quotes.
pub open spec fn clean_name(s: Seq<char>) -> Seq<char> {
    trim_matches(trim_matches(trim(s), '"'), '\'')
}

/// The argument of a one-argument call, from the text after its `(`.
pub open spec fn call_arg(rest: Seq<char>) -> Seq<char> {
    clean_name(trim_end_matches(rest, ')'))
}

/// The variable that a selector names: the selector itself as a key, or
/// else the selector read as a class name.
pub open spec fn resolve_selector_spec(sel: Seq<char>, m: Map<Seq<char>, Seq<char>>) -> Option<
    Seq<char>,
> {
    let s = clean_name(sel);
    match lookup_get(m, s) {
        Some(v) => Some(v),
        None => lookup_get(m, seq!['.'] + s),
    }
}

/// The variable that an id key (`#id`) names.
pub open spec fn resolve_id_spec(id: Seq<char>, m: Map<Seq<char>, Seq<char>>) -> Option<Seq<char>> {
    lookup_get(m, clean_name(id))
}

/// The variable that a script expression names: a `querySelector` or
/// `getElementById` call, or a name in the table.
pub open spec fn resolve_element_spec(code: Seq<char>, m: Map<Seq<char>, Seq<char>>) -> Option<
    Seq<char>,
> {
    let c = trim(code);
    match strip_prefix(c, "document.querySelector("@) {
        Some(sel) => resolve_selector_spec(call_arg(sel), m),
        None => match strip_prefix(c, "document.getElementById("@) {
            Some(id) => resolve_id_spec(seq!['#'] + call_arg(id), m),
            None => lookup_get(m, c),
        },
    }
}

fn clean_name_exec(v: &[char]) -> (r: Vec<char>)
    ensures
        r@ == clean_name(v@),
{
    let t = trim_chars(v);
    let t = trim_matches_chars(&t, '"');
    trim_matches_chars(&t, '\'')
}

/// The value of the key `k` in `m`, copied.
pub(crate) fn lookup_chars(m: &StrMap, k: &[char]) -> (r: Option<String>)
    ensures
        match r {
            Some(v) => lookup_get(m@, k@) == Some(v@),
            None => lookup_get(m@, k@) is None,
        },
{
    let ks = string_of(k);
    match m.get(ks.as_str()) {
        Some(v) => Some(crate::text::owned(v.as_str())),
        None => None,
    }
}

fn resolve_selector(selector: &[char], lookup: &StrMap) -> (r: Option<String>)
    ensures
        match r {
            Some(v) => resolve_selector_spec(selector@, lookup@) == Some(v@),
            None => resolve_selector_spec(selector@, lookup@) is None,
        },
{
    let s = clean_name_exec(selector);
    match lookup_chars(lookup, &s) {
        Some(v) => Some(v),
        None => {
            let mut key: Vec<char> = vec!['.'];
            let mut sc = s.clone();
            assert(sc@ == s@);
            key.append(&mut sc);
            assert(key@ =~= seq!['.'] + s@);
            lookup_chars(lookup, &key)
        },
    }
}

fn resolve_id(id: &[char], lookup: &StrMap) -> (r: Option<String>)
    ensures
        match r {
            Some(v) => resolve_id_spec(id@, lookup@) == Some(v@),
            None => resolve_id_spec(id@, lookup@) is None,
        },
{
    let s = clean_name_exec(id);
    lookup_chars(lookup, &s)
}

/// The variable that the script expression `code` names in `lookup`.
pub fn resolve_element_var(code: &str, lookup: &StrMap) -> (r: Option<String>)
    ensures
        match r {
            Some(v) => resolve_element_spec(code@, lookup@) == Some(v@),
            None => resolve_element_spec(code@, lookup@) is None,
        },
{
    let cv = chars_of(code);
    resolve_element_chars(&cv, lookup)
}

pub(crate) fn resolve_element_chars(code: &[char], lookup: &StrMap) -> (r: Option<String>)
    ensures
        match r {
            Some(v) => resolve_element_spec(code@, lookup@) == Some(v@),
            None => resolve_element_spec(code@, lookup@) is None,
        },
{
    let c = trim_chars(code);
    match strip_prefix_lit(&c, "document.querySelector(") {
        Some(sel) => {
            let a = trim_end_matches_chars(&sel, ')');
            let a = clean_name_exec(&a);
            resolve_selector(&a, lookup)
        },
        None => match strip_prefix_lit(&c, "document.getElementById(") {
            Some(id) => {
                let a = trim_end_matches_chars(&id, ')');
                let a = clean_name_exec(&a);
                let mut key: Vec<char> = vec!['#'];
                let mut ac = a;
                let ghost a0 = ac@;
                key.append(&mut ac);
                assert(key@ =~= seq!['#'] + a0);
                resolve_id(&key, lookup)
            },
            None => lookup_chars(lookup, &c),
        },
    }
}

// ═══════════════════════ handlers ═══════════════════════

/// An event handler found in a script: the element variable, the event,
/// the handler body as Rust, the variables to clone before the closure,
/// and the shared counters it uses.
#[derive(Debug)]
pub struct EventHandler {
    pub element_var: String,
    pub event_type: String,
    pub body_code: String,
    pub cloned_vars: Vec<String>,
    pub shared_vars: Vec<String>,
}

/// A shared counter (`let count = 0;`): its name, its initial value, and
/// the handlers (by position) that use it.
#[derive(Debug)]
pub struct SharedStateVar {
    pub name: String,
    pub initial_value: String,
    pub used_by_handlers: Vec<usize>,
}

/// A handler as plain values.
pub type HandlerV = (Seq<char>, Seq<char>, Seq<char>, Seq<Seq<char>>, Seq<Seq<char>>);

/// A shared counter as plain values.
pub type SharedV = (Seq<char>, Seq<char>, Seq<usize>);

pub open spec fn handler_view(h: EventHandler) -> HandlerV {
    (h.element_var@, h.event_type@, h.body_code@, strs(h.cloned_vars@), strs(h.shared_vars@))
}

pub open spec fn shared_view(s: SharedStateVar) -> SharedV {
    (s.name@, s.initial_value@, s.used_by_handlers@)
}

/// The name and the value of a declaration `let x = v;` or `const x = v;`
/// (on a trimmed line).
pub open spec fn decl_parts(l: Seq<char>) -> Option<(Seq<char>, Seq<char>)> {
    if (starts_with(l, "let "@) || starts_with(l, "const "@)) && find_char(l, '=') is Some {
        let eq = find_char(l, '=').unwrap();
        let before = trim(l.take(eq));
        let name = match strip_prefix(before, "let "@) {
            Some(n) => Some(trim(n)),
            None => match strip_prefix(before, "const "@) {
                Some(n) => Some(trim(n)),
                None => None,
            },
        };
        match name {
            Some(n) => Some((n, trim(trim_end_matches(trim(l.skip(eq + 1)), ';')))),
            None => None,
        }
    } else {
        None
    }
}

/// The shared counters declared on the first `n` lines: declarations whose
/// value is a number and that do not touch `document.`.
pub open spec fn shared_spec(lines: Seq<Seq<char>>, n: int) -> Seq<SharedV>
    decreases n,
{
    if n <= 0 {
        seq![]
    } else {
        let prev = shared_spec(lines, n - 1);
        let l = trim(lines[n - 1]);
        match decl_parts(l) {
            Some((name, rhs)) => if find_seq(l, "document."@) is None && parse_i32_spec(rhs) is Some {
                prev.push((name, rhs, seq![]))
            } else {
                prev
            },
            None => prev,
        }
    }
}

/// The lookup table with the script's own variables added: a variable
/// declared as an element (by selector, id or name) leads to that
/// element's variable.
pub open spec fn js_fold(lines: Seq<Seq<char>>, n: int, html: Map<Seq<char>, Seq<char>>) -> Map<
    Seq<char>,
    Seq<char>,
>
    decreases n,
{
    if n <= 0 {
        html
    } else {
        let prev = js_fold(lines, n - 1, html);
        match decl_parts(trim(lines[n - 1])) {
            Some((name, e)) => match resolve_element_spec(e, html) {
                Some(v) => prev.insert(name, v),
                None => prev,
            },
            None => prev,
        }
    }
}

/// The counters with handler `idx` recorded as a user of each counter
/// named in `used`, in order.
pub open spec fn mark_used(shared: Seq<SharedV>, used: Seq<Seq<char>>, idx: usize) -> Seq<SharedV>
    decreases used.len(),
{
    if used.len() == 0 {
        shared
    } else {
        let prev = mark_used(shared, used.drop_last(), idx);
        prev.map_values(|sv: SharedV| mark_entry(sv, used.last(), idx))
    }
}

/// A counter with handler `idx` recorded as a user when it is named `name`.
pub open spec fn mark_entry(sv: SharedV, name: Seq<char>, idx: usize) -> SharedV {
    if sv.0 == name {
        (sv.0, sv.1, sv.2.push(idx))
    } else {
        sv
    }
}

/// Whether every handler index that a counter records names a handler
/// that uses the counter.
pub open spec fn uses_recorded(acc: (Seq<HandlerV>, Seq<SharedV>)) -> bool {
    forall|j: int, q: int|
        0 <= j < acc.1.len() && 0 <= q < acc.1[j].2.len() ==> {
            let k = #[trigger] acc.1[j].2[q];
            k < acc.0.len() && acc.0[k as int].4.contains(acc.1[j].0)
        }
}

/// Marking keeps each counter's name and value, and records only `idx`,
/// and only for the counters that `used` names.
pub proof fn lemma_mark_used(shared: Seq<SharedV>, used: Seq<Seq<char>>, idx: usize)
    ensures
        mark_used(shared, used, idx).len() == shared.len(),
        forall|j: int|
            0 <= j < shared.len() ==> {
                let m = #[trigger] mark_used(shared, used, idx)[j];
                &&& m.0 == shared[j].0
                &&& m.1 == shared[j].1
                &&& forall|q: int|
                    0 <= q < m.2.len() ==> (q < shared[j].2.len() && m.2[q] == shared[j].2[q]) || (
                    m.2[q] == idx && used.contains(shared[j].0))
            },
    decreases used.len(),
{
    if used.len() > 0 {
        lemma_mark_used(shared, used.drop_last(), idx);
        let prev = mark_used(shared, used.drop_last(), idx);
        assert forall|j: int| 0 <= j < shared.len() implies {
            let m = #[trigger] mark_used(shared, used, idx)[j];
            &&& m.0 == shared[j].0
            &&& m.1 == shared[j].1
            &&& forall|q: int|
                0 <= q < m.2.len() ==> (q < shared[j].2.len() && m.2[q] == shared[j].2[q]) || (m.2[q]
                    == idx && used.contains(shared[j].0))
        } by {
            let m = mark_used(shared, used, idx)[j];
            let pm = prev[j];
            assert(m == mark_entry(pm, used.last(), idx));
            assert forall|q: int| 0 <= q < m.2.len() implies (q < shared[j].2.len() && m.2[q]
                == shared[j].2[q]) || (m.2[q] == idx && used.contains(shared[j].0)) by {
                if q < pm.2.len() {
                    assert(m.2[q] == pm.2[q]);
                    if !(q < shared[j].2.len() && pm.2[q] == shared[j].2[q]) {
                        assert(used.drop_last().contains(shared[j].0));
                        let w = choose|w: int| 0 <= w < used.drop_last().len() && used.drop_last()[w] == shared[j].0;
                        assert(used[w] == shared[j].0);
                    }
                } else {
                    assert(pm.0 == used.last());
                    assert(used[used.len() - 1] == shared[j].0);
                }
            }
        }
    }
}

/// The counters a script declares record no handler yet.
pub proof fn lemma_shared_unused(lines: Seq<Seq<char>>, n: int)
    ensures
        forall|j: int| 0 <= j < shared_spec(lines, n).len() ==> (#[trigger] shared_spec(lines, n)[j]).2.len() == 0,
    decreases n,
{
    if n > 0 {
        lemma_shared_unused(lines, n - 1);
        let prev = shared_spec(lines, n - 1);
        assert forall|j: int| 0 <= j < shared_spec(lines, n).len() implies (#[trigger] shared_spec(
            lines,
            n,
        )[j]).2.len() == 0 by {
            if j < prev.len() {
                assert(shared_spec(lines, n)[j] == prev[j]);
            }
        }
    }
}

/// Handlers read from any line on keep every recorded index pointing at a
/// handler that uses its counter.
pub proof fn lemma_handlers_uses(
    lines: Seq<Seq<char>>,
    i: int,
    env: EnvV,
    defs: Seq<FnDefV>,
    ranges: Set<int>,
    acc: (Seq<HandlerV>, Seq<SharedV>),
)
    requires
        uses_recorded(acc),
        acc.0.len() + lines.len() - i <= usize::MAX,
    ensures
        handlers_from(lines, i, env, defs, ranges, acc) matches Some(r) ==> uses_recorded(r),
    decreases lines.len() - i,
{
    if i < 0 || i >= lines.len() {
    } else if ranges.contains(i) {
        lemma_handlers_uses(lines, i + 1, env, defs, ranges, acc);
    } else {
        let line = trim(lines[i]);
        match find_seq(line, ".addEventListener("@) {
            None => lemma_handlers_uses(lines, i + 1, env, defs, ranges, acc),
            Some(pos) => {
                let after = line.skip(pos + ".addEventListener("@.len());
                match event_type_spec(after) {
                    None => {},
                    Some(et) => match find_seq(after, "function"@) {
                        None => lemma_handlers_uses(lines, i + 1, env, defs, ranges, acc),
                        Some(fs) => {
                            let rest = match find_char(after.skip(fs), '{') {
                                Some(p) => after.skip(fs + p + 1),
                                None => seq![],
                            };
                            let (body, hend) = block_body(rest, lines, i);
                            lemma_block_body_end(rest, lines, i);
                            match inline_total(body, defs) {
                                None => {},
                                Some(inl) => match body_total(inl, env) {
                                    None => {},
                                    Some((out, st)) => {
                                        match resolve_element_spec(trim(line.take(pos)), env.0) {
                                            Some(ev) => {
                                                let h = (ev, et, join(out, "\n"@), st.0, st.1);
                                                let hs = acc.0.push(h);
                                                let idx = acc.0.len() as usize;
                                                let ms = mark_used(acc.1, st.1, idx);
                                                lemma_mark_used(acc.1, st.1, idx);
                                                assert forall|j: int, q: int|
                                                    0 <= j < ms.len() && 0 <= q < ms[j].2.len() implies {
                                                    let k = #[trigger] ms[j].2[q];
                                                    k < hs.len() && hs[k as int].4.contains(ms[j].0)
                                                } by {
                                                    let k = ms[j].2[q];
                                                    if q < acc.1[j].2.len() && k == acc.1[j].2[q] {
                                                        assert(k < acc.0.len());
                                                        assert(hs[k as int] == acc.0[k as int]);
                                                    } else {
                                                        assert(k == idx);
                                                        assert(hs[k as int] == h);
                                                    }
                                                }
                                                lemma_handlers_uses(lines, hend, env, defs, ranges, (hs, ms));
                                            },
                                            None => lemma_handlers_uses(lines, hend, env, defs, ranges, acc),
                                        }
                                    },
                                },
                            }
                        },
                    },
                }
            },
        }
    }
}

/// Fuel with which inlining the calls of `lines` ends, if there is any.
pub open spec fn inline_fuel(lines: Seq<Seq<char>>, defs: Seq<FnDefV>) -> nat {
    choose|f: nat| inline_lines(f, lines, defs) is Some
}

/// The lines with calls inlined; `None` when inlining does not end (a
/// function that calls itself).
pub open spec fn inline_total(lines: Seq<Seq<char>>, defs: Seq<FnDefV>) -> Option<Seq<Seq<char>>> {
    if exists|f: nat| inline_lines(f, lines, defs) is Some {
        inline_lines(inline_fuel(lines, defs), lines, defs)
    } else {
        None
    }
}

/// The empty rewriting state.
pub open spec fn st0() -> St {
    (seq![], seq![], Set::empty(), Set::empty())
}

/// Fuel that covers the nesting of a handler body.
pub open spec fn body_fuel(lines: Seq<Seq<char>>, env: EnvV) -> nat {
    choose|f: nat| tr(f, lines, 0, env, st0(), seq![]) is Some
}

/// A handler body rewritten from the empty state; `None` when one of its
/// statements cannot be rewritten.
pub open spec fn body_total(lines: Seq<Seq<char>>, env: EnvV) -> Option<(Seq<Seq<char>>, St)> {
    if exists|f: nat| tr(f, lines, 0, env, st0(), seq![]) is Some {
        tr(body_fuel(lines, env), lines, 0, env, st0(), seq![])
    } else {
        None
    }
}

/// The handlers registered from line `i` on, added to `acc`; lines inside
/// function definitions are passed over, and after a handler the scan goes
/// on after its body. `None` when a handler cannot be rewritten.
pub open spec fn handlers_from(
    lines: Seq<Seq<char>>,
    i: int,
    env: EnvV,
    defs: Seq<FnDefV>,
    ranges: Set<int>,
    acc: (Seq<HandlerV>, Seq<SharedV>),
) -> Option<(Seq<HandlerV>, Seq<SharedV>)>
    decreases lines.len() - i,
{
    if i < 0 || i >= lines.len() {
        Some(acc)
    } else if ranges.contains(i) {
        handlers_from(lines, i + 1, env, defs, ranges, acc)
    } else {
        let line = trim(lines[i]);
        match find_seq(line, ".addEventListener("@) {
            None => handlers_from(lines, i + 1, env, defs, ranges, acc),
            Some(pos) => {
                let after = line.skip(pos + ".addEventListener("@.len());
                match event_type_spec(after) {
                    None => None,
                    Some(et) => match find_seq(after, "function"@) {
                        None => handlers_from(lines, i + 1, env, defs, ranges, acc),
                        Some(fs) => {
                            let rest = match find_char(after.skip(fs), '{') {
                                Some(p) => after.skip(fs + p + 1),
                                None => seq![],
                            };
                            let (body, hend) = block_body(rest, lines, i);
                            proof {
                                lemma_block_body_end(rest, lines, i);
                            }
                            match inline_total(body, defs) {
                                None => None,
                                Some(inl) => match body_total(inl, env) {
                                    None => None,
                                    Some((out, st)) => {
                                        let next = match resolve_element_spec(trim(line.take(pos)), env.0) {
                                            Some(ev) => (
                                                acc.0.push((ev, et, join(out, "\n"@), st.0, st.1)),
                                                mark_used(acc.1, st.1, acc.0.len() as usize),
                                            ),
                                            None => acc,
                                        };
                                        handlers_from(lines, hend, env, defs, ranges, next)
                                    },
                                },
                            }
                        },
                    },
                }
            },
        }
    }
}

/// The handlers and shared counters of a script, given the page's lookup
/// table and style rules; `None` when a handler cannot be rewritten.
pub open spec fn handlers_spec(js: Seq<char>, html: Map<Seq<char>, Seq<char>>, rules: Seq<RuleV>) -> Option<
    (Seq<HandlerV>, Seq<SharedV>),
> {
    let lines = lines_of(js);
    let shared = shared_spec(lines, lines.len() as int);
    let env = (js_fold(lines, lines.len() as int, html), shared.map_values(|s: SharedV| s.0), rules);
    handlers_from(
        lines,
        0,
        env,
        defs_upto(lines, lines.len() as int),
        ranges_from(lines, 0, Set::empty()),
        (seq![], shared),
    )
}

fn decl_parts_exec(l: &[char]) -> (r: Option<(Vec<char>, Vec<char>)>)
    ensures
        match r {
            Some(p) => decl_parts(l@) == Some((p.0@, p.1@)),
            None => decl_parts(l@) is None,
        },
{
    if !((crate::text::starts_with_lit(l, "let ") || crate::text::starts_with_lit(l, "const "))
        && crate::text::has_char(l, '=')) {
        return None;
    }
    let ll = l.len();
    let eq = crate::text::find_char_in(l, '=').unwrap();
    proof {
        crate::text::lemma_find_first_bounds(l@, crate::text::eq_pred('='));
    }
    let before = trim_chars(&crate::text::slice_of(l, 0, eq));
    assert(l@.subrange(0, eq as int) =~= l@.take(eq as int));
    let name = match strip_prefix_lit(&before, "let ") {
        Some(n) => trim_chars(&n),
        None => match strip_prefix_lit(&before, "const ") {
            Some(n) => trim_chars(&n),
            None => return None,
        },
    };
    let rhs = trim_chars(&trim_end_matches_chars(&trim_chars(&crate::text::suffix(l, eq + 1)), ';'));
    Some((name, rhs))
}

/// The shared counters that a script declares.
fn detect_shared_state_vars(lines: &[Vec<char>]) -> (r: Vec<SharedStateVar>)
    ensures
        r@.map_values(|s: SharedStateVar| shared_view(s)) == shared_spec(
            crate::text::views(lines@),
            lines@.len() as int,
        ),
{
    let ghost ls = crate::text::views(lines@);
    let mut vars: Vec<SharedStateVar> = Vec::new();
    let mut i: usize = 0;
    while i < lines.len()
        invariant
            i <= lines@.len(),
            ls == crate::text::views(lines@),
            vars@.map_values(|s: SharedStateVar| shared_view(s)) == shared_spec(ls, i as int),
        decreases lines.len() - i,
    {
        assert(ls[i as int] == lines@[i as int]@);
        let l = trim_chars(&lines[i]);
        match decl_parts_exec(&l) {
            Some((name, rhs)) => {
                if !crate::text::has_lit(&l, "document.") && crate::text::parse_i32(&rhs).is_some() {
                    let v = SharedStateVar {
                        name: string_of(&name),
                        initial_value: string_of(&rhs),
                        used_by_handlers: Vec::new(),
                    };
                    let ghost v0 = vars@.map_values(|s: SharedStateVar| shared_view(s));
                    vars.push(v);
                    assert(v.used_by_handlers@ =~= Seq::<usize>::empty());
                    assert(vars@.map_values(|s: SharedStateVar| shared_view(s)) =~= v0.push(
                        shared_view(v),
                    ));
                }
            },
            None => {},
        }
        i += 1;
    }
    vars
}

fn merged_lookup(lines: &[Vec<char>], html: &StrMap) -> (r: StrMap)
    ensures
        r@ == js_fold(crate::text::views(lines@), lines@.len() as int, html@),
{
    let ghost ls = crate::text::views(lines@);
    let mut m = html.duplicate();
    let mut i: usize = 0;
    while i < lines.len()
        invariant
            i <= lines@.len(),
            ls == crate::text::views(lines@),
            m@ == js_fold(ls, i as int, html@),
        decreases lines.len() - i,
    {
        assert(ls[i as int] == lines@[i as int]@);
        let l = trim_chars(&lines[i]);
        match decl_parts_exec(&l) {
            Some((name, e)) => match resolve_element_chars(&e, html) {
                Some(v) => {
                    let ns = string_of(&name);
                    m.insert(ns.as_str(), v.as_str());
                },
                None => {},
            },
            None => {},
        }
        i += 1;
    }
    m
}

fn copy_used(v: &Vec<usize>) -> (r: Vec<usize>)
    ensures
        r@ == v@,
{
    let mut r: Vec<usize> = Vec::new();
    let mut i: usize = 0;
    while i < v.len()
        invariant
            i <= v@.len(),
            r@ == v@.take(i as int),
        decreases v.len() - i,
    {
        r.push(v[i]);
        assert(v@.take(i + 1) =~= v@.take(i as int).push(v@[i as int]));
        i += 1;
    }
    assert(v@.take(v@.len() as int) =~= v@);
    r
}

fn mark_one(shared: &Vec<SharedStateVar>, name: &[char], idx: usize) -> (r: Vec<SharedStateVar>)
    ensures
        r@.map_values(|s: SharedStateVar| shared_view(s)) == shared@.map_values(
            |s: SharedStateVar| shared_view(s),
        ).map_values(|x: SharedV| mark_entry(x, name@, idx)),
{
    let ghost sv = shared@.map_values(|s: SharedStateVar| shared_view(s));
    let mut r: Vec<SharedStateVar> = Vec::new();
    let mut i: usize = 0;
    while i < shared.len()
        invariant
            i <= shared@.len(),
            sv == shared@.map_values(|s: SharedStateVar| shared_view(s)),
            r@.map_values(|s: SharedStateVar| shared_view(s)) == sv.map_values(|x: SharedV| mark_entry(x, name@, idx)).take(i as int),
        decreases shared.len() - i,
    {
        let s = &shared[i];
        let mut used = copy_used(&s.used_by_handlers);
        let nm = chars_of(s.name.as_str());
        let is_m = crate::text::eq_chars(&nm, name);
        if is_m {
            used.push(idx);
        }
        assert(used@ == if is_m { s.used_by_handlers@.push(idx) } else { s.used_by_handlers@ });
        let e = SharedStateVar {
            name: crate::text::owned(s.name.as_str()),
            initial_value: crate::text::owned(s.initial_value.as_str()),
            used_by_handlers: used,
        };
        let ghost r0 = r@.map_values(|s: SharedStateVar| shared_view(s));
        r.push(e);
        assert(sv[i as int] == shared_view(*s));
        assert(shared_view(e) == mark_entry(sv[i as int], name@, idx));
        assert(r@.map_values(|s: SharedStateVar| shared_view(s)) =~= r0.push(shared_view(e)));
        assert(sv.map_values(|x: SharedV| mark_entry(x, name@, idx)).take(i + 1) =~= sv.map_values(|x: SharedV| mark_entry(x, name@, idx)).take(i as int).push(mark_entry(sv[i as int], name@, idx)));
        i += 1;
    }
    assert(sv.map_values(|x: SharedV| mark_entry(x, name@, idx)).take(shared@.len() as int) =~= sv.map_values(|x: SharedV| mark_entry(x, name@, idx)));
    r
}

fn mark_used_exec(shared: Vec<SharedStateVar>, used: &[String], idx: usize) -> (r: Vec<SharedStateVar>)
    ensures
        r@.map_values(|s: SharedStateVar| shared_view(s)) == mark_used(
            shared@.map_values(|s: SharedStateVar| shared_view(s)),
            strs(used@),
            idx,
        ),
{
    let ghost s0 = shared@.map_values(|s: SharedStateVar| shared_view(s));
    let ghost uv = strs(used@);
    let mut cur = shared;
    let mut k: usize = 0;
    assert(uv.take(0) =~= Seq::<Seq<char>>::empty());
    while k < used.len()
        invariant
            k <= used@.len(),
            uv == strs(used@),
            cur@.map_values(|s: SharedStateVar| shared_view(s)) == mark_used(s0, uv.take(k as int), idx),
        decreases used.len() - k,
    {
        assert(uv.take(k + 1).drop_last() =~= uv.take(k as int));
        assert(uv.take(k + 1).last() == used@[k as int]@);
        let nm = chars_of(used[k].as_str());
        cur = mark_one(&cur, &nm, idx);
        k += 1;
    }
    assert(uv.take(used@.len() as int) =~= uv);
    cur
}

pub open spec fn handlers_view(v: Seq<EventHandler>) -> Seq<HandlerV> {
    v.map_values(|h: EventHandler| handler_view(h))
}

pub open spec fn shareds_view(v: Seq<SharedStateVar>) -> Seq<SharedV> {
    v.map_values(|s: SharedStateVar| shared_view(s))
}

fn event_type_exec(after: &[char]) -> (r: Vec<char>)
    requires
        event_type_spec(after@) is Some,
    ensures
        event_type_spec(after@) == Some(r@),
{
    if after.len() > 0 && (after[0] == '\'' || after[0] == '"') {
        let al = after.len();
        let q = after[0];
        let rest = crate::text::suffix(after, 1);
        let end = crate::text::find_char_in(&rest, q).unwrap();
        proof {
            crate::text::lemma_find_first_bounds(rest@, crate::text::eq_pred(q));
        }
        crate::text::slice_of(after, 1, end + 1)
    } else {
        let r: Vec<char> = Vec::new();
        assert(r@ =~= Seq::<char>::empty());
        r
    }
}

/// The handler registered on line `i` (trimmed to `line`, with
/// `.addEventListener(` at `pos`): its body read, inlined and rewritten.
/// Gives the counters afterwards and the line to go on with.
#[verifier::rlimit(40)]
fn handler_at(
    lines: &[Vec<char>],
    i: usize,
    line: &[char],
    pos: usize,
    merged: &StrMap,
    names: &[String],
    rules: &[super::css::CssRule],
    defs: &[super::jsfuncs::FunctionDef],
    ranges: Ghost<Set<int>>,
    handlers: &mut Vec<EventHandler>,
    shared: Vec<SharedStateVar>,
) -> (r: (Vec<SharedStateVar>, usize))
    requires
        i < lines@.len(),
        line@ == trim(lines@[i as int]@),
        find_seq(line@, ".addEventListener("@) == Some(pos as int),
        !ranges@.contains(i as int),
        super::jsfuncs::params_ok(super::jsfuncs::defs_view(defs@)),
        handlers_from(
            crate::text::views(lines@),
            i as int,
            super::jsbody::env_view(*merged, names@, rules@),
            super::jsfuncs::defs_view(defs@),
            ranges@,
            (handlers_view(old(handlers)@), shareds_view(shared@)),
        ) is Some,
    ensures
        i < r.1 <= lines@.len(),
        handlers_from(
            crate::text::views(lines@),
            i as int,
            super::jsbody::env_view(*merged, names@, rules@),
            super::jsfuncs::defs_view(defs@),
            ranges@,
            (handlers_view(old(handlers)@), shareds_view(shared@)),
        ) == handlers_from(
            crate::text::views(lines@),
            r.1 as int,
            super::jsbody::env_view(*merged, names@, rules@),
            super::jsfuncs::defs_view(defs@),
            ranges@,
            (handlers_view(final(handlers)@), shareds_view(r.0@)),
        ),
{
    let ghost ls = crate::text::views(lines@);
    let ghost env = super::jsbody::env_view(*merged, names@, rules@);
    let ghost dv = super::jsfuncs::defs_view(defs@);
    assert(ls[i as int] == lines@[i as int]@);
    let n = lines.len();
    let ll = line.len();
    proof {
        crate::text::lemma_find_seq(line@, ".addEventListener("@);
    }
    let after = crate::text::suffix(line, pos + ".addEventListener(".unicode_len());
    let et = event_type_exec(&after);
    let fs = match crate::text::find_lit(&after, "function") {
        None => return (shared, i + 1),
        Some(f) => f,
    };
    proof {
        crate::text::lemma_find_seq(after@, "function"@);
    }
    let al = after.len();
    let from_fn = crate::text::suffix(&after, fs);
    let rest = match crate::text::find_char_in(&from_fn, '{') {
        Some(p) => {
            proof {
                crate::text::lemma_find_first_bounds(from_fn@, crate::text::eq_pred('{'));
                assert(after@.skip(fs + p + 1) =~= from_fn@.skip(p + 1));
            }
            crate::text::suffix(&from_fn, p + 1)
        },
        None => Vec::new(),
    };
    assert(rest@ == match find_char(after@.skip(fs as int), '{') {
        Some(p) => after@.skip(fs + p + 1),
        None => seq![],
    });
    let (body, hend) = super::jsfuncs::block_body_exec(&rest, lines, i);
    proof {
        super::jsfuncs::lemma_block_body_end(rest@, ls, i as int);
    }
    let ghost f = inline_fuel(crate::text::views(body@), dv);
    let inl = super::jsfuncs::inline_function_calls(Ghost(f), &body, defs);
    let ghost g = body_fuel(crate::text::views(inl@), env);
    let mut bst = super::jsbody::BodyState {
        cloned: Vec::new(),
        shared: Vec::new(),
        locals: Vec::new(),
        scope: Vec::new(),
    };
    proof {
        assert(super::jsbody::st_view(bst) =~= st0()) by {
            assert(strs(bst.cloned@) =~= Seq::<Seq<char>>::empty());
            assert(strs(bst.shared@) =~= Seq::<Seq<char>>::empty());
            assert(super::jsbody::view_set(bst.locals@) =~= Set::<Seq<char>>::empty());
            assert(super::jsbody::view_set(bst.scope@) =~= Set::<Seq<char>>::empty());
        }
    }
    let out = super::jsrun::translate_event_body_inner(Ghost(g), &inl, merged, names, rules, &mut bst);
    let idx = handlers.len();
    let target = trim_chars(&crate::text::slice_of(line, 0, pos));
    assert(line@.subrange(0, pos as int) =~= line@.take(pos as int));
    match resolve_element_chars(&target, merged) {
        Some(ev) => {
            let shared2 = mark_used_exec(shared, &bst.shared, idx);
            let body_code = string_of(&crate::text::join_chars(&out, "\n"));
            let h = EventHandler {
                element_var: ev,
                event_type: string_of(&et),
                body_code,
                cloned_vars: bst.cloned,
                shared_vars: bst.shared,
            };
            let ghost h0 = handlers_view(handlers@);
            let ghost hv = handler_view(h);
            handlers.push(h);
            assert(handlers_view(handlers@) =~= h0.push(hv));
            (shared2, hend)
        },
        None => (shared, hend),
    }
}

/// The handlers that a script registers, and its shared counters, given
/// the page's lookup table and style rules.
pub fn extract_event_handlers(js: &str, html_lookup: &StrMap, css_rules: &[super::css::CssRule]) -> (r: (
    Vec<EventHandler>,
    Vec<SharedStateVar>,
))
    requires
        handlers_spec(js@, html_lookup@, super::jsstyle::rules_view(css_rules@)) is Some,
    ensures
        handlers_spec(js@, html_lookup@, super::jsstyle::rules_view(css_rules@)) == Some(
            (handlers_view(r.0@), shareds_view(r.1@)),
        ),
        uses_recorded((handlers_view(r.0@), shareds_view(r.1@))),
{
    let lines = crate::text::lines_chars(&chars_of(js));
    let ghost ls = crate::text::views(lines@);
    let shared = detect_shared_state_vars(&lines);
    let defs = super::jsfuncs::extract_function_defs(&lines);
    let merged = merged_lookup(&lines, html_lookup);
    let mut names: Vec<String> = Vec::new();
    let mut k: usize = 0;
    while k < shared.len()
        invariant
            k <= shared@.len(),
            strs(names@) == shareds_view(shared@).map_values(|s: SharedV| s.0).take(k as int),
        decreases shared.len() - k,
    {
        let ghost n0 = strs(names@);
        let nm = crate::text::owned(shared[k].name.as_str());
        names.push(nm);
        assert(strs(names@) =~= n0.push(nm@));
        assert(shareds_view(shared@).map_values(|s: SharedV| s.0).take(k + 1) =~= shareds_view(
            shared@,
        ).map_values(|s: SharedV| s.0).take(k as int).push(shared@[k as int].name@));
        k += 1;
    }
    assert(shareds_view(shared@).map_values(|s: SharedV| s.0).take(shared@.len() as int)
        =~= shareds_view(shared@).map_values(|s: SharedV| s.0));
    let marks = super::jsfuncs::compute_function_line_ranges(&lines);
    let ghost ranges = super::jsfuncs::marked(marks@);
    let ghost env = super::jsbody::env_view(merged, names@, css_rules@);
    let ghost dv = super::jsfuncs::defs_view(defs@);
    let mut handlers: Vec<EventHandler> = Vec::new();
    let mut cur = shared;
    assert(handlers_view(handlers@) =~= Seq::<HandlerV>::empty());
    let ghost target = handlers_spec(js@, html_lookup@, super::jsstyle::rules_view(css_rules@));
    proof {
        lemma_shared_unused(ls, ls.len() as int);
        assert(uses_recorded((handlers_view(handlers@), shareds_view(cur@))));
        lemma_handlers_uses(ls, 0, env, dv, ranges, (handlers_view(handlers@), shareds_view(cur@)));
    }
    let mut i: usize = 0;
    let n = lines.len();
    while i < n
        invariant
            i <= n == lines@.len(),
            ls == crate::text::views(lines@),
            marks@.len() == n,
            ranges == super::jsfuncs::marked(marks@),
            env == super::jsbody::env_view(merged, names@, css_rules@),
            dv == super::jsfuncs::defs_view(defs@),
            super::jsfuncs::params_ok(dv),
            target is Some,
            target == handlers_from(ls, i as int, env, dv, ranges, (handlers_view(handlers@), shareds_view(cur@))),
        decreases n - i,
    {
        if marks[i] {
            i += 1;
        } else {
            assert(ls[i as int] == lines@[i as int]@);
            let line = trim_chars(&lines[i]);
            match crate::text::find_lit(&line, ".addEventListener(") {
                None => {
                    i += 1;
                },
                Some(pos) => {
                    let (s2, next) = handler_at(
                        &lines,
                        i,
                        &line,
                        pos,
                        &merged,
                        &names,
                        css_rules,
                        &defs,
                        Ghost(ranges),
                        &mut handlers,
                        cur,
                    );
                    cur = s2;
                    i = next;
                },
            }
        }
    }
    (handlers, cur)
}

/// The handlers and shared counters of a script for a page whose elements
/// are held in the given variables.
pub fn compile_js(js: &str, element_vars: &[(String, HtmlElement)], css_rules: &[super::css::CssRule]) -> (r: (
    Vec<EventHandler>,
    Vec<SharedStateVar>,
))
    requires
        handlers_spec(js@, html_lookup_spec(element_vars_view(element_vars@)), super::jsstyle::rules_view(css_rules@)) is Some,
    ensures
        handlers_spec(js@, html_lookup_spec(element_vars_view(element_vars@)), super::jsstyle::rules_view(css_rules@))
            == Some((handlers_view(r.0@), shareds_view(r.1@))),
        uses_recorded((handlers_view(r.0@), shareds_view(r.1@))),
{
    let lookup = build_html_lookup(element_vars);
    extract_event_handlers(js, &lookup, css_rules)
}

} // verus!
