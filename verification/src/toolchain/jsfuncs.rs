//! Named script functions: the text of a braced block, the definitions
//! `function f(a, b) { .. }`, the lines they span, and calls replaced by
//! the bodies of the functions they call.
use vstd::prelude::*;

use crate::text::{
    chars_of, count_char, count_char_in, ends_with, find_char, find_char_in, lemma_find_first_bounds,
    eq_pred, leading_ws, leading_ws_count, owned, push_all, push_lit, replace_all, replace_chars,
    rfind_char, rfind_char_in, slice_of, split, split_chars, starts_with, starts_with_lit,
    strip_prefix, strip_prefix_lit, string_of, strs, suffix, trim, trim_chars, trim_end_matches,
    trim_end_matches_chars, trim_start, views, ends_with_lit, eq_chars,
};

verus! {

// ═══════════════════════ braced blocks ═══════════════════════

/// Reads the characters of `s` from `k` on inside a block at brace depth
/// `depth`: braces change the depth and are dropped, the closing brace of
/// the block ends the reading, other characters go to the current line
/// `buf`, and (when `nl`) a line break ends a non-empty line. Gives the
/// finished lines, the unfinished line and the depth reached.
pub open spec fn scan_body(
    s: Seq<char>,
    k: int,
    depth: int,
    buf: Seq<char>,
    out: Seq<Seq<char>>,
    nl: bool,
) -> (Seq<Seq<char>>, Seq<char>, int)
    decreases s.len() - k,
{
    if k < 0 || k >= s.len() {
        (out, buf, depth)
    } else if s[k] == '{' {
        scan_body(s, k + 1, depth + 1, buf, out, nl)
    } else if s[k] == '}' {
        if depth - 1 == 0 {
            (out, buf, 0)
        } else {
            scan_body(s, k + 1, depth - 1, buf, out, nl)
        }
    } else if nl && s[k] == '\n' {
        if buf.len() > 0 {
            scan_body(s, k + 1, depth, seq![], out.push(buf), nl)
        } else {
            scan_body(s, k + 1, depth, buf, out, nl)
        }
    } else if depth > 0 {
        scan_body(s, k + 1, depth, buf.push(s[k]), out, nl)
    } else {
        scan_body(s, k + 1, depth, buf, out, nl)
    }
}

/// The block's lines continued on the lines from `j` on while the block is
/// open: each line's text inside the block, when not empty. Gives the
/// lines and the index of the first line not read.
pub open spec fn follow_lines(lines: Seq<Seq<char>>, j: int, depth: int, body: Seq<Seq<char>>) -> (
    Seq<Seq<char>>,
    int,
)
    decreases lines.len() - j,
{
    if j < 0 || j >= lines.len() || depth <= 0 {
        (body, j)
    } else {
        let (o, b, d) = scan_body(lines[j], 0, depth, seq![], seq![], false);
        follow_lines(lines, j + 1, d, if b.len() > 0 { body.push(b) } else { body })
    }
}

/// The lines of a block whose text starts with `rest` on line `i`, and the
/// index of the first line after it.
pub open spec fn block_body(rest: Seq<char>, lines: Seq<Seq<char>>, i: int) -> (Seq<Seq<char>>, int) {
    let (o, b, d) = scan_body(rest, 0, 1, seq![], seq![], true);
    follow_lines(lines, i + 1, d, if b.len() > 0 { o.push(b) } else { o })
}

pub proof fn lemma_follow_end(lines: Seq<Seq<char>>, j: int, depth: int, body: Seq<Seq<char>>)
    requires
        0 <= j,
    ensures
        follow_lines(lines, j, depth, body).1 >= j,
        j <= lines.len() ==> follow_lines(lines, j, depth, body).1 <= lines.len(),
    decreases lines.len() - j,
{
    if j < lines.len() && depth > 0 {
        let (o, b, d) = scan_body(lines[j], 0, depth, seq![], seq![], false);
        lemma_follow_end(lines, j + 1, d, if b.len() > 0 { body.push(b) } else { body });
    }
}

/// The block ends after the line it starts on, and not after the last line.
pub proof fn lemma_block_body_end(rest: Seq<char>, lines: Seq<Seq<char>>, i: int)
    requires
        0 <= i < lines.len(),
    ensures
        i < block_body(rest, lines, i).1 <= lines.len(),
{
    let (o, b, d) = scan_body(rest, 0, 1, seq![], seq![], true);
    lemma_follow_end(lines, i + 1, d, if b.len() > 0 { o.push(b) } else { o });
}

/// The bound that keeps brace depths in `u128`: a line adds at most its
/// length, and there are at most `usize::MAX` lines of at most
/// `usize::MAX` characters.
pub open spec fn depth_room(j: int) -> int {
    1 + j * (usize::MAX as int)
}

proof fn lemma_depth_room(j: int)
    requires
        0 <= j <= usize::MAX,
    ensures
        depth_room(j) + usize::MAX <= depth_room(j + 1),
        depth_room(j + 1) < u128::MAX,
        depth_room(j) >= 1,
{
    assert(depth_room(j) + usize::MAX == depth_room(j + 1)) by (nonlinear_arith)
        requires
            j >= 0,
    ;
    assert((j + 1) * (usize::MAX as int) <= (usize::MAX as int + 1) * (usize::MAX as int)) by (
    nonlinear_arith)
        requires
            0 <= j <= usize::MAX,
    ;
    assert((usize::MAX as int + 1) * (usize::MAX as int) + 1 < u128::MAX) by (nonlinear_arith)
        requires
            usize::MAX <= u64::MAX,
    ;
    assert(j * (usize::MAX as int) >= 0) by (nonlinear_arith)
        requires
            j >= 0,
    ;
}

fn scan_body_exec(s: &[char], depth: u128, nl: bool) -> (r: (Vec<Vec<char>>, Vec<char>, u128))
    requires
        depth >= 1,
        depth + s@.len() < u128::MAX,
    ensures
        (views(r.0@), r.1@, r.2 as int) == scan_body(s@, 0, depth as int, seq![], seq![], nl),
        r.2 <= depth + s@.len(),
{
    let mut out: Vec<Vec<char>> = Vec::new();
    let mut buf: Vec<char> = Vec::new();
    let mut d = depth;
    let mut k: usize = 0;
    let n = s.len();
    assert(buf@ =~= Seq::<char>::empty());
    assert(views(out@) =~= Seq::<Seq<char>>::empty());
    while k < n
        invariant
            k <= n == s@.len(),
            1 <= d <= depth + k,
            depth + s@.len() < u128::MAX,
            scan_body(s@, 0, depth as int, seq![], seq![], nl) == scan_body(
                s@,
                k as int,
                d as int,
                buf@,
                views(out@),
                nl,
            ),
        decreases n - k,
    {
        let ch = s[k];
        if ch == '{' {
            d = d + 1;
        } else if ch == '}' {
            if d - 1 == 0 {
                return (out, buf, 0);
            }
            d = d - 1;
        } else if nl && ch == '\n' {
            if buf.len() > 0 {
                let ghost o0 = views(out@);
                let b = buf;
                buf = Vec::new();
                out.push(b);
                assert(views(out@) =~= o0.push(b@));
                assert(buf@ =~= Seq::<char>::empty());
            }
        } else {
            buf.push(ch);
        }
        k += 1;
    }
    (out, buf, d)
}

/// The lines of a block whose text starts with `rest` on line `i`.
pub(crate) fn block_body_exec(rest: &[char], lines: &[Vec<char>], i: usize) -> (r: (Vec<Vec<char>>, usize))
    requires
        i < lines@.len(),
    ensures
        (views(r.0@), r.1 as int) == block_body(rest@, views(lines@), i as int),
{
    let ghost ls = views(lines@);
    let rl = rest.len();
    proof {
        lemma_depth_room(0);
    }
    let (o, b, d0) = scan_body_exec(rest, 1, true);
    let mut body = o;
    if b.len() > 0 {
        let ghost b0 = views(body@);
        body.push(b);
        assert(views(body@) =~= b0.push(b@));
    }
    let mut d = d0;
    let n = lines.len();
    let mut j = i + 1;
    while j < n && d > 0
        invariant
            i < j <= n || (j == i + 1 && i + 1 >= n),
            n == lines@.len(),
            ls == views(lines@),
            d <= depth_room((j - i) as int),
            j - i <= usize::MAX,
            block_body(rest@, ls, i as int) == follow_lines(ls, j as int, d as int, views(body@)),
        decreases n - j,
    {
        proof {
            lemma_depth_room((j - i) as int);
        }
        let line = &lines[j];
        assert(line@ == ls[j as int]);
        let ll = line.len();
        let (_o, b2, d2) = scan_body_exec(line, d, false);
        if b2.len() > 0 {
            let ghost b0 = views(body@);
            body.push(b2);
            assert(views(body@) =~= b0.push(b2@));
        }
        d = d2;
        j += 1;
    }
    (body, j)
}

// ═══════════════════════ definitions ═══════════════════════

/// A function definition as plain values: name, parameters, body lines.
pub type FnDefV = (Seq<char>, Seq<Seq<char>>, Seq<Seq<char>>);

/// A function definition read from a script.
pub struct FunctionDef {
    pub name: String,
    pub params: Vec<String>,
    pub body_lines: Vec<String>,
}

pub open spec fn def_view(d: FunctionDef) -> FnDefV {
    (d.name@, strs(d.params@), strs(d.body_lines@))
}

pub open spec fn defs_view(ds: Seq<FunctionDef>) -> Seq<FnDefV> {
    ds.map_values(|d: FunctionDef| def_view(d))
}

/// The pieces, trimmed, that are not empty.
pub open spec fn nonempty_trimmed(ps: Seq<Seq<char>>) -> Seq<Seq<char>>
    decreases ps.len(),
{
    if ps.len() == 0 {
        seq![]
    } else {
        let prev = nonempty_trimmed(ps.drop_last());
        if trim(ps.last()).len() > 0 {
            prev.push(trim(ps.last()))
        } else {
            prev
        }
    }
}

/// The definition that starts on line `i`, if `function name(params) {`
/// begins there.
pub open spec fn fn_def_at(lines: Seq<Seq<char>>, i: int) -> Option<FnDefV> {
    match strip_prefix(trim(lines[i]), "function "@) {
        None => None,
        Some(r0) => {
            let rest = trim(r0);
            match find_char(rest, '(') {
                None => None,
                Some(paren) => {
                    let close = match find_char(rest.skip(paren), ')') {
                        Some(p) => paren + p,
                        None => rest.len() as int,
                    };
                    match find_char(rest.skip(close), '{') {
                        None => None,
                        Some(p) => Some(
                            (
                                trim(rest.take(paren)),
                                nonempty_trimmed(split(rest.subrange(paren + 1, close), ',')),
                                block_body(rest.skip(close + p + 1), lines, i).0,
                            ),
                        ),
                    }
                },
            }
        },
    }
}

/// The definitions that start on the first `n` lines, in order.
pub open spec fn defs_upto(lines: Seq<Seq<char>>, n: int) -> Seq<FnDefV>
    decreases n,
{
    if n <= 0 {
        seq![]
    } else {
        let prev = defs_upto(lines, n - 1);
        match fn_def_at(lines, n - 1) {
            Some(d) => prev.push(d),
            None => prev,
        }
    }
}

/// The last definition named `name`: a later definition replaces an
/// earlier one.
pub open spec fn find_def(defs: Seq<FnDefV>, name: Seq<char>) -> Option<FnDefV>
    decreases defs.len(),
{
    if defs.len() == 0 {
        None
    } else if defs.last().0 == name {
        Some(defs.last())
    } else {
        find_def(defs.drop_last(), name)
    }
}

/// Every parameter name is non-empty.
pub open spec fn params_ok(defs: Seq<FnDefV>) -> bool {
    forall|k: int, m: int|
        0 <= k < defs.len() && 0 <= m < defs[k].1.len() ==> (#[trigger] defs[k].1[m]).len() > 0
}

proof fn lemma_nonempty_trimmed(ps: Seq<Seq<char>>)
    ensures
        forall|m: int| 0 <= m < nonempty_trimmed(ps).len() ==> (#[trigger] nonempty_trimmed(ps)[m]).len() > 0,
    decreases ps.len(),
{
    if ps.len() > 0 {
        lemma_nonempty_trimmed(ps.drop_last());
        let prev = nonempty_trimmed(ps.drop_last());
        if trim(ps.last()).len() > 0 {
            assert forall|m: int| 0 <= m < prev.push(trim(ps.last())).len() implies (
            #[trigger] prev.push(trim(ps.last()))[m]).len() > 0 by {
                if m < prev.len() {
                    assert(prev.push(trim(ps.last()))[m] == prev[m]);
                }
            }
        }
    }
}

proof fn lemma_defs_upto_ok(lines: Seq<Seq<char>>, n: int)
    ensures
        params_ok(defs_upto(lines, n)),
    decreases n,
{
    if n > 0 {
        lemma_defs_upto_ok(lines, n - 1);
        match fn_def_at(lines, n - 1) {
            Some(d) => {
                let prev = defs_upto(lines, n - 1);
                let rest = trim(strip_prefix(trim(lines[n - 1]), "function "@).unwrap());
                let paren = find_char(rest, '(').unwrap();
                let close = match find_char(rest.skip(paren), ')') {
                    Some(p) => paren + p,
                    None => rest.len() as int,
                };
                lemma_nonempty_trimmed(split(rest.subrange(paren + 1, close), ','));
                assert forall|k: int, m: int|
                    0 <= k < prev.push(d).len() && 0 <= m < prev.push(d)[k].1.len() implies (
                    #[trigger] prev.push(d)[k].1[m]).len() > 0 by {
                    if k < prev.len() {
                        assert(prev.push(d)[k] == prev[k]);
                    }
                }
            },
            None => {},
        }
    }
}

fn nonempty_trimmed_exec(ps: &[Vec<char>]) -> (r: Vec<String>)
    ensures
        strs(r@) == nonempty_trimmed(views(ps@)),
{
    let ghost v = views(ps@);
    let mut r: Vec<String> = Vec::new();
    let mut i: usize = 0;
    while i < ps.len()
        invariant
            i <= ps@.len(),
            v == views(ps@),
            strs(r@) == nonempty_trimmed(v.take(i as int)),
        decreases ps.len() - i,
    {
        assert(v.take(i + 1).drop_last() =~= v.take(i as int));
        assert(v.take(i + 1).last() == ps@[i as int]@);
        let t = trim_chars(&ps[i]);
        if t.len() > 0 {
            let ghost r0 = strs(r@);
            let ts = string_of(&t);
            r.push(ts);
            assert(strs(r@) =~= r0.push(ts@));
        }
        i += 1;
    }
    assert(v.take(ps@.len() as int) =~= v);
    r
}

fn strings_of(v: &[Vec<char>]) -> (r: Vec<String>)
    ensures
        strs(r@) == views(v@),
{
    let mut r: Vec<String> = Vec::new();
    let mut i: usize = 0;
    while i < v.len()
        invariant
            i <= v@.len(),
            strs(r@) == views(v@).take(i as int),
        decreases v.len() - i,
    {
        let ghost r0 = strs(r@);
        let s = string_of(&v[i]);
        r.push(s);
        assert(strs(r@) =~= r0.push(s@));
        assert(views(v@).take(i + 1) =~= views(v@).take(i as int).push(v@[i as int]@));
        i += 1;
    }
    assert(views(v@).take(v@.len() as int) =~= views(v@));
    r
}

fn fn_def_at_exec(lines: &[Vec<char>], i: usize) -> (r: Option<FunctionDef>)
    requires
        i < lines@.len(),
    ensures
        match r {
            Some(d) => fn_def_at(views(lines@), i as int) == Some(def_view(d)),
            None => fn_def_at(views(lines@), i as int) is None,
        },
{
    let ghost ls = views(lines@);
    assert(ls[i as int] == lines@[i as int]@);
    let l = trim_chars(&lines[i]);
    let r0 = match strip_prefix_lit(&l, "function ") {
        None => return None,
        Some(r0) => r0,
    };
    let rest = trim_chars(&r0);
    let rl = rest.len();
    let paren = match find_char_in(&rest, '(') {
        None => return None,
        Some(p) => p,
    };
    proof {
        lemma_find_first_bounds(rest@, eq_pred('('));
    }
    let after_paren = suffix(&rest, paren);
    let close = match find_char_in(&after_paren, ')') {
        Some(p) => {
            proof {
                lemma_find_first_bounds(after_paren@, eq_pred(')'));
                assert(after_paren@[0] == '(');
            }
            paren + p
        },
        None => rest.len(),
    };
    let after_close = suffix(&rest, close);
    match find_char_in(&after_close, '{') {
        None => None,
        Some(p) => {
            proof {
                lemma_find_first_bounds(after_close@, eq_pred('{'));
            }
            let name = trim_chars(&slice_of(&rest, 0, paren));
            assert(rest@.subrange(0, paren as int) =~= rest@.take(paren as int));
            let pieces = split_chars(&slice_of(&rest, paren + 1, close), ',');
            let params = nonempty_trimmed_exec(&pieces);
            let body_text = suffix(&rest, close + p + 1);
            let (body, _) = block_body_exec(&body_text, lines, i);
            let bl = strings_of(&body);
            Some(FunctionDef { name: string_of(&name), params, body_lines: bl })
        },
    }
}

/// The function definitions of a script, in order.
pub(crate) fn extract_function_defs(lines: &[Vec<char>]) -> (r: Vec<FunctionDef>)
    ensures
        defs_view(r@) == defs_upto(views(lines@), lines@.len() as int),
        params_ok(defs_view(r@)),
{
    let mut funcs: Vec<FunctionDef> = Vec::new();
    let mut i: usize = 0;
    while i < lines.len()
        invariant
            i <= lines@.len(),
            defs_view(funcs@) == defs_upto(views(lines@), i as int),
        decreases lines.len() - i,
    {
        match fn_def_at_exec(lines, i) {
            Some(d) => {
                let ghost f0 = defs_view(funcs@);
                let ghost dv = def_view(d);
                funcs.push(d);
                assert(defs_view(funcs@) =~= f0.push(dv));
            },
            None => {},
        }
        i += 1;
    }
    proof {
        lemma_defs_upto_ok(views(lines@), lines@.len() as int);
    }
    funcs
}

/// The last definition named `name`.
pub(crate) fn find_def_exec<'a>(defs: &'a [FunctionDef], name: &[char]) -> (r: Option<&'a FunctionDef>)
    ensures
        match r {
            Some(d) => find_def(defs_view(defs@), name@) == Some(def_view(*d)),
            None => find_def(defs_view(defs@), name@) is None,
        },
{
    let ghost dv = defs_view(defs@);
    let mut j: usize = defs.len();
    assert(dv.take(dv.len() as int) =~= dv);
    while j > 0
        invariant
            j <= defs@.len(),
            dv == defs_view(defs@),
            find_def(dv, name@) == find_def(dv.take(j as int), name@),
        decreases j,
    {
        assert(dv.take(j as int).last() == def_view(defs@[j - 1]));
        let nm = chars_of(defs[j - 1].name.as_str());
        if eq_chars(&nm, name) {
            return Some(&defs[j - 1]);
        }
        assert(dv.take(j as int).drop_last() =~= dv.take(j - 1));
        j -= 1;
    }
    None
}

// ═══════════════════════ lines inside definitions ═══════════════════════

/// Reads a definition that starts on line `i` (trimmed there to `line`),
/// line by line from `j`, at brace depth `depth`: once a brace has
/// opened, each line is marked, up to the one where the depth is back to
/// zero. Gives the last line read and the marked lines.
pub open spec fn fn_range(
    lines: Seq<Seq<char>>,
    i: int,
    line: Seq<char>,
    j: int,
    depth: int,
    started: bool,
    acc: Set<int>,
) -> (int, Set<int>)
    decreases lines.len() - j,
{
    if j < 0 || j >= lines.len() {
        (j, acc)
    } else {
        let content = if j == i {
            line
        } else {
            lines[j]
        };
        let d2 = depth + count_char(content, '{') - count_char(content, '}');
        let s2 = started || count_char(content, '{') > 0;
        if s2 && d2 == 0 {
            (j, acc.insert(j))
        } else {
            fn_range(lines, i, line, j + 1, d2, s2, if s2 { acc.insert(j) } else { acc })
        }
    }
}

pub proof fn lemma_fn_range_bounds(
    lines: Seq<Seq<char>>,
    i: int,
    line: Seq<char>,
    j: int,
    depth: int,
    started: bool,
    acc: Set<int>,
)
    requires
        0 <= j <= lines.len(),
    ensures
        j <= fn_range(lines, i, line, j, depth, started, acc).0 <= lines.len(),
    decreases lines.len() - j,
{
    if j < lines.len() {
        let content = if j == i {
            line
        } else {
            lines[j]
        };
        let d2 = depth + count_char(content, '{') - count_char(content, '}');
        let s2 = started || count_char(content, '{') > 0;
        if !(s2 && d2 == 0) {
            lemma_fn_range_bounds(lines, i, line, j + 1, d2, s2, if s2 { acc.insert(j) } else { acc });
        }
    }
}

/// The lines from `i` on that lie inside a function definition, added to
/// `acc`; after a definition the scan goes on after its last line.
pub open spec fn ranges_from(lines: Seq<Seq<char>>, i: int, acc: Set<int>) -> Set<int>
    decreases lines.len() + 1 - i,
{
    if i < 0 || i >= lines.len() {
        acc
    } else {
        let line = trim(lines[i]);
        if starts_with(line, "function "@) {
            let r = fn_range(lines, i, line, i, 0, false, acc);
            proof {
                lemma_fn_range_bounds(lines, i, line, i, 0, false, acc);
            }
            ranges_from(lines, r.0 + 1, r.1)
        } else {
            ranges_from(lines, i + 1, acc)
        }
    }
}

/// The line numbers marked in `m`.
pub open spec fn marked(m: Seq<bool>) -> Set<int> {
    Set::new(|j: int| 0 <= j < m.len() && m[j])
}

/// Marks the lines that lie inside function definitions.
pub(crate) fn compute_function_line_ranges(lines: &[Vec<char>]) -> (r: Vec<bool>)
    ensures
        r@.len() == lines@.len(),
        marked(r@) == ranges_from(views(lines@), 0, Set::empty()),
{
    let ghost ls = views(lines@);
    let n = lines.len();
    let mut marks: Vec<bool> = Vec::new();
    let mut k: usize = 0;
    while k < n
        invariant
            k <= n,
            marks@.len() == k,
            forall|x: int| 0 <= x < k ==> !marks@[x],
        decreases n - k,
    {
        marks.push(false);
        k += 1;
    }
    assert(marked(marks@) =~= Set::<int>::empty());
    let mut i: usize = 0;
    while i < n
        invariant
            i <= n == lines@.len(),
            ls == views(lines@),
            marks@.len() == n,
            ranges_from(ls, 0, Set::empty()) == ranges_from(ls, i as int, marked(marks@)),
        decreases n - i,
    {
        assert(ls[i as int] == lines@[i as int]@);
        let line = trim_chars(&lines[i]);
        if !starts_with_lit(&line, "function ") {
            i += 1;
        } else {
            let ghost acc0 = marked(marks@);
            let mut opens: u128 = 0;
            let mut closes: u128 = 0;
            let mut started = false;
            let mut found = false;
            let mut j = i;
            while j < n && !found
                invariant
                    i <= j <= n == lines@.len(),
                    ls == views(lines@),
                    marks@.len() == n,
                    line@ == trim(ls[i as int]),
                    !found ==> opens <= depth_room((j - i) as int),
                    !found ==> closes <= depth_room((j - i) as int),
                    j - i <= usize::MAX,
                    !found ==> fn_range(ls, i as int, line@, i as int, 0, false, acc0) == fn_range(
                        ls,
                        i as int,
                        line@,
                        j as int,
                        opens - closes,
                        started,
                        marked(marks@),
                    ),
                    found ==> j < n && fn_range(ls, i as int, line@, i as int, 0, false, acc0) == (
                    j as int, marked(marks@)),
                decreases n - j, (if found { 0int } else { 1int }),
            {
                proof {
                    lemma_depth_room((j - i) as int);
                }
                let content: &[char] = if j == i {
                    &line
                } else {
                    assert(ls[j as int] == lines@[j as int]@);
                    &lines[j]
                };
                let cl = content.len();
                let o = count_char_in(content, '{');
                let c = count_char_in(content, '}');
                proof {
                    crate::text::lemma_count_char_le(content@, '{');
                    crate::text::lemma_count_char_le(content@, '}');
                }
                opens = opens + o as u128;
                closes = closes + c as u128;
                started = started || o > 0;
                if started && opens == closes {
                    let ghost m0 = marked(marks@);
                    marks.set(j, true);
                    assert(marked(marks@) =~= m0.insert(j as int));
                    found = true;
                } else {
                    if started {
                        let ghost m0 = marked(marks@);
                        marks.set(j, true);
                        assert(marked(marks@) =~= m0.insert(j as int));
                    }
                    j += 1;
                }
            }
            proof {
                lemma_fn_range_bounds(ls, i as int, line@, i as int, 0, false, acc0);
                let r = fn_range(ls, i as int, line@, i as int, 0, false, acc0);
                assert(ranges_from(ls, i as int, acc0) == ranges_from(ls, r.0 + 1, r.1));
                assert(r == (j as int, marked(marks@)));
            }
            if j >= n {
                assert(ranges_from(ls, j + 1, marked(marks@)) == marked(marks@));
                return marks;
            }
            i = j + 1;
        }
    }
    marks
}

// ═══════════════════════ inlining calls ═══════════════════════

/// The whitespace that a line starts with.
pub open spec fn indent_of(line: Seq<char>) -> Seq<char> {
    line.take(leading_ws(line))
}

/// `s` with the first `k` parameters replaced by their arguments, in order
/// (a parameter with no argument stays).
pub open spec fn subst(s: Seq<char>, params: Seq<Seq<char>>, args: Seq<Seq<char>>, k: int) -> Seq<char>
    decreases k,
{
    if k <= 0 {
        s
    } else {
        let prev = subst(s, params, args, k - 1);
        if k - 1 < args.len() {
            replace_all(prev, params[k - 1], args[k - 1])
        } else {
            prev
        }
    }
}

/// The arguments of a call, from the text between its parentheses.
pub open spec fn inline_args(args_str: Seq<char>) -> Seq<Seq<char>> {
    if trim(args_str).len() == 0 {
        seq![]
    } else {
        split(args_str, ',').map_values(|a: Seq<char>| trim(a))
    }
}

/// The variable declared by `const x` or `let x`.
pub open spec fn assign_target(lhs: Seq<char>) -> Option<Seq<char>> {
    match strip_prefix(lhs, "const "@) {
        Some(x) => Some(trim(x)),
        None => match strip_prefix(lhs, "let "@) {
            Some(x) => Some(trim(x)),
            None => None,
        },
    }
}

/// Lines with calls of defined functions replaced by the functions'
/// bodies, calls inside those bodies too; `fuel` bounds the depth of
/// nested calls, and `None` means that it ran out.
pub open spec fn inline_lines(fuel: nat, lines: Seq<Seq<char>>, defs: Seq<FnDefV>) -> Option<
    Seq<Seq<char>>,
>
    decreases fuel, 3nat, lines.len(),
{
    if lines.len() == 0 {
        Some(seq![])
    } else {
        match inline_lines(fuel, lines.drop_last(), defs) {
            None => None,
            Some(prev) => match inline_line(fuel, lines.last(), defs) {
                None => None,
                Some(x) => Some(prev + x),
            },
        }
    }
}

/// One line with a call replaced: a bare call `f(args);`, or
/// `const x = f(args);` / `let x = f(args);`; control statements and other
/// lines stay.
pub open spec fn inline_line(fuel: nat, line: Seq<char>, defs: Seq<FnDefV>) -> Option<Seq<Seq<char>>>
    decreases fuel, 2nat, 0nat,
{
    let t = trim(line);
    let indent = indent_of(line);
    if starts_with(t, "if"@) || starts_with(t, "for"@) || starts_with(t, "while"@) {
        Some(seq![line])
    } else if ends_with(t, ";"@) && !starts_with(t, "//"@) && find_char(t, '(') is Some {
        let paren = find_char(t, '(').unwrap();
        let bp = trim(t.take(paren));
        let first = if find_char(bp, ' ') is None && find_char(bp, '.') is None {
            try_inline(fuel, bp, None, t, paren, defs, indent)
        } else {
            Some(None)
        };
        match first {
            None => None,
            Some(Some(e)) => Some(e),
            Some(None) => {
                let second = if find_char(bp, '=') is Some {
                    let eq = rfind_char(bp, '=').unwrap();
                    let rf = trim(bp.skip(eq + 1));
                    match assign_target(trim(bp.take(eq))) {
                        Some(var) => if find_char(rf, '.') is None {
                            try_inline(fuel, rf, Some(var), t, paren, defs, indent)
                        } else {
                            Some(None)
                        },
                        None => Some(None),
                    }
                } else {
                    Some(None)
                };
                match second {
                    None => None,
                    Some(Some(e)) => Some(e),
                    Some(None) => Some(seq![line]),
                }
            },
        }
    } else {
        Some(seq![line])
    }
}

/// The body of `fname` in place of its call on `line` (whose `(` is at
/// `paren`), if `fname` is defined; `None` means that the fuel ran out.
pub open spec fn try_inline(
    fuel: nat,
    fname: Seq<char>,
    assign: Option<Seq<char>>,
    line: Seq<char>,
    paren: int,
    defs: Seq<FnDefV>,
    indent: Seq<char>,
) -> Option<Option<Seq<Seq<char>>>>
    decreases fuel, 1nat, 0nat,
{
    match find_def(defs, fname) {
        None => Some(None),
        Some(def) => match find_char(line.skip(paren), ')') {
            None => Some(None),
            Some(close) => match expand_body(
                fuel,
                def.2,
                def.1,
                inline_args(line.subrange(paren + 1, paren + close)),
                assign,
                indent,
                defs,
            ) {
                None => None,
                Some(e) => Some(Some(e)),
            },
        },
    }
}

/// A function body with its parameters replaced by the arguments: a
/// `return e;` becomes `let x = e;` when the call's value is assigned to
/// `x`, and is dropped otherwise; other lines, indented like the call, have
/// their own calls replaced in turn.
pub open spec fn expand_body(
    fuel: nat,
    body: Seq<Seq<char>>,
    params: Seq<Seq<char>>,
    args: Seq<Seq<char>>,
    assign: Option<Seq<char>>,
    indent: Seq<char>,
    defs: Seq<FnDefV>,
) -> Option<Seq<Seq<char>>>
    decreases fuel, 0nat, body.len(),
{
    if body.len() == 0 {
        Some(seq![])
    } else {
        match expand_body(fuel, body.drop_last(), params, args, assign, indent, defs) {
            None => None,
            Some(prev) => {
                let sub = subst(trim(body.last()), params, args, params.len() as int);
                let ts = trim(sub);
                if assign is Some && starts_with(ts, "return "@) {
                    Some(
                        prev.push(
                            indent + "let "@ + assign.unwrap() + " = "@ + trim(
                                trim_end_matches(ts.skip("return "@.len() as int), ';'),
                            ) + ";"@,
                        ),
                    )
                } else if assign is None && starts_with(ts, "return "@) {
                    Some(prev)
                } else if fuel == 0 {
                    None
                } else {
                    match inline_lines((fuel - 1) as nat, seq![indent + sub], defs) {
                        None => None,
                        Some(x) => Some(prev + x),
                    }
                }
            },
        }
    }
}

proof fn lemma_inline_lines_prefix(fuel: nat, lines: Seq<Seq<char>>, defs: Seq<FnDefV>, k: int)
    requires
        inline_lines(fuel, lines, defs) is Some,
        0 <= k <= lines.len(),
    ensures
        inline_lines(fuel, lines.take(k), defs) is Some,
    decreases lines.len() - k,
{
    if k == lines.len() {
        assert(lines.take(k) =~= lines);
    } else {
        lemma_inline_lines_prefix(fuel, lines, defs, k + 1);
        assert(lines.take(k + 1).drop_last() =~= lines.take(k));
    }
}

proof fn lemma_expand_prefix(
    fuel: nat,
    body: Seq<Seq<char>>,
    params: Seq<Seq<char>>,
    args: Seq<Seq<char>>,
    assign: Option<Seq<char>>,
    indent: Seq<char>,
    defs: Seq<FnDefV>,
    k: int,
)
    requires
        expand_body(fuel, body, params, args, assign, indent, defs) is Some,
        0 <= k <= body.len(),
    ensures
        expand_body(fuel, body.take(k), params, args, assign, indent, defs) is Some,
    decreases body.len() - k,
{
    if k == body.len() {
        assert(body.take(k) =~= body);
    } else {
        lemma_expand_prefix(fuel, body, params, args, assign, indent, defs, k + 1);
        assert(body.take(k + 1).drop_last() =~= body.take(k));
    }
}

proof fn lemma_find_def_in(defs: Seq<FnDefV>, name: Seq<char>)
    ensures
        find_def(defs, name) matches Some(d) ==> exists|k: int| 0 <= k < defs.len() && defs[k] == d,
    decreases defs.len(),
{
    if defs.len() > 0 && defs.last().0 != name {
        lemma_find_def_in(defs.drop_last(), name);
        if let Some(d) = find_def(defs.drop_last(), name) {
            let k = choose|k: int| 0 <= k < defs.drop_last().len() && defs.drop_last()[k] == d;
            assert(defs[k] == d);
        }
    } else if defs.len() > 0 {
        assert(defs[defs.len() - 1] == defs.last());
    }
}

fn subst_exec(s: &[char], params: &[String], args: &[Vec<char>]) -> (r: Vec<char>)
    requires
        forall|m: int| 0 <= m < params@.len() ==> (#[trigger] params@[m])@.len() > 0,
    ensures
        r@ == subst(s@, strs(params@), views(args@), params@.len() as int),
{
    let mut cur = slice_of(s, 0, s.len());
    assert(cur@ =~= s@);
    let mut i: usize = 0;
    while i < params.len()
        invariant
            i <= params@.len(),
            forall|m: int| 0 <= m < params@.len() ==> (#[trigger] params@[m])@.len() > 0,
            cur@ == subst(s@, strs(params@), views(args@), i as int),
        decreases params.len() - i,
    {
        if i < args.len() {
            let p = chars_of(params[i].as_str());
            assert(p@ == strs(params@)[i as int]);
            assert(args@[i as int]@ == views(args@)[i as int]);
            cur = replace_chars(&cur, &p, &args[i]);
        }
        i += 1;
    }
    cur
}

fn inline_args_exec(args_str: &[char]) -> (r: Vec<Vec<char>>)
    ensures
        views(r@) == inline_args(args_str@),
{
    let mut r: Vec<Vec<char>> = Vec::new();
    if trim_chars(args_str).len() == 0 {
        assert(views(r@) =~= inline_args(args_str@));
        return r;
    }
    let pieces = split_chars(args_str, ',');
    let ghost ps = views(pieces@);
    let mut i: usize = 0;
    while i < pieces.len()
        invariant
            i <= pieces@.len(),
            ps == views(pieces@),
            ps == split(args_str@, ','),
            views(r@) == ps.take(i as int).map_values(|a: Seq<char>| trim(a)),
        decreases pieces.len() - i,
    {
        let t = trim_chars(&pieces[i]);
        let ghost r0 = views(r@);
        r.push(t);
        assert(ps[i as int] == pieces@[i as int]@);
        assert(views(r@) =~= r0.push(t@));
        assert(ps.take(i + 1).map_values(|a: Seq<char>| trim(a)) =~= ps.take(i as int).map_values(
            |a: Seq<char>| trim(a),
        ).push(trim(ps[i as int])));
        i += 1;
    }
    assert(ps.take(pieces@.len() as int) =~= ps);
    r
}

fn opt_view(o: Option<&[char]>) -> (r: Ghost<Option<Seq<char>>>)
    ensures
        r@ == match o {
            Some(x) => Some(x@),
            None => None,
        },
{
    Ghost(
        match o {
            Some(x) => Some(x@),
            None => None,
        },
    )
}

fn expand_exec(
    Ghost(fuel): Ghost<nat>,
    body: &[String],
    params: &[String],
    args: &[Vec<char>],
    assign: Option<&[char]>,
    indent: &[char],
    defs: &[FunctionDef],
) -> (r: Vec<Vec<char>>)
    requires
        params_ok(defs_view(defs@)),
        forall|m: int| 0 <= m < params@.len() ==> (#[trigger] params@[m])@.len() > 0,
        expand_body(
            fuel,
            strs(body@),
            strs(params@),
            views(args@),
            match assign {
                Some(x) => Some(x@),
                None => None,
            },
            indent@,
            defs_view(defs@),
        ) is Some,
    ensures
        expand_body(
            fuel,
            strs(body@),
            strs(params@),
            views(args@),
            match assign {
                Some(x) => Some(x@),
                None => None,
            },
            indent@,
            defs_view(defs@),
        ) == Some(views(r@)),
    decreases fuel, 0nat, body@.len(),
{
    let ghost av = match assign {
        Some(x) => Some(x@),
        None => None,
    };
    let ghost bv = strs(body@);
    let ghost dv = defs_view(defs@);
    let mut out: Vec<Vec<char>> = Vec::new();
    let mut i: usize = 0;
    assert(bv.take(0) =~= Seq::<Seq<char>>::empty());
    assert(views(out@) =~= Seq::<Seq<char>>::empty());
    while i < body.len()
        invariant
            i <= body@.len(),
            bv == strs(body@),
            dv == defs_view(defs@),
            params_ok(dv),
            forall|m: int| 0 <= m < params@.len() ==> (#[trigger] params@[m])@.len() > 0,
            av == match assign {
                Some(x) => Some(x@),
                None => None,
            },
            expand_body(fuel, bv, strs(params@), views(args@), av, indent@, dv) is Some,
            expand_body(fuel, bv.take(i as int), strs(params@), views(args@), av, indent@, dv) == Some(
                views(out@),
            ),
        decreases body.len() - i,
    {
        proof {
            lemma_expand_prefix(fuel, bv, strs(params@), views(args@), av, indent@, dv, i + 1);
            assert(bv.take(i + 1).drop_last() =~= bv.take(i as int));
            assert(bv.take(i + 1).last() == body@[i as int]@);
        }
        let line = chars_of(body[i].as_str());
        let sub = subst_exec(&trim_chars(&line), params, args);
        let ts = trim_chars(&sub);
        let is_ret = starts_with_lit(&ts, "return ");
        if assign.is_some() && is_ret {
            let var = assign.unwrap();
            let n = "return ".unicode_len();
            let e = trim_chars(&trim_end_matches_chars(&suffix(&ts, n), ';'));
            let mut o = slice_of(indent, 0, indent.len());
            assert(o@ =~= indent@);
            push_lit(&mut o, "let ");
            push_all(&mut o, var);
            push_lit(&mut o, " = ");
            push_all(&mut o, &e);
            push_lit(&mut o, ";");
            let ghost o0 = views(out@);
            out.push(o);
            assert(views(out@) =~= o0.push(o@));
        } else if assign.is_none() && is_ret {
        } else {
            let mut one = slice_of(indent, 0, indent.len());
            assert(one@ =~= indent@);
            push_all(&mut one, &sub);
            let mut single: Vec<Vec<char>> = Vec::new();
            single.push(one);
            assert(views(single@) =~= seq![indent@ + sub@]);
            let mut x = inline_function_calls(Ghost((fuel - 1) as nat), &single, defs);
            let ghost o0 = views(out@);
            let ghost x0 = views(x@);
            out.append(&mut x);
            assert(views(out@) =~= o0 + x0);
        }
        i += 1;
    }
    assert(bv.take(body@.len() as int) =~= bv);
    out
}

fn try_inline_call(
    Ghost(fuel): Ghost<nat>,
    fname: &[char],
    assign: Option<&[char]>,
    line: &[char],
    paren: usize,
    defs: &[FunctionDef],
    indent: &[char],
) -> (r: Option<Vec<Vec<char>>>)
    requires
        params_ok(defs_view(defs@)),
        paren < line@.len(),
        line@[paren as int] == '(',
        try_inline(
            fuel,
            fname@,
            match assign {
                Some(x) => Some(x@),
                None => None,
            },
            line@,
            paren as int,
            defs_view(defs@),
            indent@,
        ) is Some,
    ensures
        try_inline(
            fuel,
            fname@,
            match assign {
                Some(x) => Some(x@),
                None => None,
            },
            line@,
            paren as int,
            defs_view(defs@),
            indent@,
        ) == Some(
            match r {
                Some(v) => Some(views(v@)),
                None => None,
            },
        ),
    decreases fuel, 1nat, 0nat,
{
    let def = match find_def_exec(defs, fname) {
        None => return None,
        Some(d) => d,
    };
    proof {
        lemma_find_def_in(defs_view(defs@), fname@);
        let k = choose|k: int| 0 <= k < defs_view(defs@).len() && defs_view(defs@)[k] == def_view(*def);
        assert forall|m: int| 0 <= m < def.params@.len() implies (#[trigger] def.params@[m])@.len() > 0 by {
            assert(defs_view(defs@)[k].1[m] == def.params@[m]@);
        }
    }
    let ll = line.len();
    let after = suffix(line, paren);
    let close = match find_char_in(&after, ')') {
        None => return None,
        Some(c) => c,
    };
    proof {
        lemma_find_first_bounds(after@, eq_pred(')'));
        assert(after@[0] == '(');
    }
    let args = inline_args_exec(&slice_of(line, paren + 1, paren + close));
    Some(expand_exec(Ghost(fuel), &def.body_lines, &def.params, &args, assign, indent, defs))
}

fn inline_line_exec(Ghost(fuel): Ghost<nat>, line: &[char], defs: &[FunctionDef]) -> (r: Vec<Vec<char>>)
    requires
        params_ok(defs_view(defs@)),
        inline_line(fuel, line@, defs_view(defs@)) is Some,
    ensures
        inline_line(fuel, line@, defs_view(defs@)) == Some(views(r@)),
    decreases fuel, 2nat, 0nat,
{
    let t = trim_chars(line);
    let lw = leading_ws_count(line);
    proof {
        crate::text::lemma_trim_start_suffix(line@);
    }
    let indent = slice_of(line, 0, lw);
    assert(indent@ =~= indent_of(line@));
    let mut keep: Vec<Vec<char>> = Vec::new();
    let whole = slice_of(line, 0, line.len());
    assert(whole@ =~= line@);
    keep.push(whole);
    assert(views(keep@) =~= seq![line@]);
    if starts_with_lit(&t, "if") || starts_with_lit(&t, "for") || starts_with_lit(&t, "while") {
        return keep;
    }
    if !(ends_with_lit(&t, ";") && !starts_with_lit(&t, "//")) {
        return keep;
    }
    let paren = match find_char_in(&t, '(') {
        None => return keep,
        Some(p) => p,
    };
    proof {
        lemma_find_first_bounds(t@, eq_pred('('));
    }
    let bp = trim_chars(&slice_of(&t, 0, paren));
    assert(t@.subrange(0, paren as int) =~= t@.take(paren as int));
    if find_char_in(&bp, ' ').is_none() && find_char_in(&bp, '.').is_none() {
        match try_inline_call(Ghost(fuel), &bp, None, &t, paren, defs, &indent) {
            Some(e) => return e,
            None => {},
        }
    }
    if find_char_in(&bp, '=').is_some() {
        proof {
            lemma_find_first_bounds(bp@, eq_pred('='));
            let k = find_char(bp@, '=').unwrap();
            crate::text::lemma_rfind_char_some(bp@, '=', k);
            crate::text::lemma_rfind_char_bounds(bp@, '=');
        }
        let bl = bp.len();
        let eq = rfind_char_in(&bp, '=').unwrap();
        let rf = trim_chars(&suffix(&bp, eq + 1));
        let lhs = trim_chars(&slice_of(&bp, 0, eq));
        assert(bp@.subrange(0, eq as int) =~= bp@.take(eq as int));
        let target = match strip_prefix_lit(&lhs, "const ") {
            Some(x) => Some(trim_chars(&x)),
            None => match strip_prefix_lit(&lhs, "let ") {
                Some(x) => Some(trim_chars(&x)),
                None => None,
            },
        };
        match target {
            Some(var) => {
                if find_char_in(&rf, '.').is_none() {
                    match try_inline_call(Ghost(fuel), &rf, Some(&var), &t, paren, defs, &indent) {
                        Some(e) => return e,
                        None => {},
                    }
                }
            },
            None => {},
        }
    }
    keep
}

/// Lines with calls of the defined functions replaced by their bodies.
pub(crate) fn inline_function_calls(Ghost(fuel): Ghost<nat>, lines: &[Vec<char>], defs: &[FunctionDef]) -> (r: Vec<
    Vec<char>,
>)
    requires
        params_ok(defs_view(defs@)),
        inline_lines(fuel, views(lines@), defs_view(defs@)) is Some,
    ensures
        inline_lines(fuel, views(lines@), defs_view(defs@)) == Some(views(r@)),
    decreases fuel, 3nat, lines@.len(),
{
    let ghost lv = views(lines@);
    let ghost dv = defs_view(defs@);
    let mut out: Vec<Vec<char>> = Vec::new();
    let mut i: usize = 0;
    assert(lv.take(0) =~= Seq::<Seq<char>>::empty());
    assert(views(out@) =~= Seq::<Seq<char>>::empty());
    while i < lines.len()
        invariant
            i <= lines@.len(),
            lv == views(lines@),
            dv == defs_view(defs@),
            params_ok(dv),
            inline_lines(fuel, lv, dv) is Some,
            inline_lines(fuel, lv.take(i as int), dv) == Some(views(out@)),
        decreases lines.len() - i,
    {
        proof {
            lemma_inline_lines_prefix(fuel, lv, dv, i + 1);
            assert(lv.take(i + 1).drop_last() =~= lv.take(i as int));
            assert(lv.take(i + 1).last() == lines@[i as int]@);
        }
        let mut x = inline_line_exec(Ghost(fuel), &lines[i], defs);
        let ghost o0 = views(out@);
        let ghost x0 = views(x@);
        out.append(&mut x);
        assert(views(out@) =~= o0 + x0);
        i += 1;
    }
    assert(lv.take(lines@.len() as int) =~= lv);
    out
}

} // verus!
