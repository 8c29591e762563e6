//! Script expressions and single statements rewritten as Rust: conditions,
//! literals, bit operations, `var`, `++`, `instanceof`, `queueMicrotask`
//! and Canvas calls.
use vstd::prelude::*;

use crate::text::{
    chars_of, ends_with, find_char, find_char_in, find_lit, find_seq, has_char, has_lit, join,
    join_chars, parse_i32, parse_i32_spec, push_all, push_lit, replace_all, replace_chars,
    slice_of, split, split_chars, starts_with, strip_prefix, strip_prefix_lit, strip_suffix,
    strip_suffix_lit, suffix, trim, trim_chars, trim_end_matches, trim_end_matches_chars, views,
    lemma_find_first_bounds, lemma_find_seq, eq_pred,
};
use super::canvas_codegen::{canvas_call_spec, compile_canvas_call};

verus! {

// ═══════════════════════ conditions ═══════════════════════

/// The Rust form of an `if` condition: comparisons with an empty string
/// become `is_empty` tests, `!==` and `===` become `!=` and `==`.
pub open spec fn if_condition_spec(cond: Seq<char>) -> Seq<char> {
    let c = trim(cond);
    match strip_suffix(c, "!== ''"@) {
        Some(rest) => "!"@ + trim(rest) + ".is_empty()"@,
        None => match strip_suffix(c, "!== \"\""@) {
            Some(rest) => "!"@ + trim(rest) + ".is_empty()"@,
            None => match strip_suffix(c, "!= ''"@) {
                Some(rest) => trim(rest) + " != \"\""@,
                None => match strip_suffix(c, "=== ''"@) {
                    Some(rest) => trim(rest) + ".is_empty()"@,
                    None => match strip_suffix(c, "== ''"@) {
                        Some(rest) => trim(rest) + " == \"\""@,
                        None => if find_seq(c, "!=="@) is Some {
                            replace_all(c, "!=="@, "!="@)
                        } else if find_seq(c, "==="@) is Some {
                            replace_all(c, "==="@, "=="@)
                        } else {
                            c
                        },
                    },
                },
            },
        },
    }
}

fn append(mid: &[char], post: &str) -> (r: Vec<char>)
    ensures
        r@ == mid@ + post@,
{
    let mut o = slice_of(mid, 0, mid.len());
    assert(o@ =~= mid@);
    push_lit(&mut o, post);
    o
}

fn wrap(pre: &str, mid: &[char], post: &str) -> (r: Vec<char>)
    ensures
        r@ == pre@ + mid@ + post@,
{
    let mut o = chars_of(pre);
    push_all(&mut o, mid);
    push_lit(&mut o, post);
    o
}

/// The Rust form of an `if` condition.
pub(crate) fn translate_if_condition(cond: &[char]) -> (r: Vec<char>)
    ensures
        r@ == if_condition_spec(cond@),
{
    let c = trim_chars(cond);
    match strip_suffix_lit(&c, "!== ''") {
        Some(rest) => return wrap("!", &trim_chars(&rest), ".is_empty()"),
        None => {},
    }
    match strip_suffix_lit(&c, "!== \"\"") {
        Some(rest) => return wrap("!", &trim_chars(&rest), ".is_empty()"),
        None => {},
    }
    match strip_suffix_lit(&c, "!= ''") {
        Some(rest) => return append(&trim_chars(&rest), " != \"\""),
        None => {},
    }
    match strip_suffix_lit(&c, "=== ''") {
        Some(rest) => return append(&trim_chars(&rest), ".is_empty()"),
        None => {},
    }
    match strip_suffix_lit(&c, "== ''") {
        Some(rest) => return append(&trim_chars(&rest), " == \"\""),
        None => {},
    }
    proof {
        reveal_strlit("");
    }
    if has_lit(&c, "!==") {
        proof {
            reveal_strlit("!==");
        }
        return replace_chars(&c, &chars_of("!=="), &chars_of("!="));
    }
    if has_lit(&c, "===") {
        proof {
            reveal_strlit("===");
        }
        return replace_chars(&c, &chars_of("==="), &chars_of("=="));
    }
    c
}

// ═══════════════════════ expressions ═══════════════════════

/// Whether `e` starts and ends with the same quote character.
pub open spec fn quoted(e: Seq<char>) -> bool {
    e.len() > 0 && ((e[0] == '\'' && e.last() == '\'') || (e[0] == '"' && e.last() == '"'))
}

/// Whether an expression can be rewritten: a lone quote character cannot.
pub open spec fn expr_ok(expr: Seq<char>) -> bool {
    !(quoted(trim(expr)) && trim(expr).len() < 2)
}

/// A binary operation `l op r` around the first `op` in `e`, both sides
/// trimmed, as `pre l mid r post`.
pub open spec fn around(e: Seq<char>, i: int, n: int, pre: Seq<char>, mid: Seq<char>, post: Seq<
    char,
>) -> Seq<char> {
    pre + trim(e.take(i)) + mid + trim(e.skip(i + n)) + post
}

/// The Rust form of a bit operation (`>>>`, `>>`, `<<`, `&`, `|`, `^`,
/// `~`), if `expr` is one.
pub open spec fn bitwise_spec(expr: Seq<char>) -> Option<Seq<char>> {
    let e = trim(expr);
    match find_seq(e, ">>>"@) {
        Some(i) => Some(around(e, i, 3, "(("@, " as u32) >> "@, ") as i32"@)),
        None => match find_seq(e, ">>"@) {
            Some(i) => Some(around(e, i, 2, "("@, " >> "@, ")"@)),
            None => match find_seq(e, "<<"@) {
                Some(i) => Some(around(e, i, 2, "("@, " << "@, ")"@)),
                None => if find_char(e, '&') is Some && find_seq(e, "&&"@) is None {
                    Some(around(e, find_char(e, '&').unwrap(), 1, "("@, " & "@, ")"@))
                } else if find_char(e, '|') is Some && find_seq(e, "||"@) is None {
                    Some(around(e, find_char(e, '|').unwrap(), 1, "("@, " | "@, ")"@))
                } else if find_char(e, '^') is Some {
                    Some(around(e, find_char(e, '^').unwrap(), 1, "("@, " ^ "@, ")"@))
                } else if e.len() > 0 && e[0] == '~' {
                    Some("(!"@ + trim(e.skip(1)) + ")"@)
                } else {
                    None
                },
            },
        },
    }
}

/// The Rust form of a script expression: `parseInt(x)`, `x.toString()`,
/// string and number literals, bit operations; anything else unchanged.
pub open spec fn expr_spec(expr: Seq<char>) -> Seq<char> {
    let e = trim(expr);
    if starts_with(e, "parseInt("@) {
        let inner = trim_end_matches(e, ')');
        trim(join(split(inner, '(').skip(1), "("@)) + ".parse::<i32>().unwrap_or(0)"@
    } else if strip_suffix(e, ".toString()"@) is Some {
        strip_suffix(e, ".toString()"@).unwrap() + ".to_string()"@
    } else if quoted(e) {
        seq!['"'] + e.subrange(1, e.len() - 1) + seq!['"']
    } else if parse_i32_spec(e) is Some {
        e
    } else {
        match bitwise_spec(e) {
            Some(b) => b,
            None => e,
        }
    }
}

fn around_exec(e: &[char], i: usize, n: usize, pre: &str, mid: &str, post: &str) -> (r: Vec<char>)
    requires
        i + n <= e@.len(),
    ensures
        r@ == around(e@, i as int, n as int, pre@, mid@, post@),
{
    let len = e.len();
    let l = trim_chars(&slice_of(e, 0, i));
    let rr = trim_chars(&suffix(e, i + n));
    assert(e@.subrange(0, i as int) =~= e@.take(i as int));
    let mut o = chars_of(pre);
    push_all(&mut o, &l);
    push_lit(&mut o, mid);
    push_all(&mut o, &rr);
    push_lit(&mut o, post);
    o
}

/// The Rust form of a bit operation, if `expr` is one.
pub(crate) fn translate_bitwise(expr: &[char]) -> (r: Option<Vec<char>>)
    ensures
        match r {
            Some(x) => bitwise_spec(expr@) == Some(x@),
            None => bitwise_spec(expr@) is None,
        },
{
    let e = trim_chars(expr);
    proof {
        reveal_strlit(">>>");
        reveal_strlit(">>");
        reveal_strlit("<<");
        lemma_find_seq(e@, ">>>"@);
        lemma_find_seq(e@, ">>"@);
        lemma_find_seq(e@, "<<"@);
        lemma_find_first_bounds(e@, eq_pred('&'));
        lemma_find_first_bounds(e@, eq_pred('|'));
        lemma_find_first_bounds(e@, eq_pred('^'));
    }
    match find_lit(&e, ">>>") {
        Some(i) => return Some(around_exec(&e, i, 3, "((", " as u32) >> ", ") as i32")),
        None => {},
    }
    match find_lit(&e, ">>") {
        Some(i) => return Some(around_exec(&e, i, 2, "(", " >> ", ")")),
        None => {},
    }
    match find_lit(&e, "<<") {
        Some(i) => return Some(around_exec(&e, i, 2, "(", " << ", ")")),
        None => {},
    }
    match find_char_in(&e, '&') {
        Some(i) => {
            if !has_lit(&e, "&&") {
                return Some(around_exec(&e, i, 1, "(", " & ", ")"));
            }
        },
        None => {},
    }
    match find_char_in(&e, '|') {
        Some(i) => {
            if !has_lit(&e, "||") {
                return Some(around_exec(&e, i, 1, "(", " | ", ")"));
            }
        },
        None => {},
    }
    match find_char_in(&e, '^') {
        Some(i) => return Some(around_exec(&e, i, 1, "(", " ^ ", ")")),
        None => {},
    }
    if e.len() > 0 && e[0] == '~' {
        let inner = trim_chars(&suffix(&e, 1));
        return Some(wrap("(!", &inner, ")"));
    }
    None
}

/// The Rust form of a script expression.
pub(crate) fn translate_expr(expr: &[char]) -> (r: Vec<char>)
    requires
        expr_ok(expr@),
    ensures
        r@ == expr_spec(expr@),
{
    let e = trim_chars(expr);
    if starts_with_lit_chars(&e, "parseInt(") {
        let inner = trim_end_matches_chars(&e, ')');
        let pieces = split_chars(&inner, '(');
        proof {
            crate::text::lemma_split_nonempty(inner@, '(');
        }
        let rest = slice_vecs(&pieces, 1);
        let joined = join_chars(&rest, "(");
        proof {
            assert(views(rest@) =~= split(inner@, '(').skip(1));
        }
        return append(&trim_chars(&joined), ".parse::<i32>().unwrap_or(0)");
    }
    match strip_suffix_lit(&e, ".toString()") {
        Some(x) => return append(&x, ".to_string()"),
        None => {},
    }
    let n = e.len();
    if n > 0 && ((e[0] == '\'' && e[n - 1] == '\'') || (e[0] == '"' && e[n - 1] == '"')) {
        let inner = slice_of(&e, 1, n - 1);
        let mut o: Vec<char> = vec!['"'];
        push_all(&mut o, &inner);
        o.push('"');
        assert(o@ =~= seq!['"'] + e@.subrange(1, n - 1) + seq!['"']);
        return o;
    }
    if parse_i32(&e).is_some() {
        return e;
    }
    match translate_bitwise(&e) {
        Some(b) => {
            proof {
                crate::text::lemma_trim_idempotent(e@);
            }
            b
        },
        None => {
            proof {
                crate::text::lemma_trim_idempotent(e@);
            }
            e
        },
    }
}

fn starts_with_lit_chars(v: &[char], lit: &str) -> (b: bool)
    ensures
        b == starts_with(v@, lit@),
{
    crate::text::starts_with_lit(v, lit)
}

/// The vectors from position `a` on.
pub(crate) fn slice_vecs(v: &[Vec<char>], a: usize) -> (r: Vec<Vec<char>>)
    requires
        a <= v@.len(),
    ensures
        views(r@) == views(v@).skip(a as int),
{
    let mut r: Vec<Vec<char>> = Vec::new();
    let mut i = a;
    while i < v.len()
        invariant
            a <= i <= v@.len(),
            views(r@) == views(v@).subrange(a as int, i as int),
        decreases v.len() - i,
    {
        let c = slice_of(&v[i], 0, v[i].len());
        assert(c@ =~= v@[i as int]@);
        let ghost r0 = r@;
        r.push(c);
        assert(views(r@) =~= views(r0).push(c@));
        assert(views(r@) =~= views(v@).subrange(a as int, i + 1));
        i += 1;
    }
    assert(views(v@).subrange(a as int, v@.len() as int) =~= views(v@).skip(a as int));
    r
}

// ═══════════════════════ statements ═══════════════════════

/// A statement without surrounding whitespace and trailing `;`s.
pub open spec fn bare(line: Seq<char>) -> Seq<char> {
    trim_end_matches(trim(line), ';')
}

fn bare_exec(line: &[char]) -> (r: Vec<char>)
    ensures
        r@ == bare(line@),
{
    trim_end_matches_chars(&trim_chars(line), ';')
}

/// Whether a `var` statement can be rewritten: its value, if it has one,
/// can.
pub open spec fn var_decl_ok(line: Seq<char>) -> bool {
    match strip_prefix(bare(line), "var "@) {
        Some(r0) => match find_char(trim(r0), '=') {
            Some(i) => expr_ok(trim(trim(r0).skip(i + 1))),
            None => true,
        },
        None => true,
    }
}

/// The Rust form of `var x = v;` (`let mut x = v;`) or `var x;`.
pub open spec fn var_decl_spec(line: Seq<char>) -> Option<Seq<char>> {
    match strip_prefix(bare(line), "var "@) {
        None => None,
        Some(r0) => {
            let rest = trim(r0);
            match find_char(rest, '=') {
                Some(i) => Some(
                    "let mut "@ + trim(rest.take(i)) + " = "@ + expr_spec(trim(rest.skip(i + 1)))
                        + ";"@,
                ),
                None => Some("let mut "@ + rest + " = None::<String>; // var declaration"@),
            }
        },
    }
}

/// The Rust form of a `var` statement.
pub(crate) fn translate_var_declaration(line: &[char]) -> (r: Option<Vec<char>>)
    requires
        var_decl_ok(line@),
    ensures
        match r {
            Some(x) => var_decl_spec(line@) == Some(x@),
            None => var_decl_spec(line@) is None,
        },
{
    let l = bare_exec(line);
    match strip_prefix_lit(&l, "var ") {
        None => None,
        Some(r0) => {
            let rest = trim_chars(&r0);
            match find_char_in(&rest, '=') {
                Some(i) => {
                    proof {
                        lemma_find_first_bounds(rest@, eq_pred('='));
                    }
                    let name = trim_chars(&slice_of(&rest, 0, i));
                    assert(rest@.subrange(0, i as int) =~= rest@.take(i as int));
                    let rl = rest.len();
                    let value = trim_chars(&suffix(&rest, i + 1));
                    let v = translate_expr(&value);
                    let mut o = chars_of("let mut ");
                    push_all(&mut o, &name);
                    push_lit(&mut o, " = ");
                    push_all(&mut o, &v);
                    push_lit(&mut o, ";");
                    Some(o)
                },
                None => Some(wrap("let mut ", &rest, " = None::<String>; // var declaration")),
            }
        },
    }
}

/// The Rust form of `x++`, `x--`, `++x` or `--x`.
pub open spec fn increment_spec(line: Seq<char>) -> Option<Seq<char>> {
    let l = bare(line);
    match strip_suffix(l, "++"@) {
        Some(v) => Some(trim(v) + " += 1;"@),
        None => match strip_suffix(l, "--"@) {
            Some(v) => Some(trim(v) + " -= 1;"@),
            None => match strip_prefix(l, "++"@) {
                Some(v) => Some(trim(v) + " += 1;"@),
                None => match strip_prefix(l, "--"@) {
                    Some(v) => Some(trim(v) + " -= 1;"@),
                    None => None,
                },
            },
        },
    }
}

/// The Rust form of an increment or decrement statement.
pub(crate) fn translate_increment(line: &[char]) -> (r: Option<Vec<char>>)
    ensures
        match r {
            Some(x) => increment_spec(line@) == Some(x@),
            None => increment_spec(line@) is None,
        },
{
    let l = bare_exec(line);
    match strip_suffix_lit(&l, "++") {
        Some(v) => return Some(append(&trim_chars(&v), " += 1;")),
        None => {},
    }
    match strip_suffix_lit(&l, "--") {
        Some(v) => return Some(append(&trim_chars(&v), " -= 1;")),
        None => {},
    }
    match strip_prefix_lit(&l, "++") {
        Some(v) => return Some(append(&trim_chars(&v), " += 1;")),
        None => {},
    }
    match strip_prefix_lit(&l, "--") {
        Some(v) => return Some(append(&trim_chars(&v), " -= 1;")),
        None => {},
    }
    None
}

/// The Rust form of `x instanceof T` (`x.is_instance_of::<T>();`), or the
/// statement kept as a comment.
pub open spec fn instanceof_spec(line: Seq<char>) -> Seq<char> {
    let l = bare(line);
    match find_seq(l, "instanceof"@) {
        Some(p) => trim(l.take(p)) + ".is_instance_of::<"@ + trim(l.skip(p + "instanceof"@.len()))
            + ">();"@,
        None => "// "@ + l + "; // (JS instanceof → Rust)"@,
    }
}

/// The Rust form of an `instanceof` statement.
pub(crate) fn translate_instanceof(line: &[char]) -> (r: Vec<char>)
    ensures
        r@ == instanceof_spec(line@),
{
    let l = bare_exec(line);
    match find_lit(&l, "instanceof") {
        Some(p) => {
            proof {
                lemma_find_seq(l@, "instanceof"@);
            }
            let n = "instanceof".unicode_len();
            let ll = l.len();
            let left = trim_chars(&slice_of(&l, 0, p));
            assert(l@.subrange(0, p as int) =~= l@.take(p as int));
            let right = trim_chars(&suffix(&l, p + n));
            let mut o = append(&left, ".is_instance_of::<");
            push_all(&mut o, &right);
            push_lit(&mut o, ">();");
            o
        },
        None => wrap("// ", &l, "; // (JS instanceof → Rust)"),
    }
}

/// The Rust form of `queueMicrotask(f)`.
pub open spec fn microtask_spec(line: Seq<char>) -> Option<Seq<char>> {
    match strip_prefix(bare(line), "queueMicrotask("@) {
        Some(rest) => Some("queue_microtask("@ + trim(trim_end_matches(rest, ')')) + ");"@),
        None => None,
    }
}

/// The Rust form of a `queueMicrotask` call.
pub(crate) fn translate_queue_microtask(line: &[char]) -> (r: Option<Vec<char>>)
    ensures
        match r {
            Some(x) => microtask_spec(line@) == Some(x@),
            None => microtask_spec(line@) is None,
        },
{
    let l = bare_exec(line);
    match strip_prefix_lit(&l, "queueMicrotask(") {
        Some(rest) => {
            let inner = trim_chars(&trim_end_matches_chars(&rest, ')'));
            Some(wrap("queue_microtask(", &inner, ");"))
        },
        None => None,
    }
}

/// Whether a statement calls one of the Canvas methods that the compiler
/// rewrites.
pub open spec fn canvas_pattern(l: Seq<char>) -> bool {
    ||| find_seq(l, ".fillRect("@) is Some
    ||| find_seq(l, ".strokeRect("@) is Some
    ||| find_seq(l, ".clearRect("@) is Some
    ||| find_seq(l, ".beginPath("@) is Some
    ||| find_seq(l, ".moveTo("@) is Some
    ||| find_seq(l, ".lineTo("@) is Some
    ||| find_seq(l, ".arc("@) is Some
    ||| find_seq(l, ".fillText("@) is Some
}

/// The arguments of a call, from the text inside its parentheses.
pub open spec fn call_args(args_str: Seq<char>) -> Seq<Seq<char>> {
    if args_str.len() == 0 {
        seq![]
    } else {
        split(args_str, ',').map_values(|a: Seq<char>| trim(a))
    }
}

/// The Rust form of a Canvas call `ctx.method(args)`.
pub open spec fn canvas_line_spec(line: Seq<char>) -> Option<Seq<char>> {
    let l = bare(line);
    if canvas_pattern(l) {
        match find_char(l, '.') {
            Some(d) => {
                let after = l.skip(d + 1);
                match find_char(after, '(') {
                    Some(p) => canvas_call_spec(
                        after.take(p),
                        call_args(trim_end_matches(after.skip(p + 1), ')')),
                        trim(l.take(d)),
                    ),
                    None => None,
                }
            },
            None => None,
        }
    } else {
        None
    }
}

fn call_args_exec(args_str: &[char]) -> (r: Vec<String>)
    ensures
        crate::text::strs(r@) == call_args(args_str@),
{
    let mut r: Vec<String> = Vec::new();
    if args_str.len() == 0 {
        assert(crate::text::strs(r@) =~= call_args(args_str@));
        return r;
    }
    let pieces = split_chars(args_str, ',');
    let ghost ps = views(pieces@);
    let mut i: usize = 0;
    while i < pieces.len()
        invariant
            i <= pieces@.len(),
            ps == views(pieces@),
            ps == split(args_str@, ','),
            crate::text::strs(r@) == ps.take(i as int).map_values(|a: Seq<char>| trim(a)),
        decreases pieces.len() - i,
    {
        let t = trim_chars(&pieces[i]);
        let ghost r0 = r@;
        let ts = crate::text::string_of(&t);
        r.push(ts);
        assert(ps[i as int] == pieces@[i as int]@);
        assert(crate::text::strs(r@) =~= crate::text::strs(r0).push(ts@));
        assert(ps.take(i + 1).map_values(|a: Seq<char>| trim(a)) =~= ps.take(i as int).map_values(
            |a: Seq<char>| trim(a),
        ).push(trim(ps[i as int])));
        i += 1;
    }
    assert(ps.take(pieces@.len() as int) =~= ps);
    r
}

/// The Rust form of a Canvas call statement.
pub(crate) fn translate_canvas_call(line: &[char]) -> (r: Option<Vec<char>>)
    ensures
        match r {
            Some(x) => canvas_line_spec(line@) == Some(x@),
            None => canvas_line_spec(line@) is None,
        },
{
    let l = bare_exec(line);
    let hit = has_lit(&l, ".fillRect(") || has_lit(&l, ".strokeRect(") || has_lit(&l, ".clearRect(")
        || has_lit(&l, ".beginPath(") || has_lit(&l, ".moveTo(") || has_lit(&l, ".lineTo(")
        || has_lit(&l, ".arc(") || has_lit(&l, ".fillText(");
    if !hit {
        return None;
    }
    let ll = l.len();
    match find_char_in(&l, '.') {
        Some(d) => {
            proof {
                lemma_find_first_bounds(l@, eq_pred('.'));
            }
            let ctx = trim_chars(&slice_of(&l, 0, d));
            assert(l@.subrange(0, d as int) =~= l@.take(d as int));
            let after = suffix(&l, d + 1);
            let al = after.len();
            match find_char_in(&after, '(') {
                Some(p) => {
                    proof {
                        lemma_find_first_bounds(after@, eq_pred('('));
                    }
                    let method = slice_of(&after, 0, p);
                    assert(after@.subrange(0, p as int) =~= after@.take(p as int));
                    let args_str = trim_end_matches_chars(&suffix(&after, p + 1), ')');
                    let args = call_args_exec(&args_str);
                    let ms = crate::text::string_of(&method);
                    let cs = crate::text::string_of(&ctx);
                    match compile_canvas_call(ms.as_str(), &args, cs.as_str()) {
                        Some(x) => Some(chars_of(x.as_str())),
                        None => None,
                    }
                },
                None => None,
            }
        },
        None => None,
    }
}

} // verus!
