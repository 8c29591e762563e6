//! The handler-body rewriting run on executable data: it follows the
//! statement patterns of `jsbody` line by line.
use vstd::prelude::*;

use crate::text::{chars_of, strs, views};
use super::jsbody::{
    append_lines, borrow_var_name, collect_until_close, env_view, event_type_spec, if_body_end,
    indent_lines_exec, lemma_collect, lemma_if_body_end, lemma_tr_unfold, mentions, nested_listener,
    note_clone_exec, one, post_listener_exec, pre_listener, pre_listener_exec, resolve_with_locals,
    slice_of_all, st_view, stmt_pieces, tr, tr_line, view_set, with_suffix, is_local_var, BodyState,
    Done, St, clone_decls, shared_decls, apply_renames, tr_listener,
};
use crate::text::{starts_with, trim, find_seq};

verus! {

// ═══════════════════════ executable rewriting ═══════════════════════

fn if_body_end_exec(lines: &[Vec<char>], k: usize, ind: usize) -> (r: usize)
    requires
        k <= lines@.len(),
    ensures
        r as int == if_body_end(views(lines@), k as int, ind as int),
{
    let ghost ls = views(lines@);
    let mut j = k;
    while j < lines.len()
        invariant
            k <= j <= lines@.len(),
            ls == views(lines@),
            if_body_end(ls, k as int, ind as int) == if_body_end(ls, j as int, ind as int),
        decreases lines.len() - j,
    {
        assert(ls[j as int] == lines@[j as int]@);
        if crate::text::trim_chars(&lines[j]).len() == 0 {
            j += 1;
        } else if crate::text::leading_ws_count(&lines[j]) <= ind {
            return j;
        } else {
            j += 1;
        }
    }
    j
}

fn collect_exec(lines: &[Vec<char>], k: usize) -> (r: (Vec<char>, usize))
    requires
        k <= lines@.len(),
    ensures
        (r.0@, r.1 as int) == collect_until_close(views(lines@), k as int, seq![]),
{
    let ghost ls = views(lines@);
    let mut acc: Vec<char> = Vec::new();
    let mut j = k;
    assert(acc@ =~= Seq::<char>::empty());
    while j < lines.len()
        invariant
            k <= j <= lines@.len(),
            ls == views(lines@),
            collect_until_close(ls, k as int, seq![]) == collect_until_close(ls, j as int, acc@),
        decreases lines.len() - j,
    {
        assert(ls[j as int] == lines@[j as int]@);
        let nl = crate::text::trim_chars(&lines[j]);
        if crate::text::eq_lit(&nl, ");") || crate::text::eq_lit(&nl, ")") {
            return (acc, j + 1);
        }
        if acc.len() > 0 {
            crate::text::push_lit(&mut acc, " ");
        }
        crate::text::push_all(&mut acc, &nl);
        j += 1;
    }
    (acc, j)
}

fn stmt_pieces_exec(ps: &[Vec<char>]) -> (r: Vec<Vec<char>>)
    ensures
        views(r@) == stmt_pieces(views(ps@)),
{
    let ghost pv = views(ps@);
    let mut r: Vec<Vec<char>> = Vec::new();
    let mut i: usize = 0;
    assert(pv.take(0) =~= Seq::<Seq<char>>::empty());
    assert(views(r@) =~= Seq::<Seq<char>>::empty());
    while i < ps.len()
        invariant
            i <= ps@.len(),
            pv == views(ps@),
            views(r@) == stmt_pieces(pv.take(i as int)),
        decreases ps.len() - i,
    {
        assert(pv.take(i + 1).drop_last() =~= pv.take(i as int));
        assert(pv.take(i + 1).last() == ps@[i as int]@);
        let t = crate::text::trim_chars(&ps[i]);
        if t.len() > 0 {
            append_lines(&mut r, one(with_suffix(&t, ";")));
        }
        i += 1;
    }
    assert(pv.take(ps@.len() as int) =~= pv);
    r
}

/// Renamings as plain values.
pub open spec fn renames_view(rn: Seq<(Vec<char>, Vec<char>)>) -> Seq<(Seq<char>, Seq<char>)> {
    rn.map_values(|x: (Vec<char>, Vec<char>)| (x.0@, x.1@))
}

fn clone_decls_exec(ics: &[String], locals: &Vec<String>) -> (r: (Vec<Vec<char>>, Vec<(Vec<char>, Vec<char>)>))
    ensures
        (views(r.0@), renames_view(r.1@)) == clone_decls(strs(ics@), view_set(locals@)),
{
    let ghost iv = strs(ics@);
    let mut ls: Vec<Vec<char>> = Vec::new();
    let mut rn: Vec<(Vec<char>, Vec<char>)> = Vec::new();
    let mut i: usize = 0;
    assert(iv.take(0) =~= Seq::<Seq<char>>::empty());
    assert(views(ls@) =~= Seq::<Seq<char>>::empty());
    assert(renames_view(rn@) =~= Seq::<(Seq<char>, Seq<char>)>::empty());
    while i < ics.len()
        invariant
            i <= ics@.len(),
            iv == strs(ics@),
            (views(ls@), renames_view(rn@)) == clone_decls(iv.take(i as int), view_set(locals@)),
        decreases ics.len() - i,
    {
        assert(iv.take(i + 1).drop_last() =~= iv.take(i as int));
        assert(iv.take(i + 1).last() == ics@[i as int]@);
        let ic = chars_of(ics[i].as_str());
        proof {
            reveal_strlit("_clone");
        }
        let base = crate::text::trim_end_matches_lit(&ic, "_clone");
        if !crate::text::eq_lit(&base, "doc") {
            if !is_local_var(locals, &base) {
                let nn = with_suffix(&ic, "_2");
                let mut l = chars_of("let ");
                crate::text::push_all(&mut l, &nn);
                crate::text::push_lit(&mut l, " = ");
                crate::text::push_all(&mut l, &ic);
                crate::text::push_lit(&mut l, ".clone();");
                append_lines(&mut ls, one(l));
                let ghost r0 = renames_view(rn@);
                let pair = (slice_of_all(&ic), nn);
                rn.push(pair);
                assert(renames_view(rn@) =~= r0.push((ic@, pair.1@)));
            } else {
                let mut l = chars_of("let ");
                crate::text::push_all(&mut l, &ic);
                crate::text::push_lit(&mut l, " = ");
                crate::text::push_all(&mut l, &base);
                crate::text::push_lit(&mut l, ".clone();");
                append_lines(&mut ls, one(l));
            }
        }
        i += 1;
    }
    assert(iv.take(ics@.len() as int) =~= iv);
    (ls, rn)
}

fn shared_decls_exec(svs: &[String], locals: &Vec<String>) -> (r: (Vec<Vec<char>>, Vec<(Vec<char>, Vec<char>)>))
    ensures
        (views(r.0@), renames_view(r.1@)) == shared_decls(strs(svs@), view_set(locals@)),
{
    let ghost sv = strs(svs@);
    let mut ls: Vec<Vec<char>> = Vec::new();
    let mut rn: Vec<(Vec<char>, Vec<char>)> = Vec::new();
    let mut i: usize = 0;
    assert(sv.take(0) =~= Seq::<Seq<char>>::empty());
    assert(views(ls@) =~= Seq::<Seq<char>>::empty());
    assert(renames_view(rn@) =~= Seq::<(Seq<char>, Seq<char>)>::empty());
    while i < svs.len()
        invariant
            i <= svs@.len(),
            sv == strs(svs@),
            (views(ls@), renames_view(rn@)) == shared_decls(sv.take(i as int), view_set(locals@)),
        decreases svs.len() - i,
    {
        assert(sv.take(i + 1).drop_last() =~= sv.take(i as int));
        assert(sv.take(i + 1).last() == svs@[i as int]@);
        let s = chars_of(svs[i].as_str());
        if !is_local_var(locals, &s) {
            let old_name = with_suffix(&s, "_clone");
            let nn = with_suffix(&s, "_clone_2");
            let mut l = chars_of("let ");
            crate::text::push_all(&mut l, &nn);
            crate::text::push_lit(&mut l, " = ");
            crate::text::push_all(&mut l, &old_name);
            crate::text::push_lit(&mut l, ".clone();");
            append_lines(&mut ls, one(l));
            let ghost r0 = renames_view(rn@);
            let ghost p0 = (old_name@, nn@);
            rn.push((old_name, nn));
            assert(renames_view(rn@) =~= r0.push(p0));
        } else {
            let mut l = chars_of("let ");
            crate::text::push_all(&mut l, &s);
            crate::text::push_lit(&mut l, "_clone = ");
            crate::text::push_all(&mut l, &s);
            crate::text::push_lit(&mut l, ".clone();");
            append_lines(&mut ls, one(l));
        }
        i += 1;
    }
    assert(sv.take(svs@.len() as int) =~= sv);
    (ls, rn)
}

fn apply_renames_exec(s: &[char], rn: &[(Vec<char>, Vec<char>)]) -> (r: Vec<char>)
    ensures
        r@ == apply_renames(s@, renames_view(rn@)),
{
    let ghost rv = renames_view(rn@);
    let mut cur = slice_of_all(s);
    let mut i: usize = 0;
    assert(rv.take(0) =~= Seq::<(Seq<char>, Seq<char>)>::empty());
    while i < rn.len()
        invariant
            i <= rn@.len(),
            rv == renames_view(rn@),
            cur@ == apply_renames(s@, rv.take(i as int)),
        decreases rn.len() - i,
    {
        assert(rv.take(i + 1).drop_last() =~= rv.take(i as int));
        assert(rv.take(i + 1).last() == (rn@[i as int].0@, rn@[i as int].1@));
        if rn[i].0.len() > 0 {
            cur = crate::text::replace_chars(&cur, &rn[i].0, &rn[i].1);
        }
        i += 1;
    }
    assert(rv.take(rn@.len() as int) =~= rv);
    cur
}

fn copy_strings(v: &Vec<String>) -> (r: Vec<String>)
    ensures
        strs(r@) == strs(v@),
{
    let mut r: Vec<String> = Vec::new();
    let mut i: usize = 0;
    while i < v.len()
        invariant
            i <= v@.len(),
            strs(r@) == strs(v@).take(i as int),
        decreases v.len() - i,
    {
        let ghost r0 = strs(r@);
        let s = crate::text::owned(v[i].as_str());
        r.push(s);
        assert(strs(r@) =~= r0.push(s@));
        assert(strs(v@).take(i + 1) =~= strs(v@).take(i as int).push(v@[i as int]@));
        i += 1;
    }
    assert(strs(v@).take(v@.len() as int) =~= strs(v@));
    r
}

#[verifier::rlimit(40)]
fn nested_exec(
    Ghost(fuel): Ghost<nat>,
    text: &[char],
    lookup: &super::html::StrMap,
    names: &[String],
    rules: &[super::css::CssRule],
    st: &BodyState,
    un: &[char],
    et: &[char],
) -> (r: Vec<Vec<char>>)
    requires
        nested_listener(fuel, text@, env_view(*lookup, names@, rules@), st_view(*st), un@, et@) is Some,
    ensures
        nested_listener(fuel, text@, env_view(*lookup, names@, rules@), st_view(*st), un@, et@)
            == Some((views(r@), st_view(*st))),
    decreases fuel, 0nat, 0int,
{
    let pieces = stmt_pieces_exec(&crate::text::split_chars(text, ';'));
    let mut inner = BodyState {
        cloned: Vec::new(),
        shared: Vec::new(),
        locals: copy_strings(&st.locals),
        scope: Vec::new(),
    };
    proof {
        assert(strs(inner.cloned@) =~= Seq::<Seq<char>>::empty());
        assert(strs(inner.shared@) =~= Seq::<Seq<char>>::empty());
        assert(view_set(inner.locals@) =~= view_set(st.locals@));
        assert(view_set(inner.scope@) =~= Set::<Seq<char>>::empty());
    }
    let ghost ist0 = st_view(inner);
    assert(ist0 == (Seq::<Seq<char>>::empty(), Seq::<Seq<char>>::empty(), st_view(*st).2, Set::<Seq<char>>::empty()));
    let io = translate_event_body_inner(Ghost((fuel - 1) as nat), &pieces, lookup, names, rules, &mut inner);
    let (cd, r1) = clone_decls_exec(&inner.cloned, &st.locals);
    let (sd, r2) = shared_decls_exec(&inner.shared, &st.locals);
    let mut rn = r1;
    let mut r2m = r2;
    let ghost rv1 = renames_view(rn@);
    let ghost rv2 = renames_view(r2m@);
    rn.append(&mut r2m);
    assert(renames_view(rn@) =~= rv1 + rv2);
    let joined = crate::text::join_chars(&io, "\n");
    let body = apply_renames_exec(&joined, &rn);
    let mut out = cd;
    append_lines(&mut out, sd);
    let mut l = slice_of_all(un);
    crate::text::push_lit(&mut l, ".borrow_mut().add_event_listener(\"");
    crate::text::push_all(&mut l, et);
    crate::text::push_lit(&mut l, "\", Box::new(move |_: &dom::Event| {");
    append_lines(&mut out, one(l));
    append_lines(&mut out, indent_lines_exec(&body));
    append_lines(&mut out, one(chars_of("}));")));
    out
}

/// One `if` statement at line `idx`: its condition and its indented body.
fn step_if(
    Ghost(fuel): Ghost<nat>,
    lines: &[Vec<char>],
    idx: usize,
    line: &[char],
    lookup: &super::html::StrMap,
    names: &[String],
    rules: &[super::css::CssRule],
    st: &mut BodyState,
    out: &mut Vec<Vec<char>>,
) -> (r: usize)
    requires
        idx < lines@.len(),
        line@ == trim(lines@[idx as int]@),
        starts_with(line@, "if ("@) || starts_with(line@, "if("@),
        line@.len() != 0 && line@ != "{"@ && line@ != "}"@,
        !(mentions(line@, "function"@) && !mentions(line@, ".addEventListener("@)),
        tr_line(fuel, views(lines@), idx as int, env_view(*lookup, names@, rules@), st_view(*old(st)), views(old(out)@)) is Some,
    ensures
        idx < r <= lines@.len(),
        tr_line(fuel, views(lines@), idx as int, env_view(*lookup, names@, rules@), st_view(*old(st)), views(old(out)@))
            == tr(fuel, views(lines@), r as int, env_view(*lookup, names@, rules@), st_view(*final(st)), views(final(out)@)),
    decreases fuel, 0nat, 1int,
{
    let ghost ls = views(lines@);
    assert(ls[idx as int] == lines@[idx as int]@);
    let n = lines.len();
    let next = idx + 1;
    let ll = line.len();
    proof {
        reveal_strlit("if (");
        reveal_strlit("if(");
        if starts_with(line@, "if ("@) {
            assert(line@[3] == "if ("@[3]);
            crate::text::lemma_find_char_some(line@, '(', 3);
        } else {
            assert(line@[2] == "if("@[2]);
            crate::text::lemma_find_char_some(line@, '(', 2);
        }
    }
    proof {
        crate::text::lemma_rfind_char_bounds(line@, ')');
        crate::text::lemma_find_first_bounds(line@, crate::text::eq_pred('('));
    }
    let cs = crate::text::find_char_in(line, '(').unwrap() + 1;
    let ce = match crate::text::rfind_char_in(line, ')') {
        Some(p) => p,
        None => line.len(),
    };
    let ind = crate::text::leading_ws_count(&lines[idx]);
    let be = if_body_end_exec(lines, next, ind);
    proof {
        lemma_if_body_end(ls, next as int, ind as int);
        assert(trim(ls[idx as int]) == line@);
        assert(!(cs > ce || fuel == 0));
        assert(tr((fuel - 1) as nat, ls.subrange(next as int, be as int), 0, env_view(*lookup, names@, rules@), st_view(*st), seq![]) is Some);
    }
    let rc = super::jsexpr::translate_if_condition(&crate::text::slice_of(line, cs, ce));
    let inner_lines = super::jsexpr::slice_vecs(&crate::text::text_vecs_take(lines, be), next);
    assert(views(inner_lines@) =~= ls.subrange(next as int, be as int));
    let io = translate_event_body_inner(Ghost((fuel - 1) as nat), &inner_lines, lookup, names, rules, st);
    let mut head = chars_of("if ");
    crate::text::push_all(&mut head, &rc);
    crate::text::push_lit(&mut head, " {");
    let ghost head_v = head@;
    let mut block = one(head);
    let joined = crate::text::join_chars(&io, "\n");
    append_lines(&mut block, indent_lines_exec(&joined));
    append_lines(&mut block, one(chars_of("}")));
    let ghost o0 = views(out@);
    let ghost bv = views(block@);
    assert(bv =~= seq![head_v] + super::jsbody::indent_lines(joined@) + seq!["}"@]);
    append_lines(out, block);
    assert(views(out@) =~= o0 + seq![head_v] + super::jsbody::indent_lines(joined@) + seq!["}"@]);
    be
}

/// A nested `addEventListener` at line `idx`, with its body on the same
/// line or on the lines that follow.
#[verifier::rlimit(60)]
fn step_listener(
    Ghost(fuel): Ghost<nat>,
    lines: &[Vec<char>],
    idx: usize,
    line: &[char],
    lookup: &super::html::StrMap,
    names: &[String],
    rules: &[super::css::CssRule],
    st: &mut BodyState,
    out: &mut Vec<Vec<char>>,
) -> (r: usize)
    requires
        idx < lines@.len(),
        line@ == trim(lines@[idx as int]@),
        mentions(line@, ".addEventListener("@),
        !(line@.len() == 0 || line@ == "{"@ || line@ == "}"@),
        !(mentions(line@, "function"@) && !mentions(line@, ".addEventListener("@)),
        !(starts_with(line@, "if ("@) || starts_with(line@, "if("@)),
        pre_listener(line@, env_view(*lookup, names@, rules@), st_view(*old(st))) == Some(None::<Done>),
        tr_line(fuel, views(lines@), idx as int, env_view(*lookup, names@, rules@), st_view(*old(st)), views(old(out)@)) is Some,
    ensures
        idx < r <= lines@.len(),
        tr_line(fuel, views(lines@), idx as int, env_view(*lookup, names@, rules@), st_view(*old(st)), views(old(out)@))
            == tr(fuel, views(lines@), r as int, env_view(*lookup, names@, rules@), st_view(*final(st)), views(final(out)@)),
    decreases fuel, 0nat, 1int,
{
    let ghost ls = views(lines@);
    let ghost env = env_view(*lookup, names@, rules@);
    let n = lines.len();
    let next = idx + 1;
    let ll = line.len();
    let pos = crate::text::find_lit(line, ".addEventListener(").unwrap();
    proof {
        crate::text::lemma_find_seq(line@, ".addEventListener("@);
    }
    let after = crate::text::suffix(line, pos + ".addEventListener(".unicode_len());
    let al = after.len();
    let et: Vec<char> = if after.len() > 0 && (after[0] == '\'' || after[0] == '"') {
        let q = after[0];
        let rest = crate::text::suffix(&after, 1);
        let end = crate::text::find_char_in(&rest, q).unwrap();
        proof {
            crate::text::lemma_find_first_bounds(rest@, crate::text::eq_pred(q));
        }
        crate::text::slice_of(&after, 1, end + 1)
    } else {
        Vec::new()
    };
    assert(event_type_spec(after@) == Some(et@)) by {
        if !(after@.len() > 0 && (after@[0] == '\'' || after@[0] == '"')) {
            assert(et@ =~= Seq::<char>::empty());
        }
    }
    let fs = match crate::text::find_lit(&after, "function") {
        None => {
            let ls2 = post_listener_exec(line, lookup, names, rules, st);
            let ghost o0 = views(out@);
            append_lines(out, ls2);
            return next;
        },
        Some(f) => f,
    };
    proof {
        crate::text::lemma_find_seq(after@, "function"@);
    }
    let after_fn = crate::text::suffix(&after, fs + "function".unicode_len());
    let afl = after_fn.len();
    proof {
        crate::text::lemma_find_first_bounds(after_fn@, crate::text::eq_pred(')'));
    }
    let bs = match crate::text::find_char_in(&after_fn, ')') {
        Some(p) => p + 1,
        None => 1,
    };
    let ib0 = crate::text::trim_chars(
        &crate::text::trim_end_matches_chars(
            &crate::text::trim_end_matches_chars(
                &crate::text::trim_chars(&crate::text::suffix(&after_fn, bs)),
                ';',
            ),
            ')',
        ),
    );
    let ib = crate::text::trim_chars(&crate::text::trim_end_matches_chars(&ib0, ')'));
    let target_text = crate::text::trim_chars(&crate::text::slice_of(line, 0, pos));
    assert(line@.subrange(0, pos as int) =~= line@.take(pos as int));
    let vn = resolve_with_locals(&target_text, lookup, &st.locals);
    let un = borrow_var_name(&vn, &st.scope);
    note_clone_exec(st, &vn);
    if ib.len() == 0 {
        let (col, j) = collect_exec(lines, next);
        proof {
            lemma_collect(ls, next as int, seq![]);
        }
        let c2 = crate::text::trim_end_matches_chars(&crate::text::trim_chars(&col), ';');
        if col.len() > 0 && c2.len() > 0 {
            let ls2 = nested_exec(Ghost(fuel), &c2, lookup, names, rules, st, &un, &et);
            append_lines(out, ls2);
        } else {
            let ls2 = post_listener_exec(line, lookup, names, rules, st);
            append_lines(out, ls2);
        }
        j
    } else {
        let ls2 = nested_exec(Ghost(fuel), &ib, lookup, names, rules, st, &un, &et);
        append_lines(out, ls2);
        next
    }
}

/// The Rust lines of a handler body, given the state before it; the state
/// records what the closure captures.
pub(crate) fn translate_event_body_inner(
    Ghost(fuel): Ghost<nat>,
    lines: &[Vec<char>],
    lookup: &super::html::StrMap,
    names: &[String],
    rules: &[super::css::CssRule],
    st: &mut BodyState,
) -> (r: Vec<Vec<char>>)
    requires
        tr(fuel, views(lines@), 0, env_view(*lookup, names@, rules@), st_view(*old(st)), seq![]) is Some,
    ensures
        tr(fuel, views(lines@), 0, env_view(*lookup, names@, rules@), st_view(*old(st)), seq![])
            == Some((views(r@), st_view(*final(st)))),
    decreases fuel, 1nat, lines@.len(),
{
    let ghost ls = views(lines@);
    let ghost env = env_view(*lookup, names@, rules@);
    let ghost target = tr(fuel, ls, 0, env, st_view(*st), seq![]);
    let mut out: Vec<Vec<char>> = Vec::new();
    assert(views(out@) =~= Seq::<Seq<char>>::empty());
    let mut idx: usize = 0;
    let n = lines.len();
    while idx < n
        invariant
            idx <= n == lines@.len(),
            ls == views(lines@),
            env == env_view(*lookup, names@, rules@),
            target is Some,
            target == tr(fuel, ls, idx as int, env, st_view(*st), views(out@)),
        decreases n - idx,
    {
        assert(ls[idx as int] == lines@[idx as int]@);
        proof {
            lemma_tr_unfold(fuel, ls, idx as int, env, st_view(*st), views(out@));
        }
        let line = crate::text::trim_chars(&lines[idx]);
        let next = idx + 1;
        if line.len() == 0 || crate::text::eq_lit(&line, "{") || crate::text::eq_lit(&line, "}") {
            idx = next;
        } else if crate::text::has_lit(&line, "function") && !crate::text::has_lit(&line, ".addEventListener(") {
            idx = next;
        } else if crate::text::starts_with_lit(&line, "if (") || crate::text::starts_with_lit(&line, "if(") {
            idx = step_if(Ghost(fuel), lines, idx, &line, lookup, names, rules, st, &mut out);
        } else {
            let ghost st0 = st_view(*st);
            match pre_listener_exec(&line, lookup, names, rules, st) {
                Some(ls2) => {
                    append_lines(&mut out, ls2);
                    idx = next;
                },
                None => {
                    if !crate::text::has_lit(&line, ".addEventListener(") {
                        let ls2 = post_listener_exec(&line, lookup, names, rules, st);
                        append_lines(&mut out, ls2);
                        idx = next;
                    } else {
                        idx = step_listener(Ghost(fuel), lines, idx, &line, lookup, names, rules, st, &mut out);
                    }
                },
            }
        }
    }
    proof {
        lemma_tr_unfold(fuel, ls, idx as int, env, st_view(*st), views(out@));
    }
    out
}

} // verus!
