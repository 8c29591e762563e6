//! Handler bodies rewritten as Rust: each script statement of a handler
//! becomes Rust statements on the page's element variables, nested
//! handlers become closures, and the variables that the closures capture
//! are recorded.
use vstd::prelude::*;

use crate::text::{
    chars_of, count_char, ends_with, find_char, find_seq, join, leading_ws, lines_of,
    parse_i32_spec, replace_all, rfind_char, rfind_seq, split, starts_with, strip_prefix, trim,
    trim_end_matches, trim_end_matches_seq, trim_matches, views, strs,
};
use super::js::resolve_element_spec;
use super::jsexpr::{
    canvas_line_spec, expr_spec, if_condition_spec, increment_spec, instanceof_spec,
    microtask_spec, quoted, var_decl_ok, var_decl_spec,
};
use super::jsfuncs::assign_target;
use super::jsstyle::{element_style_spec, match_condition_spec, overrides_spec, OverrideV, RuleV};

verus! {

// ═══════════════════════ vocabulary ═══════════════════════

/// What the rewriting of a handler body keeps track of: the variables to clone
/// before the closure, the shared counters it uses, the variables declared
/// so far, and those declared in the current closure.
pub type St = (Seq<Seq<char>>, Seq<Seq<char>>, Set<Seq<char>>, Set<Seq<char>>);

/// What it reads: the element lookup table, the shared counters' names,
/// and the style rules.
pub type EnvV = (Map<Seq<char>, Seq<char>>, Seq<Seq<char>>, Seq<RuleV>);

/// `v` with `x` added at the end, unless it is already there.
pub open spec fn push_unique(v: Seq<Seq<char>>, x: Seq<char>) -> Seq<Seq<char>> {
    if v.contains(x) {
        v
    } else {
        v.push(x)
    }
}

/// Whether `s` holds `p`.
pub open spec fn mentions(s: Seq<char>, p: Seq<char>) -> bool {
    find_seq(s, p) is Some
}

/// The variable a name stands for: a variable declared in the body, or an
/// element that the lookup table names, or the name itself.
pub open spec fn rwl(name: Seq<char>, m: Map<Seq<char>, Seq<char>>, locals: Set<Seq<char>>) -> Seq<char> {
    if locals.contains(name) {
        name
    } else {
        match resolve_element_spec(name, m) {
            Some(v) => v,
            None => name,
        }
    }
}

/// The name under which a closure uses a variable: its own when declared
/// in the closure, its `_clone` otherwise.
pub open spec fn bvn(v: Seq<char>, scope: Set<Seq<char>>) -> Seq<char> {
    if scope.contains(v) {
        v
    } else {
        v + "_clone"@
    }
}

/// The clone list after the closure uses `v`.
pub open spec fn note_clone(cloned: Seq<Seq<char>>, v: Seq<char>, scope: Set<Seq<char>>) -> Seq<
    Seq<char>,
> {
    if !scope.contains(v) {
        push_unique(cloned, v + "_clone"@)
    } else {
        cloned
    }
}

/// A style text escaped for a Rust string literal.
pub open spec fn escape(s: Seq<char>) -> Seq<char> {
    replace_all(replace_all(s, "\\"@, "\\\\"@), "\""@, "\\\""@)
}

/// The lines of `text`, each indented by four spaces.
pub open spec fn indent_lines(text: Seq<char>) -> Seq<Seq<char>> {
    lines_of(text).map_values(|l: Seq<char>| "    "@ + l)
}

/// The statements for `v.borrow_mut().set_style("..")` when `style` is
/// given.
pub open spec fn style_line(v: Seq<char>, style: Option<Seq<char>>) -> Seq<Seq<char>> {
    match style {
        Some(s) => seq![v + ".borrow_mut().set_style(\""@ + escape(s) + "\");"@],
        None => seq![],
    }
}

/// A statement handled: its Rust lines and the state after it.
pub type Done = (Seq<Seq<char>>, St);

// ═══════════════════════ statement patterns ═══════════════════════

/// `const x = document.createElement('tag');`
pub open spec fn pat_create(line: Seq<char>, env: EnvV, st: St) -> Option<Done> {
    if (starts_with(line, "const "@) || starts_with(line, "let "@)) && mentions(
        line,
        "document.createElement("@,
    ) && find_char(line, '=') is Some {
        let eq = find_char(line, '=').unwrap();
        match assign_target(trim(line.take(eq))) {
            None => None,
            Some(vn) => {
                let after_eq = trim(trim_end_matches(trim(line.skip(eq + 1)), ';'));
                match strip_prefix(after_eq, "document.createElement("@) {
                    None => None,
                    Some(s) => {
                        let tag = trim_matches(trim(trim_end_matches(s, ')')), '\'');
                        Some(
                            (
                                seq![
                                    "let "@ + vn + " = doc_clone.borrow().create_element(\""@ + tag
                                        + "\");"@,
                                ] + style_line(vn, element_style_spec(tag, None, env.2)),
                                (push_unique(st.0, "doc_clone"@), st.1, st.2.insert(vn), st.3.insert(vn)),
                            ),
                        )
                    },
                }
            },
        }
    } else {
        None
    }
}

/// `el.className = 'name';`
pub open spec fn pat_class_name(line: Seq<char>, env: EnvV, st: St) -> Option<Done> {
    if mentions(line, ".className"@) && find_char(line, '=') is Some {
        let pos = find_seq(line, ".className"@).unwrap();
        let after = pos + ".className"@.len();
        match find_char(line.skip(after), '=') {
            None => None,
            Some(p) => {
                let rhs = trim_matches(
                    trim_matches(trim(trim_end_matches(line.skip(after + p + 1), ';')), '\''),
                    '"',
                );
                let vn = rwl(trim(line.take(pos)), env.0, st.2);
                Some(
                    (
                        seq![vn + ".borrow_mut().set_attribute(\"class\", \""@ + rhs + "\");"@]
                            + style_line(vn, element_style_spec("*"@, Some(rhs), env.2)),
                        st,
                    ),
                )
            },
        }
    } else {
        None
    }
}

/// The Rust form of a right-hand side that reads an input's value
/// (`x.value`, `x.value.trim()`), or of another expression; `None` when the
/// expression cannot be rewritten.
pub open spec fn rhs_expr_spec(expr: Seq<char>, env: EnvV, st: St) -> Option<(Seq<char>, St)> {
    let e = trim(expr);
    if mentions(e, ".value"@) {
        let dot = rfind_seq(e, ".value"@).unwrap();
        let vn = rwl(e.take(dot), env.0, st.2);
        let un = bvn(vn, st.3);
        let cl = if !st.3.contains(vn) && !st.0.contains(vn) {
            st.0.push(vn + "_clone"@)
        } else {
            st.0
        };
        let text = if starts_with(e.skip(dot + ".value"@.len()), ".trim()"@) {
            un + ".borrow().text_content().trim().to_string()"@
        } else {
            un + ".borrow().text_content()"@
        };
        Some((text, (cl, st.1, st.2, st.3)))
    } else if super::jsexpr::expr_ok(e) {
        Some((expr_spec(e), st))
    } else {
        None
    }
}

/// `const x = input.value.trim();` and like reads of a value.
pub open spec fn pat_value_get(line: Seq<char>, env: EnvV, st: St) -> Option<Option<Done>> {
    if mentions(line, ".value"@) && !mentions(line, ".value ="@) && !mentions(line, ".value="@) && (starts_with(
        line,
        "const "@,
    ) || starts_with(line, "let "@)) && find_char(line, '=') is Some {
        let eq = find_char(line, '=').unwrap();
        match assign_target(trim(line.take(eq))) {
            None => Some(None),
            Some(vn) => match rhs_expr_spec(trim(trim_end_matches(trim(line.skip(eq + 1)), ';')), env, st) {
                None => None,
                Some((t, st2)) => Some(Some((seq!["let "@ + vn + " = "@ + t + ";"@], st2))),
            },
        }
    } else {
        Some(None)
    }
}

/// `input.value = expr;`
pub open spec fn pat_value_set(line: Seq<char>, env: EnvV, st: St) -> Option<Option<Done>> {
    if (mentions(line, ".value ="@) || mentions(line, ".value="@)) && ends_with(line, ";"@) {
        let op = if mentions(line, ".value ="@) {
            ".value ="@
        } else {
            ".value="@
        };
        let pos = find_seq(line, op).unwrap();
        let rhs = trim(trim_end_matches(line.skip(pos + op.len()), ';'));
        let vn = rwl(trim(line.take(pos)), env.0, st.2);
        let un = bvn(vn, st.3);
        let st2 = (note_clone(st.0, vn, st.3), st.1, st.2, st.3);
        if rhs == "''"@ || rhs == "\"\""@ {
            Some(Some((seq![un + ".borrow_mut().set_text_content(\"\");"@], st2)))
        } else if super::jsexpr::expr_ok(rhs) {
            Some(
                Some(
                    (
                        seq![un + ".borrow_mut().set_text_content(&("@ + expr_spec(rhs) + ").to_string());"@],
                        st2,
                    ),
                ),
            )
        } else {
            None
        }
    } else {
        Some(None)
    }
}

/// The first shared counter, from the `k`-th on, that a right-hand side
/// mentions.
pub open spec fn shared_match(names: Seq<Seq<char>>, rhs: Seq<char>, k: int) -> Option<Seq<char>>
    decreases names.len() - k,
{
    if k < 0 || k >= names.len() {
        None
    } else {
        let sv = names[k];
        if rhs == sv || mentions(rhs, sv + " "@) || starts_with(rhs, sv) {
            Some(sv)
        } else {
            shared_match(names, rhs, k + 1)
        }
    }
}

/// The format text for `a + b + ..`: the counter `sv` as `{}`, literals
/// without their quotes.
pub open spec fn fmt_lit(parts: Seq<Seq<char>>, sv: Seq<char>) -> Seq<char>
    decreases parts.len(),
{
    if parts.len() == 0 {
        seq![]
    } else {
        let clean = trim_matches(trim_matches(trim(parts.last()), '\''), '"');
        fmt_lit(parts.drop_last(), sv) + if clean == sv {
            "{}"@
        } else {
            clean
        }
    }
}

/// `el.textContent = expr;`
pub open spec fn pat_text(line: Seq<char>, env: EnvV, st: St) -> Option<Option<Done>> {
    if mentions(line, ".textContent"@) {
        let pos = find_seq(line, ".textContent"@).unwrap();
        let after = pos + ".textContent"@.len();
        match find_char(line.skip(after), '=') {
            None => Some(None),
            Some(p) => {
                let rhs = trim(trim_end_matches(line.skip(after + p + 1), ';'));
                let vn = rwl(trim(line.take(pos)), env.0, st.2);
                let un = bvn(vn, st.3);
                let cl = note_clone(st.0, vn, st.3);
                match shared_match(env.1, rhs, 0) {
                    Some(sv) => {
                        let l = if find_char(rhs, '+') is Some {
                            un + ".borrow_mut().set_text_content(&format!(\""@ + fmt_lit(
                                split(rhs, '+').map_values(|x: Seq<char>| trim(x)),
                                sv,
                            ) + "\", "@ + sv + "_clone.borrow()));"@
                        } else {
                            un + ".borrow_mut().set_text_content(&"@ + sv + "_clone.borrow().to_string());"@
                        };
                        Some(Some((seq![l], (cl, push_unique(st.1, sv), st.2, st.3))))
                    },
                    None => if quoted(rhs) {
                        if rhs.len() < 2 {
                            None
                        } else {
                            Some(
                                Some(
                                    (
                                        seq![un + ".borrow_mut().set_text_content(\""@ + rhs.subrange(1, rhs.len() - 1) + "\");"@],
                                        (cl, st.1, st.2, st.3),
                                    ),
                                ),
                            )
                        }
                    } else if parse_i32_spec(rhs) is Some {
                        Some(
                            Some(
                                (
                                    seq![un + ".borrow_mut().set_text_content(\""@ + rhs + "\");"@],
                                    (cl, st.1, st.2, st.3),
                                ),
                            ),
                        )
                    } else {
                        Some(
                            Some(
                                (
                                    seq![un + ".borrow_mut().set_text_content(&("@ + expr_spec(rhs) + ").to_string());"@],
                                    (cl, st.1, st.2, st.3),
                                ),
                            ),
                        )
                    },
                }
            },
        }
    } else {
        Some(None)
    }
}

/// A style property set on the child: `child_ref.set_style_property(..)`.
pub open spec fn prop_line(d: (Seq<char>, Seq<char>)) -> Seq<char> {
    "                child_ref.set_style_property(\""@ + d.0 + "\", \""@ + d.1 + "\");"@
}

/// The declarations of `ds` whose property is set in `last`.
pub open spec fn overridden(ds: Seq<(Seq<char>, Seq<char>)>, last: Seq<(Seq<char>, Seq<char>)>) -> Seq<
    (Seq<char>, Seq<char>),
>
    decreases ds.len(),
{
    if ds.len() == 0 {
        seq![]
    } else {
        let prev = overridden(ds.drop_last(), last);
        if exists|k: int| 0 <= k < last.len() && (#[trigger] last[k]).0 == ds.last().0 {
            prev.push(ds.last())
        } else {
            prev
        }
    }
}

/// The refresh code for one `:last-child` override.
pub open spec fn override_lines(o: OverrideV) -> Seq<Seq<char>> {
    let cond = match_condition_spec(o.0);
    let base_over = overridden(o.2, o.1);
    (if cond.len() > 0 {
        seq!["        if "@ + cond + " {"@]
    } else {
        seq![]
    }) + (if o.1.len() > 0 && base_over.len() > 0 {
        seq!["            if i == len - 1 {"@] + o.1.map_values(|d: (Seq<char>, Seq<char>)| prop_line(d))
            + seq!["            } else {"@] + base_over.map_values(
            |d: (Seq<char>, Seq<char>)| prop_line(d),
        ) + seq!["            }"@]
    } else {
        seq![]
    }) + (if cond.len() > 0 {
        seq!["        }"@]
    } else {
        seq![]
    })
}

/// The refresh code for all the overrides, in order.
pub open spec fn overrides_lines(os: Seq<OverrideV>) -> Seq<Seq<char>>
    decreases os.len(),
{
    if os.len() == 0 {
        seq![]
    } else {
        overrides_lines(os.drop_last()) + override_lines(os.last())
    }
}

/// The code that re-applies `:last-child` styles to the children of the
/// parent `un` after a child was added.
pub open spec fn last_child_block(un: Seq<char>, os: Seq<OverrideV>) -> Seq<Seq<char>> {
    seq![
        "{"@,
        "    let parent_ref = "@ + un + ".borrow();"@,
        "    let children = parent_ref.child_nodes();"@,
        "    let len = children.len();"@,
        "    drop(parent_ref);"@,
        "    for (i, child_rc) in children.iter().enumerate() {"@,
        "        let mut child_ref = child_rc.borrow_mut();"@,
        "        let class = child_ref.get_attribute(\"class\").unwrap_or_default();"@,
    ] + overrides_lines(os) + seq!["    }"@, "}"@]
}

/// `parent.appendChild(child);` or `parent.removeChild(child);` (`op` is
/// the method with its `(`).
pub open spec fn pat_child(line: Seq<char>, env: EnvV, st: St, op: Seq<char>) -> Option<Done> {
    if mentions(line, op) {
        let pos = find_seq(line, op).unwrap();
        let child = trim(trim_end_matches(trim_end_matches(trim(line.skip(pos + op.len())), ';'), ')'));
        let vn = rwl(trim(line.take(pos)), env.0, st.2);
        let un = bvn(vn, st.3);
        let cl1 = note_clone(st.0, vn, st.3);
        let cv = rwl(child, env.0, st.2);
        let cu = bvn(cv, st.3);
        let cl2 = note_clone(cl1, cv, st.3);
        let st2 = (cl2, st.1, st.2, st.3);
        if op == ".appendChild("@ {
            let os = overrides_spec(env.2, env.2);
            Some(
                (
                    seq![un + ".borrow_mut().append_child("@ + cu + ".clone());"@] + if os.len() == 0 {
                        seq![]
                    } else {
                        last_child_block(un, os)
                    },
                    st2,
                ),
            )
        } else {
            Some((seq![un + ".borrow_mut().remove_child_by_ptr(&"@ + cu + ");"@], st2))
        }
    } else {
        None
    }
}

/// `return expr;`
pub open spec fn pat_return(line: Seq<char>, env: EnvV, st: St) -> Option<Done> {
    match strip_prefix(line, "return "@) {
        Some(rest) => Some(
            (seq!["return "@ + rwl(trim(trim_end_matches(rest, ';')), env.0, st.2) + ";"@], st),
        ),
        None => None,
    }
}

/// `count = count + 1;`, `count = count - 1;` or `count = 5;` on the
/// shared counters from the `k`-th on.
pub open spec fn pat_shared(line: Seq<char>, names: Seq<Seq<char>>, k: int, st: St) -> Option<Done>
    decreases names.len() - k,
{
    if k < 0 || k >= names.len() {
        None
    } else {
        let sv = names[k];
        let cleaned = trim_end_matches(replace_all(line, " "@, seq![]), ';');
        let st2 = (st.0, push_unique(st.1, sv), st.2, st.3);
        if cleaned == sv + "="@ + sv + "+1"@ {
            Some((seq!["*"@ + sv + "_clone.borrow_mut() += 1;"@], st2))
        } else if cleaned == sv + "="@ + sv + "-1"@ {
            Some((seq!["*"@ + sv + "_clone.borrow_mut() -= 1;"@], st2))
        } else if starts_with(cleaned, sv + "="@) && !mentions(cleaned, "++"@) && !mentions(cleaned, "--"@)
            && parse_i32_spec(cleaned.skip(sv.len() as int + 1)) is Some {
            Some(
                (
                    seq!["*"@ + sv + "_clone.borrow_mut() = "@ + cleaned.skip(sv.len() as int + 1) + ";"@],
                    st2,
                ),
            )
        } else {
            pat_shared(line, names, k + 1, st)
        }
    }
}

/// `let x = y;`: a copy of a variable.
pub open spec fn pat_let(line: Seq<char>, env: EnvV, st: St) -> Done {
    let eq = find_char(line, '=').unwrap();
    match assign_target(trim(line.take(eq))) {
        None => (seq![], st),
        Some(vn) => {
            let locals = st.2.insert(vn);
            let rhs = trim(trim_end_matches(trim(line.skip(eq + 1)), ';'));
            (
                seq!["let "@ + vn + " = "@ + rwl(rhs, env.0, locals) + ".clone();"@],
                (st.0, st.1, locals, st.3.insert(vn)),
            )
        },
    }
}

/// The statements before nested handlers: `None` when the statement
/// cannot be rewritten, `Some(None)` when none of them applies.
pub open spec fn pre_listener(line: Seq<char>, env: EnvV, st: St) -> Option<Option<Done>> {
    match pat_create(line, env, st) {
        Some(d) => Some(Some(d)),
        None => match pat_class_name(line, env, st) {
            Some(d) => Some(Some(d)),
            None => match pat_value_get(line, env, st) {
                None => None,
                Some(Some(d)) => Some(Some(d)),
                Some(None) => match pat_value_set(line, env, st) {
                    None => None,
                    Some(Some(d)) => Some(Some(d)),
                    Some(None) => match pat_text(line, env, st) {
                        None => None,
                        Some(Some(d)) => Some(Some(d)),
                        Some(None) => match pat_child(line, env, st, ".appendChild("@) {
                            Some(d) => Some(Some(d)),
                            None => match pat_child(line, env, st, ".removeChild("@) {
                                Some(d) => Some(Some(d)),
                                None => match pat_return(line, env, st) {
                                    Some(d) => Some(Some(d)),
                                    None => match pat_shared(line, env.1, 0, st) {
                                        Some(d) => Some(Some(d)),
                                        None => if starts_with(line, "var "@) {
                                            if var_decl_ok(line) {
                                                Some(
                                                    Some(
                                                        (
                                                            match var_decl_spec(line) {
                                                                Some(r) => seq![r],
                                                                None => seq![],
                                                            },
                                                            st,
                                                        ),
                                                    ),
                                                )
                                            } else {
                                                None
                                            }
                                        } else if (starts_with(line, "let "@) || starts_with(
                                            line,
                                            "const "@,
                                        )) && find_char(line, '=') is Some {
                                            Some(Some(pat_let(line, env, st)))
                                        } else {
                                            Some(None)
                                        },
                                    },
                                },
                            },
                        },
                    },
                },
            },
        },
    }
}

/// The Rust lines for `el.classList.toggle('c')`.
pub open spec fn toggle_lines(vn: Seq<char>, un: Seq<char>, cv: Seq<char>) -> Seq<Seq<char>> {
    seq![
        "let mut "@ + vn + "_ref = "@ + un + ".borrow_mut();"@,
        "let current = "@ + vn + "_ref.get_attribute(\"class\").unwrap_or_default();"@,
        "if current.contains(\""@ + cv + "\") {"@,
        "    "@ + vn + "_ref.set_attribute(\"class\", &current.replace(\" "@ + cv
            + "\", \"\").replace(\""@ + cv + "\", \"\"));"@,
        "    "@ + vn + "_ref.set_style(\"text-decoration: none; color: #333\");"@,
        "} else {"@,
        "    "@ + vn + "_ref.set_attribute(\"class\", &format!(\"{} "@ + cv
            + "\", current.trim()));"@,
        "    "@ + vn + "_ref.set_style(\"text-decoration: line-through; color: #999\");"@,
        "}"@,
    ]
}

/// The statements after nested handlers: class toggles, `++`/`--`,
/// Canvas calls, `instanceof`, `queueMicrotask`, and anything else kept
/// as a comment.
pub open spec fn post_listener(line: Seq<char>, env: EnvV, st: St) -> Done {
    if mentions(line, ".classList.toggle("@) {
        let pos = find_seq(line, ".classList.toggle("@).unwrap();
        let cv = trim_matches(
            trim_matches(
                trim(trim_end_matches(trim_end_matches(trim(line.skip(pos + ".classList.toggle("@.len())), ';'), ')')),
                '\'',
            ),
            '"',
        );
        let vn = rwl(trim(line.take(pos)), env.0, st.2);
        (toggle_lines(vn, bvn(vn, st.3), cv), (note_clone(st.0, vn, st.3), st.1, st.2, st.3))
    } else if (mentions(line, "++"@) || mentions(line, "--"@)) && increment_spec(line) is Some {
        (seq![increment_spec(line).unwrap()], st)
    } else if canvas_line_spec(line) is Some {
        (seq![canvas_line_spec(line).unwrap()], st)
    } else if mentions(line, "instanceof"@) {
        (seq![instanceof_spec(line)], st)
    } else if mentions(line, "queueMicrotask("@) && microtask_spec(line) is Some {
        (seq![microtask_spec(line).unwrap()], st)
    } else if line.len() > 0 && !starts_with(line, "//"@) {
        (seq!["// "@ + line + " // (JS → Rust)"@], st)
    } else {
        (seq![], st)
    }
}

// ═══════════════════════ executable state ═══════════════════════

/// The rewriting state, as vectors.
pub struct BodyState {
    pub cloned: Vec<String>,
    pub shared: Vec<String>,
    pub locals: Vec<String>,
    pub scope: Vec<String>,
}

/// The strings of a list, as a set.
pub open spec fn view_set(v: Seq<String>) -> Set<Seq<char>> {
    Set::new(|x: Seq<char>| strs(v).contains(x))
}

pub open spec fn st_view(s: BodyState) -> St {
    (strs(s.cloned@), strs(s.shared@), view_set(s.locals@), view_set(s.scope@))
}

pub(crate) fn is_local_var(v: &Vec<String>, x: &[char]) -> (b: bool)
    ensures
        b == view_set(v@).contains(x@),
{
    crate::text::has_string(v, x)
}

pub(crate) fn push_unique_exec(v: &mut Vec<String>, x: &[char])
    ensures
        strs(final(v)@) == push_unique(strs(old(v)@), x@),
        view_set(final(v)@) == view_set(old(v)@).insert(x@),
{
    if !crate::text::has_string(v, x) {
        let ghost v0 = strs(v@);
        let xs = crate::text::string_of(x);
        v.push(xs);
        assert(strs(v@) =~= v0.push(x@));
    }
    assert(view_set(v@) =~= view_set(old(v)@).insert(x@)) by {
        assert forall|y: Seq<char>| view_set(v@).contains(y) <==> view_set(old(v)@).insert(x@).contains(y) by {
            if strs(v@) != strs(old(v)@) {
                assert(strs(v@) == strs(old(v)@).push(x@));
                if strs(old(v)@).contains(y) {
                    let k = choose|k: int| 0 <= k < strs(old(v)@).len() && strs(old(v)@)[k] == y;
                    assert(strs(v@)[k] == y);
                }
                if strs(v@).contains(y) && y != x@ {
                    let k = choose|k: int| 0 <= k < strs(v@).len() && strs(v@)[k] == y;
                    assert(strs(old(v)@)[k] == y);
                }
                assert(strs(v@)[strs(old(v)@).len() as int] == x@);
            }
        }
    }
}

pub(crate) fn with_suffix(v: &[char], lit: &str) -> (r: Vec<char>)
    ensures
        r@ == v@ + lit@,
{
    let mut o = crate::text::slice_of(v, 0, v.len());
    assert(o@ =~= v@);
    crate::text::push_lit(&mut o, lit);
    o
}

pub(crate) fn resolve_with_locals(name: &[char], lookup: &super::html::StrMap, locals: &Vec<String>) -> (r: Vec<char>)
    ensures
        r@ == rwl(name@, lookup@, view_set(locals@)),
{
    if is_local_var(locals, name) {
        return crate::text::slice_of(name, 0, name.len());
    }
    match super::js::resolve_element_chars(name, lookup) {
        Some(v) => chars_of(v.as_str()),
        None => {
            let r = crate::text::slice_of(name, 0, name.len());
            assert(r@ =~= name@);
            r
        },
    }
}

pub(crate) fn borrow_var_name(v: &[char], scope: &Vec<String>) -> (r: Vec<char>)
    ensures
        r@ == bvn(v@, view_set(scope@)),
{
    if is_local_var(scope, v) {
        let r = crate::text::slice_of(v, 0, v.len());
        assert(r@ =~= v@);
        r
    } else {
        with_suffix(v, "_clone")
    }
}

pub(crate) fn note_clone_exec(st: &mut BodyState, v: &[char])
    ensures
        st_view(*final(st)) == (
            note_clone(st_view(*old(st)).0, v@, st_view(*old(st)).3),
            st_view(*old(st)).1,
            st_view(*old(st)).2,
            st_view(*old(st)).3,
        ),
{
    if !is_local_var(&st.scope, v) {
        let c = with_suffix(v, "_clone");
        push_unique_exec(&mut st.cloned, &c);
    }
}

pub(crate) fn escape_exec(s: &[char]) -> (r: Vec<char>)
    ensures
        r@ == escape(s@),
{
    proof {
        reveal_strlit("\\");
        reveal_strlit("\"");
    }
    let a = crate::text::replace_chars(s, &chars_of("\\"), &chars_of("\\\\"));
    crate::text::replace_chars(&a, &chars_of("\""), &chars_of("\\\""))
}

pub(crate) fn indent_lines_exec(text: &[char]) -> (r: Vec<Vec<char>>)
    ensures
        views(r@) == indent_lines(text@),
{
    let ls = crate::text::lines_chars(text);
    let ghost lv = views(ls@);
    let mut r: Vec<Vec<char>> = Vec::new();
    let mut i: usize = 0;
    while i < ls.len()
        invariant
            i <= ls@.len(),
            lv == views(ls@),
            lv == lines_of(text@),
            views(r@) == lv.take(i as int).map_values(|l: Seq<char>| "    "@ + l),
        decreases ls.len() - i,
    {
        let mut o = chars_of("    ");
        crate::text::push_all(&mut o, &ls[i]);
        let ghost r0 = views(r@);
        r.push(o);
        assert(lv[i as int] == ls@[i as int]@);
        assert(views(r@) =~= r0.push(o@));
        assert(lv.take(i + 1).map_values(|l: Seq<char>| "    "@ + l) =~= lv.take(i as int).map_values(
            |l: Seq<char>| "    "@ + l,
        ).push("    "@ + lv[i as int]));
        i += 1;
    }
    assert(lv.take(ls@.len() as int) =~= lv);
    r
}

pub(crate) fn style_line_exec(v: &[char], style: Option<Vec<char>>) -> (r: Vec<Vec<char>>)
    ensures
        views(r@) == style_line(
            v@,
            match style {
                Some(s) => Some(s@),
                None => None,
            },
        ),
{
    let mut r: Vec<Vec<char>> = Vec::new();
    match style {
        Some(s) => {
            let mut o = with_suffix(v, ".borrow_mut().set_style(\"");
            crate::text::push_all(&mut o, &escape_exec(&s));
            crate::text::push_lit(&mut o, "\");");
            r.push(o);
            assert(views(r@) =~= seq![o@]);
        },
        None => {
            assert(views(r@) =~= Seq::<Seq<char>>::empty());
        },
    }
    r
}

pub(crate) fn one(l: Vec<char>) -> (r: Vec<Vec<char>>)
    ensures
        views(r@) == seq![l@],
{
    let mut r: Vec<Vec<char>> = Vec::new();
    r.push(l);
    assert(views(r@) =~= seq![l@]);
    r
}

pub(crate) fn append_lines(a: &mut Vec<Vec<char>>, b: Vec<Vec<char>>)
    ensures
        views(final(a)@) == views(old(a)@) + views(b@),
{
    let mut b = b;
    let ghost b0 = views(b@);
    a.append(&mut b);
    assert(views(a@) =~= views(old(a)@) + b0);
}

// ═══════════════════════ executable patterns ═══════════════════════

pub(crate) fn decl_target(line: &[char], eq: usize) -> (r: Option<Vec<char>>)
    requires
        eq <= line@.len(),
    ensures
        match r {
            Some(v) => assign_target(trim(line@.take(eq as int))) == Some(v@),
            None => assign_target(trim(line@.take(eq as int))) is None,
        },
{
    let before = crate::text::trim_chars(&crate::text::slice_of(line, 0, eq));
    assert(line@.subrange(0, eq as int) =~= line@.take(eq as int));
    match crate::text::strip_prefix_lit(&before, "const ") {
        Some(x) => Some(crate::text::trim_chars(&x)),
        None => match crate::text::strip_prefix_lit(&before, "let ") {
            Some(x) => Some(crate::text::trim_chars(&x)),
            None => None,
        },
    }
}

pub(crate) fn pat_create_exec(
    line: &[char],
    lookup: &super::html::StrMap,
    names: &[String],
    rules: &[super::css::CssRule],
    st: &mut BodyState,
) -> (r: Option<Vec<Vec<char>>>)
    ensures
        match r {
            Some(ls) => pat_create(
                line@,
                (lookup@, strs(names@), super::jsstyle::rules_view(rules@)),
                st_view(*old(st)),
            ) == Some((views(ls@), st_view(*final(st)))),
            None => pat_create(
                line@,
                (lookup@, strs(names@), super::jsstyle::rules_view(rules@)),
                st_view(*old(st)),
            ) is None && *final(st) == *old(st),
        },
{
    if !((crate::text::starts_with_lit(line, "const ") || crate::text::starts_with_lit(line, "let "))
        && crate::text::has_lit(line, "document.createElement(")) {
        return None;
    }
    let eq = match crate::text::find_char_in(line, '=') {
        None => return None,
        Some(e) => e,
    };
    proof {
        crate::text::lemma_find_first_bounds(line@, crate::text::eq_pred('='));
    }
    let ll = line.len();
    let vn = match decl_target(line, eq) {
        None => return None,
        Some(v) => v,
    };
    let after_eq = crate::text::trim_chars(
        &crate::text::trim_end_matches_chars(&crate::text::trim_chars(&crate::text::suffix(line, eq + 1)), ';'),
    );
    let s = match crate::text::strip_prefix_lit(&after_eq, "document.createElement(") {
        None => return None,
        Some(s) => s,
    };
    let tag = crate::text::trim_matches_chars(
        &crate::text::trim_chars(&crate::text::trim_end_matches_chars(&s, ')')),
        '\'',
    );
    let doc = chars_of("doc_clone");
    push_unique_exec(&mut st.cloned, &doc);
    push_unique_exec(&mut st.locals, &vn);
    push_unique_exec(&mut st.scope, &vn);
    let mut l1 = chars_of("let ");
    crate::text::push_all(&mut l1, &vn);
    crate::text::push_lit(&mut l1, " = doc_clone.borrow().create_element(\"");
    crate::text::push_all(&mut l1, &tag);
    crate::text::push_lit(&mut l1, "\");");
    let style = super::jsstyle::lookup_styles_for_element(&tag, None, rules);
    let mut out = one(l1);
    append_lines(&mut out, style_line_exec(&vn, style));
    Some(out)
}

/// The environment as plain values.
pub open spec fn env_view(
    lookup: super::html::StrMap,
    names: Seq<String>,
    rules: Seq<super::css::CssRule>,
) -> EnvV {
    (lookup@, strs(names), super::jsstyle::rules_view(rules))
}

pub(crate) fn pat_class_name_exec(
    line: &[char],
    lookup: &super::html::StrMap,
    names: &[String],
    rules: &[super::css::CssRule],
    st: &BodyState,
) -> (r: Option<Vec<Vec<char>>>)
    ensures
        match r {
            Some(ls) => pat_class_name(line@, env_view(*lookup, names@, rules@), st_view(*st)) == Some(
                (views(ls@), st_view(*st)),
            ),
            None => pat_class_name(line@, env_view(*lookup, names@, rules@), st_view(*st)) is None,
        },
{
    if !(crate::text::has_lit(line, ".className") && crate::text::has_char(line, '=')) {
        return None;
    }
    let ll = line.len();
    let pos = crate::text::find_lit(line, ".className").unwrap();
    proof {
        crate::text::lemma_find_seq(line@, ".className"@);
    }
    let n = ".className".unicode_len();
    let tail = crate::text::suffix(line, pos + n);
    let p = match crate::text::find_char_in(&tail, '=') {
        None => return None,
        Some(p) => p,
    };
    proof {
        crate::text::lemma_find_first_bounds(tail@, crate::text::eq_pred('='));
        assert(line@.skip(pos + n + p + 1) =~= tail@.skip(p + 1));
    }
    let rest = crate::text::suffix(&tail, p + 1);
    let rhs = crate::text::trim_matches_chars(
        &crate::text::trim_matches_chars(
            &crate::text::trim_chars(&crate::text::trim_end_matches_chars(&rest, ';')),
            '\'',
        ),
        '"',
    );
    let target = crate::text::trim_chars(&crate::text::slice_of(line, 0, pos));
    assert(line@.subrange(0, pos as int) =~= line@.take(pos as int));
    let vn = resolve_with_locals(&target, lookup, &st.locals);
    let mut l1 = with_suffix(&vn, ".borrow_mut().set_attribute(\"class\", \"");
    crate::text::push_all(&mut l1, &rhs);
    crate::text::push_lit(&mut l1, "\");");
    let star = chars_of("*");
    let style = super::jsstyle::lookup_styles_for_element(&star, Some(&rhs), rules);
    let mut out = one(l1);
    append_lines(&mut out, style_line_exec(&vn, style));
    Some(out)
}

pub(crate) fn translate_rhs_expr(
    expr: &[char],
    lookup: &super::html::StrMap,
    names: &[String],
    rules: &[super::css::CssRule],
    st: &mut BodyState,
) -> (r: Vec<char>)
    requires
        rhs_expr_spec(expr@, env_view(*lookup, names@, rules@), st_view(*old(st))) is Some,
    ensures
        rhs_expr_spec(expr@, env_view(*lookup, names@, rules@), st_view(*old(st))) == Some(
            (r@, st_view(*final(st))),
        ),
{
    let e = crate::text::trim_chars(expr);
    if crate::text::has_lit(&e, ".value") {
        proof {
            crate::text::lemma_rfind_seq_some(e@, ".value"@);
            crate::text::lemma_rfind_seq_bounds(e@, ".value"@);
        }
        let el = e.len();
        let dot = crate::text::rfind_lit(&e, ".value").unwrap();
        let target = crate::text::slice_of(&e, 0, dot);
        assert(e@.subrange(0, dot as int) =~= e@.take(dot as int));
        let vn = resolve_with_locals(&target, lookup, &st.locals);
        let un = borrow_var_name(&vn, &st.scope);
        if !is_local_var(&st.scope, &vn) && !crate::text::has_string(&st.cloned, &vn) {
            let c = with_suffix(&vn, "_clone");
            let ghost c0 = strs(st.cloned@);
            let cs = crate::text::string_of(&c);
            st.cloned.push(cs);
            assert(strs(st.cloned@) =~= c0.push(c@));
        }
        let n = ".value".unicode_len();
        let rest = crate::text::suffix(&e, dot + n);
        if crate::text::starts_with_lit(&rest, ".trim()") {
            with_suffix(&un, ".borrow().text_content().trim().to_string()")
        } else {
            with_suffix(&un, ".borrow().text_content()")
        }
    } else {
        proof {
            crate::text::lemma_trim_idempotent(expr@);
        }
        super::jsexpr::translate_expr(&e)
    }
}

pub(crate) fn pat_value_get_exec(
    line: &[char],
    lookup: &super::html::StrMap,
    names: &[String],
    rules: &[super::css::CssRule],
    st: &mut BodyState,
) -> (r: Option<Vec<Vec<char>>>)
    requires
        pat_value_get(line@, env_view(*lookup, names@, rules@), st_view(*old(st))) is Some,
    ensures
        match r {
            Some(ls) => pat_value_get(line@, env_view(*lookup, names@, rules@), st_view(*old(st)))
                == Some(Some((views(ls@), st_view(*final(st))))),
            None => pat_value_get(line@, env_view(*lookup, names@, rules@), st_view(*old(st)))
                == Some(None::<Done>) && *final(st) == *old(st),
        },
{
    if !(crate::text::has_lit(line, ".value") && !crate::text::has_lit(line, ".value =")
        && !crate::text::has_lit(line, ".value=") && (crate::text::starts_with_lit(line, "const ")
        || crate::text::starts_with_lit(line, "let ")) && crate::text::has_char(line, '=')) {
        return None;
    }
    let ll = line.len();
    let eq = crate::text::find_char_in(line, '=').unwrap();
    proof {
        crate::text::lemma_find_first_bounds(line@, crate::text::eq_pred('='));
    }
    let vn = match decl_target(line, eq) {
        None => return None,
        Some(v) => v,
    };
    let rhs = crate::text::trim_chars(
        &crate::text::trim_end_matches_chars(&crate::text::trim_chars(&crate::text::suffix(line, eq + 1)), ';'),
    );
    let t = translate_rhs_expr(&rhs, lookup, names, rules, st);
    let mut l = chars_of("let ");
    crate::text::push_all(&mut l, &vn);
    crate::text::push_lit(&mut l, " = ");
    crate::text::push_all(&mut l, &t);
    crate::text::push_lit(&mut l, ";");
    Some(one(l))
}

pub(crate) fn pat_value_set_exec(
    line: &[char],
    lookup: &super::html::StrMap,
    names: &[String],
    rules: &[super::css::CssRule],
    st: &mut BodyState,
) -> (r: Option<Vec<Vec<char>>>)
    requires
        pat_value_set(line@, env_view(*lookup, names@, rules@), st_view(*old(st))) is Some,
    ensures
        match r {
            Some(ls) => pat_value_set(line@, env_view(*lookup, names@, rules@), st_view(*old(st)))
                == Some(Some((views(ls@), st_view(*final(st))))),
            None => pat_value_set(line@, env_view(*lookup, names@, rules@), st_view(*old(st)))
                == Some(None::<Done>) && *final(st) == *old(st),
        },
{
    let spaced = crate::text::has_lit(line, ".value =");
    if !((spaced || crate::text::has_lit(line, ".value=")) && crate::text::ends_with_lit(line, ";")) {
        return None;
    }
    let ll = line.len();
    let (pos, n) = if spaced {
        proof {
            crate::text::lemma_find_seq(line@, ".value ="@);
        }
        (crate::text::find_lit(line, ".value =").unwrap(), ".value =".unicode_len())
    } else {
        proof {
            crate::text::lemma_find_seq(line@, ".value="@);
        }
        (crate::text::find_lit(line, ".value=").unwrap(), ".value=".unicode_len())
    };
    let rhs = crate::text::trim_chars(&crate::text::trim_end_matches_chars(&crate::text::suffix(line, pos + n), ';'));
    let target = crate::text::trim_chars(&crate::text::slice_of(line, 0, pos));
    assert(line@.subrange(0, pos as int) =~= line@.take(pos as int));
    let vn = resolve_with_locals(&target, lookup, &st.locals);
    let un = borrow_var_name(&vn, &st.scope);
    note_clone_exec(st, &vn);
    if crate::text::eq_lit(&rhs, "''") || crate::text::eq_lit(&rhs, "\"\"") {
        return Some(one(with_suffix(&un, ".borrow_mut().set_text_content(\"\");")));
    }
    let x = super::jsexpr::translate_expr(&rhs);
    let mut l = with_suffix(&un, ".borrow_mut().set_text_content(&(");
    crate::text::push_all(&mut l, &x);
    crate::text::push_lit(&mut l, ").to_string());");
    Some(one(l))
}

pub(crate) fn shared_match_exec(names: &[String], rhs: &[char]) -> (r: Option<Vec<char>>)
    ensures
        match r {
            Some(v) => shared_match(strs(names@), rhs@, 0) == Some(v@),
            None => shared_match(strs(names@), rhs@, 0) is None,
        },
{
    let ghost nv = strs(names@);
    let mut k: usize = 0;
    while k < names.len()
        invariant
            k <= names@.len(),
            nv == strs(names@),
            shared_match(nv, rhs@, 0) == shared_match(nv, rhs@, k as int),
        decreases names.len() - k,
    {
        let sv = chars_of(names[k].as_str());
        assert(sv@ == nv[k as int]);
        let sp = with_suffix(&sv, " ");
        if crate::text::eq_chars(rhs, &sv) || crate::text::find_seq_in(rhs, &sp).is_some()
            || starts_with_chars(rhs, &sv) {
            return Some(sv);
        }
        k += 1;
    }
    None
}

pub(crate) fn starts_with_chars(v: &[char], p: &[char]) -> (b: bool)
    ensures
        b == starts_with(v@, p@),
{
    if p.len() > v.len() {
        return false;
    }
    let t = crate::text::slice_of(v, 0, p.len());
    assert(t@ =~= v@.take(p@.len() as int));
    crate::text::eq_chars(&t, p)
}

pub(crate) fn fmt_lit_exec(parts: &[Vec<char>], sv: &[char]) -> (r: Vec<char>)
    ensures
        r@ == fmt_lit(views(parts@), sv@),
{
    let ghost pv = views(parts@);
    let mut o: Vec<char> = Vec::new();
    let mut i: usize = 0;
    assert(pv.take(0) =~= Seq::<Seq<char>>::empty());
    while i < parts.len()
        invariant
            i <= parts@.len(),
            pv == views(parts@),
            o@ == fmt_lit(pv.take(i as int), sv@),
        decreases parts.len() - i,
    {
        assert(pv.take(i + 1).drop_last() =~= pv.take(i as int));
        assert(pv.take(i + 1).last() == parts@[i as int]@);
        let clean = crate::text::trim_matches_chars(
            &crate::text::trim_matches_chars(&crate::text::trim_chars(&parts[i]), '\''),
            '"',
        );
        if crate::text::eq_chars(&clean, sv) {
            crate::text::push_lit(&mut o, "{}");
        } else {
            crate::text::push_all(&mut o, &clean);
        }
        i += 1;
    }
    assert(pv.take(parts@.len() as int) =~= pv);
    o
}

pub(crate) fn trimmed_all(ps: &[Vec<char>]) -> (r: Vec<Vec<char>>)
    ensures
        views(r@) == views(ps@).map_values(|x: Seq<char>| trim(x)),
{
    let ghost pv = views(ps@);
    let mut r: Vec<Vec<char>> = Vec::new();
    let mut i: usize = 0;
    while i < ps.len()
        invariant
            i <= ps@.len(),
            pv == views(ps@),
            views(r@) == pv.take(i as int).map_values(|x: Seq<char>| trim(x)),
        decreases ps.len() - i,
    {
        let t = crate::text::trim_chars(&ps[i]);
        let ghost r0 = views(r@);
        r.push(t);
        assert(pv[i as int] == ps@[i as int]@);
        assert(views(r@) =~= r0.push(t@));
        assert(pv.take(i + 1).map_values(|x: Seq<char>| trim(x)) =~= pv.take(i as int).map_values(
            |x: Seq<char>| trim(x),
        ).push(trim(pv[i as int])));
        i += 1;
    }
    assert(pv.take(ps@.len() as int) =~= pv);
    r
}

pub(crate) fn pat_text_exec(
    line: &[char],
    lookup: &super::html::StrMap,
    names: &[String],
    rules: &[super::css::CssRule],
    st: &mut BodyState,
) -> (r: Option<Vec<Vec<char>>>)
    requires
        pat_text(line@, env_view(*lookup, names@, rules@), st_view(*old(st))) is Some,
    ensures
        match r {
            Some(ls) => pat_text(line@, env_view(*lookup, names@, rules@), st_view(*old(st))) == Some(
                Some((views(ls@), st_view(*final(st)))),
            ),
            None => pat_text(line@, env_view(*lookup, names@, rules@), st_view(*old(st))) == Some(
                None::<Done>,
            ) && *final(st) == *old(st),
        },
{
    if !crate::text::has_lit(line, ".textContent") {
        return None;
    }
    let ll = line.len();
    let pos = crate::text::find_lit(line, ".textContent").unwrap();
    proof {
        crate::text::lemma_find_seq(line@, ".textContent"@);
    }
    let n = ".textContent".unicode_len();
    let tail = crate::text::suffix(line, pos + n);
    let p = match crate::text::find_char_in(&tail, '=') {
        None => return None,
        Some(p) => p,
    };
    proof {
        crate::text::lemma_find_first_bounds(tail@, crate::text::eq_pred('='));
        assert(line@.skip(pos + n + p + 1) =~= tail@.skip(p + 1));
    }
    let rhs = crate::text::trim_chars(&crate::text::trim_end_matches_chars(&crate::text::suffix(&tail, p + 1), ';'));
    let target = crate::text::trim_chars(&crate::text::slice_of(line, 0, pos));
    assert(line@.subrange(0, pos as int) =~= line@.take(pos as int));
    let vn = resolve_with_locals(&target, lookup, &st.locals);
    let un = borrow_var_name(&vn, &st.scope);
    note_clone_exec(st, &vn);
    match shared_match_exec(names, &rhs) {
        Some(sv) => {
            push_unique_exec(&mut st.shared, &sv);
            let l = if crate::text::has_char(&rhs, '+') {
                let parts = trimmed_all(&crate::text::split_chars(&rhs, '+'));
                let mut l = with_suffix(&un, ".borrow_mut().set_text_content(&format!(\"");
                crate::text::push_all(&mut l, &fmt_lit_exec(&parts, &sv));
                crate::text::push_lit(&mut l, "\", ");
                crate::text::push_all(&mut l, &sv);
                crate::text::push_lit(&mut l, "_clone.borrow()));");
                l
            } else {
                let mut l = with_suffix(&un, ".borrow_mut().set_text_content(&");
                crate::text::push_all(&mut l, &sv);
                crate::text::push_lit(&mut l, "_clone.borrow().to_string());");
                l
            };
            Some(one(l))
        },
        None => {
            let m = rhs.len();
            if m > 0 && ((rhs[0] == '\'' && rhs[m - 1] == '\'') || (rhs[0] == '"' && rhs[m - 1] == '"')) {
                let mut l = with_suffix(&un, ".borrow_mut().set_text_content(\"");
                crate::text::push_all(&mut l, &crate::text::slice_of(&rhs, 1, m - 1));
                crate::text::push_lit(&mut l, "\");");
                Some(one(l))
            } else if crate::text::parse_i32(&rhs).is_some() {
                let mut l = with_suffix(&un, ".borrow_mut().set_text_content(\"");
                crate::text::push_all(&mut l, &rhs);
                crate::text::push_lit(&mut l, "\");");
                Some(one(l))
            } else {
                proof {
                    crate::text::lemma_trim_idempotent(
                        crate::text::trim_end_matches(line@.skip(pos + n + p + 1), ';'),
                    );
                }
                let x = super::jsexpr::translate_expr(&rhs);
                let mut l = with_suffix(&un, ".borrow_mut().set_text_content(&(");
                crate::text::push_all(&mut l, &x);
                crate::text::push_lit(&mut l, ").to_string());");
                Some(one(l))
            }
        },
    }
}

pub(crate) fn prop_line_exec(d: &(String, String)) -> (r: Vec<char>)
    ensures
        r@ == prop_line((d.0@, d.1@)),
{
    let mut o = chars_of("                child_ref.set_style_property(\"");
    crate::text::push_all(&mut o, &chars_of(d.0.as_str()));
    crate::text::push_lit(&mut o, "\", \"");
    crate::text::push_all(&mut o, &chars_of(d.1.as_str()));
    crate::text::push_lit(&mut o, "\");");
    o
}

pub(crate) fn prop_lines_exec(ds: &[(String, String)]) -> (r: Vec<Vec<char>>)
    ensures
        views(r@) == super::jsstyle::decls_view(ds@).map_values(|d: (Seq<char>, Seq<char>)| prop_line(d)),
{
    let ghost dv = super::jsstyle::decls_view(ds@);
    let mut r: Vec<Vec<char>> = Vec::new();
    let mut i: usize = 0;
    while i < ds.len()
        invariant
            i <= ds@.len(),
            dv == super::jsstyle::decls_view(ds@),
            views(r@) == dv.take(i as int).map_values(|d: (Seq<char>, Seq<char>)| prop_line(d)),
        decreases ds.len() - i,
    {
        let l = prop_line_exec(&ds[i]);
        let ghost r0 = views(r@);
        r.push(l);
        assert(dv[i as int] == (ds@[i as int].0@, ds@[i as int].1@));
        assert(views(r@) =~= r0.push(l@));
        assert(dv.take(i + 1).map_values(|d: (Seq<char>, Seq<char>)| prop_line(d)) =~= dv.take(
            i as int,
        ).map_values(|d: (Seq<char>, Seq<char>)| prop_line(d)).push(prop_line(dv[i as int])));
        i += 1;
    }
    assert(dv.take(ds@.len() as int) =~= dv);
    r
}

pub(crate) fn overridden_exec(ds: &[(String, String)], last: &[(String, String)]) -> (r: Vec<(String, String)>)
    ensures
        super::jsstyle::decls_view(r@) == overridden(
            super::jsstyle::decls_view(ds@),
            super::jsstyle::decls_view(last@),
        ),
{
    let ghost dv = super::jsstyle::decls_view(ds@);
    let ghost lv = super::jsstyle::decls_view(last@);
    let mut r: Vec<(String, String)> = Vec::new();
    let mut i: usize = 0;
    while i < ds.len()
        invariant
            i <= ds@.len(),
            dv == super::jsstyle::decls_view(ds@),
            lv == super::jsstyle::decls_view(last@),
            super::jsstyle::decls_view(r@) == overridden(dv.take(i as int), lv),
        decreases ds.len() - i,
    {
        assert(dv.take(i + 1).drop_last() =~= dv.take(i as int));
        assert(dv.take(i + 1).last() == dv[i as int]);
        assert(dv[i as int] == (ds@[i as int].0@, ds@[i as int].1@));
        let key = chars_of(ds[i].0.as_str());
        let mut found = false;
        let mut k: usize = 0;
        while k < last.len()
            invariant
                k <= last@.len(),
                lv == super::jsstyle::decls_view(last@),
                found <==> exists|j: int| 0 <= j < k && (#[trigger] lv[j]).0 == key@,
            decreases last.len() - k,
        {
            let lk = chars_of(last[k].0.as_str());
            assert(lv[k as int].0 == lk@);
            if crate::text::eq_chars(&lk, &key) {
                found = true;
            }
            k += 1;
        }
        if found {
            let ghost r0 = super::jsstyle::decls_view(r@);
            let e = (crate::text::owned(ds[i].0.as_str()), crate::text::owned(ds[i].1.as_str()));
            r.push(e);
            assert(super::jsstyle::decls_view(r@) =~= r0.push((e.0@, e.1@)));
        }
        i += 1;
    }
    assert(dv.take(ds@.len() as int) =~= dv);
    r
}

pub(crate) fn override_lines_exec(o: &super::jsstyle::Override) -> (r: Vec<Vec<char>>)
    ensures
        views(r@) == override_lines(super::jsstyle::override_view(*o)),
{
    let cond = super::jsstyle::build_match_condition(&o.base);
    let base_over = overridden_exec(&o.base_decls, &o.last_decls);
    let mut out: Vec<Vec<char>> = Vec::new();
    assert(views(out@) =~= Seq::<Seq<char>>::empty());
    if cond.len() > 0 {
        let mut l = chars_of("        if ");
        crate::text::push_all(&mut l, &cond);
        crate::text::push_lit(&mut l, " {");
        append_lines(&mut out, one(l));
    }
    let ghost a = views(out@);
    if o.last_decls.len() > 0 && base_over.len() > 0 {
        append_lines(&mut out, one(chars_of("            if i == len - 1 {")));
        append_lines(&mut out, prop_lines_exec(&o.last_decls));
        append_lines(&mut out, one(chars_of("            } else {")));
        append_lines(&mut out, prop_lines_exec(&base_over));
        append_lines(&mut out, one(chars_of("            }")));
    }
    if cond.len() > 0 {
        append_lines(&mut out, one(chars_of("        }")));
    }
    assert(views(out@) =~= override_lines(super::jsstyle::override_view(*o)));
    out
}

pub(crate) fn last_child_block_exec(un: &[char], os: &[super::jsstyle::Override]) -> (r: Vec<Vec<char>>)
    ensures
        views(r@) == last_child_block(un@, os@.map_values(|o: super::jsstyle::Override| super::jsstyle::override_view(o))),
{
    let ghost ov = os@.map_values(|o: super::jsstyle::Override| super::jsstyle::override_view(o));
    let mut out = one(chars_of("{"));
    let mut l = chars_of("    let parent_ref = ");
    crate::text::push_all(&mut l, un);
    crate::text::push_lit(&mut l, ".borrow();");
    append_lines(&mut out, one(l));
    append_lines(&mut out, one(chars_of("    let children = parent_ref.child_nodes();")));
    append_lines(&mut out, one(chars_of("    let len = children.len();")));
    append_lines(&mut out, one(chars_of("    drop(parent_ref);")));
    append_lines(&mut out, one(chars_of("    for (i, child_rc) in children.iter().enumerate() {")));
    append_lines(&mut out, one(chars_of("        let mut child_ref = child_rc.borrow_mut();")));
    append_lines(
        &mut out,
        one(chars_of("        let class = child_ref.get_attribute(\"class\").unwrap_or_default();")),
    );
    let ghost head = views(out@);
    let mut i: usize = 0;
    assert(ov.take(0) =~= Seq::<OverrideV>::empty());
    assert(head + overrides_lines(ov.take(0)) =~= head);
    while i < os.len()
        invariant
            i <= os@.len(),
            ov == os@.map_values(|o: super::jsstyle::Override| super::jsstyle::override_view(o)),
            views(out@) == head + overrides_lines(ov.take(i as int)),
        decreases os.len() - i,
    {
        assert(ov.take(i + 1).drop_last() =~= ov.take(i as int));
        assert(ov.take(i + 1).last() == super::jsstyle::override_view(os@[i as int]));
        let ghost o0 = views(out@);
        append_lines(&mut out, override_lines_exec(&os[i]));
        assert(views(out@) =~= head + overrides_lines(ov.take(i + 1)));
        i += 1;
    }
    assert(ov.take(os@.len() as int) =~= ov);
    append_lines(&mut out, one(chars_of("    }")));
    append_lines(&mut out, one(chars_of("}")));
    assert(views(out@) =~= last_child_block(un@, ov));
    out
}

pub(crate) fn pat_child_exec(
    line: &[char],
    lookup: &super::html::StrMap,
    names: &[String],
    rules: &[super::css::CssRule],
    st: &mut BodyState,
    append: bool,
) -> (r: Option<Vec<Vec<char>>>)
    ensures
        match r {
            Some(ls) => pat_child(
                line@,
                env_view(*lookup, names@, rules@),
                st_view(*old(st)),
                if append { ".appendChild("@ } else { ".removeChild("@ },
            ) == Some((views(ls@), st_view(*final(st)))),
            None => pat_child(
                line@,
                env_view(*lookup, names@, rules@),
                st_view(*old(st)),
                if append { ".appendChild("@ } else { ".removeChild("@ },
            ) is None && *final(st) == *old(st),
        },
{
    let op = if append { chars_of(".appendChild(") } else { chars_of(".removeChild(") };
    let pos = match crate::text::find_seq_in(line, &op) {
        None => return None,
        Some(p) => p,
    };
    let ll = line.len();
    proof {
        crate::text::lemma_find_seq(line@, op@);
    }
    let child = crate::text::trim_chars(
        &crate::text::trim_end_matches_chars(
            &crate::text::trim_end_matches_chars(
                &crate::text::trim_chars(&crate::text::suffix(line, pos + op.len())),
                ';',
            ),
            ')',
        ),
    );
    let target = crate::text::trim_chars(&crate::text::slice_of(line, 0, pos));
    assert(line@.subrange(0, pos as int) =~= line@.take(pos as int));
    let vn = resolve_with_locals(&target, lookup, &st.locals);
    let un = borrow_var_name(&vn, &st.scope);
    note_clone_exec(st, &vn);
    let cv = resolve_with_locals(&child, lookup, &st.locals);
    let cu = borrow_var_name(&cv, &st.scope);
    note_clone_exec(st, &cv);
    if append {
        proof {
            reveal_strlit(".appendChild(");
            reveal_strlit(".removeChild(");
        }
        let mut l = with_suffix(&un, ".borrow_mut().append_child(");
        crate::text::push_all(&mut l, &cu);
        crate::text::push_lit(&mut l, ".clone());");
        let mut out = one(l);
        assert(op@ == ".appendChild("@);
        let os = super::jsstyle::extract_last_child_overrides(rules);
        if os.len() > 0 {
            append_lines(&mut out, last_child_block_exec(&un, &os));
        } else {
            assert(views(out@) =~= views(out@) + Seq::<Seq<char>>::empty());
        }
        Some(out)
    } else {
        proof {
            reveal_strlit(".appendChild(");
            reveal_strlit(".removeChild(");
        }
        let mut l = with_suffix(&un, ".borrow_mut().remove_child_by_ptr(&");
        crate::text::push_all(&mut l, &cu);
        crate::text::push_lit(&mut l, ");");
        assert(op@[1] != ".appendChild("@[1]);
        assert(op@ != ".appendChild("@);
        assert(l@ == un@ + ".borrow_mut().remove_child_by_ptr(&"@ + cu@ + ");"@);
        Some(one(l))
    }
}

pub(crate) fn pat_return_exec(line: &[char], lookup: &super::html::StrMap, st: &BodyState) -> (r: Option<Vec<Vec<char>>>)
    ensures
        forall|names: Seq<String>, rules: Seq<super::css::CssRule>|
            match r {
                Some(ls) => pat_return(line@, #[trigger] env_view(*lookup, names, rules), st_view(*st))
                    == Some((views(ls@), st_view(*st))),
                None => pat_return(line@, env_view(*lookup, names, rules), st_view(*st)) is None,
            },
{
    match crate::text::strip_prefix_lit(line, "return ") {
        None => None,
        Some(rest) => {
            let e = crate::text::trim_chars(&crate::text::trim_end_matches_chars(&rest, ';'));
            let cv = resolve_with_locals(&e, lookup, &st.locals);
            let mut l = chars_of("return ");
            crate::text::push_all(&mut l, &cv);
            crate::text::push_lit(&mut l, ";");
            Some(one(l))
        },
    }
}

pub(crate) fn pat_shared_exec(line: &[char], names: &[String], st: &mut BodyState) -> (r: Option<Vec<Vec<char>>>)
    ensures
        match r {
            Some(ls) => pat_shared(line@, strs(names@), 0, st_view(*old(st))) == Some(
                (views(ls@), st_view(*final(st))),
            ),
            None => pat_shared(line@, strs(names@), 0, st_view(*old(st))) is None && *final(st)
                == *old(st),
        },
{
    let ghost nv = strs(names@);
    proof {
        reveal_strlit(" ");
    }
    let nospace = crate::text::replace_chars(line, &chars_of(" "), &Vec::new());
    let cleaned = crate::text::trim_end_matches_chars(&nospace, ';');
    let mut k: usize = 0;
    while k < names.len()
        invariant
            k <= names@.len(),
            nv == strs(names@),
            cleaned@ == trim_end_matches(replace_all(line@, " "@, seq![]), ';'),
            pat_shared(line@, nv, 0, st_view(*st)) == pat_shared(line@, nv, k as int, st_view(*st)),
            *st == *old(st),
        decreases names.len() - k,
    {
        let sv = chars_of(names[k].as_str());
        assert(sv@ == nv[k as int]);
        let mut inc = with_suffix(&sv, "=");
        crate::text::push_all(&mut inc, &sv);
        let mut dec = slice_of_all(&inc);
        crate::text::push_lit(&mut inc, "+1");
        crate::text::push_lit(&mut dec, "-1");
        let set = with_suffix(&sv, "=");
        if crate::text::eq_chars(&cleaned, &inc) {
            push_unique_exec(&mut st.shared, &sv);
            let mut l = chars_of("*");
            crate::text::push_all(&mut l, &sv);
            crate::text::push_lit(&mut l, "_clone.borrow_mut() += 1;");
            return Some(one(l));
        }
        if crate::text::eq_chars(&cleaned, &dec) {
            push_unique_exec(&mut st.shared, &sv);
            let mut l = chars_of("*");
            crate::text::push_all(&mut l, &sv);
            crate::text::push_lit(&mut l, "_clone.borrow_mut() -= 1;");
            return Some(one(l));
        }
        if starts_with_chars(&cleaned, &set) && !crate::text::has_lit(&cleaned, "++")
            && !crate::text::has_lit(&cleaned, "--") {
            proof {
                reveal_strlit("=");
            }
            let rhs = crate::text::suffix(&cleaned, set.len());
            if crate::text::parse_i32(&rhs).is_some() {
                push_unique_exec(&mut st.shared, &sv);
                let mut l = chars_of("*");
                crate::text::push_all(&mut l, &sv);
                crate::text::push_lit(&mut l, "_clone.borrow_mut() = ");
                crate::text::push_all(&mut l, &rhs);
                crate::text::push_lit(&mut l, ";");
                return Some(one(l));
            }
        }
        k += 1;
    }
    None
}

pub(crate) fn slice_of_all(v: &[char]) -> (r: Vec<char>)
    ensures
        r@ == v@,
{
    let r = crate::text::slice_of(v, 0, v.len());
    assert(r@ =~= v@);
    r
}

pub(crate) fn pat_let_exec(line: &[char], lookup: &super::html::StrMap, st: &mut BodyState) -> (r: Vec<Vec<char>>)
    requires
        find_char(line@, '=') is Some,
    ensures
        forall|names: Seq<String>, rules: Seq<super::css::CssRule>|
            pat_let(line@, #[trigger] env_view(*lookup, names, rules), st_view(*old(st))) == (
                views(r@),
                st_view(*final(st)),
            ),
{
    let ll = line.len();
    let eq = crate::text::find_char_in(line, '=').unwrap();
    proof {
        crate::text::lemma_find_first_bounds(line@, crate::text::eq_pred('='));
    }
    match decl_target(line, eq) {
        None => {
            let r: Vec<Vec<char>> = Vec::new();
            assert(views(r@) =~= Seq::<Seq<char>>::empty());
            r
        },
        Some(vn) => {
            push_unique_exec(&mut st.locals, &vn);
            let rhs = crate::text::trim_chars(
                &crate::text::trim_end_matches_chars(&crate::text::trim_chars(&crate::text::suffix(line, eq + 1)), ';'),
            );
            let rv = resolve_with_locals(&rhs, lookup, &st.locals);
            push_unique_exec(&mut st.scope, &vn);
            let mut l = chars_of("let ");
            crate::text::push_all(&mut l, &vn);
            crate::text::push_lit(&mut l, " = ");
            crate::text::push_all(&mut l, &rv);
            crate::text::push_lit(&mut l, ".clone();");
            one(l)
        },
    }
}

pub(crate) fn pre_listener_exec(
    line: &[char],
    lookup: &super::html::StrMap,
    names: &[String],
    rules: &[super::css::CssRule],
    st: &mut BodyState,
) -> (r: Option<Vec<Vec<char>>>)
    requires
        pre_listener(line@, env_view(*lookup, names@, rules@), st_view(*old(st))) is Some,
    ensures
        match r {
            Some(ls) => pre_listener(line@, env_view(*lookup, names@, rules@), st_view(*old(st)))
                == Some(Some((views(ls@), st_view(*final(st))))),
            None => pre_listener(line@, env_view(*lookup, names@, rules@), st_view(*old(st)))
                == Some(None::<Done>) && *final(st) == *old(st),
        },
{
    match pat_create_exec(line, lookup, names, rules, st) {
        Some(ls) => return Some(ls),
        None => {},
    }
    match pat_class_name_exec(line, lookup, names, rules, st) {
        Some(ls) => return Some(ls),
        None => {},
    }
    match pat_value_get_exec(line, lookup, names, rules, st) {
        Some(ls) => return Some(ls),
        None => {},
    }
    match pat_value_set_exec(line, lookup, names, rules, st) {
        Some(ls) => return Some(ls),
        None => {},
    }
    match pat_text_exec(line, lookup, names, rules, st) {
        Some(ls) => return Some(ls),
        None => {},
    }
    match pat_child_exec(line, lookup, names, rules, st, true) {
        Some(ls) => return Some(ls),
        None => {},
    }
    match pat_child_exec(line, lookup, names, rules, st, false) {
        Some(ls) => return Some(ls),
        None => {},
    }
    match pat_return_exec(line, lookup, st) {
        Some(ls) => {
            assert(pat_return(line@, env_view(*lookup, names@, rules@), st_view(*st)) == Some(
                (views(ls@), st_view(*st)),
            ));
            return Some(ls);
        },
        None => {
            assert(pat_return(line@, env_view(*lookup, names@, rules@), st_view(*st)) is None);
        },
    }
    match pat_shared_exec(line, names, st) {
        Some(ls) => return Some(ls),
        None => {},
    }
    if crate::text::starts_with_lit(line, "var ") {
        let mut out: Vec<Vec<char>> = Vec::new();
        match super::jsexpr::translate_var_declaration(line) {
            Some(x) => {
                out.push(x);
                assert(views(out@) =~= seq![x@]);
            },
            None => {
                assert(views(out@) =~= Seq::<Seq<char>>::empty());
            },
        }
        return Some(out);
    }
    if (crate::text::starts_with_lit(line, "let ") || crate::text::starts_with_lit(line, "const "))
        && crate::text::has_char(line, '=') {
        let ls = pat_let_exec(line, lookup, st);
        assert(pat_let(line@, env_view(*lookup, names@, rules@), st_view(*old(st))) == (
            views(ls@),
            st_view(*st),
        ));
        return Some(ls);
    }
    None
}

pub(crate) fn post_listener_exec(
    line: &[char],
    lookup: &super::html::StrMap,
    names: &[String],
    rules: &[super::css::CssRule],
    st: &mut BodyState,
) -> (r: Vec<Vec<char>>)
    ensures
        post_listener(line@, env_view(*lookup, names@, rules@), st_view(*old(st))) == (
            views(r@),
            st_view(*final(st)),
        ),
{
    if crate::text::has_lit(line, ".classList.toggle(") {
        let ll = line.len();
        let pos = crate::text::find_lit(line, ".classList.toggle(").unwrap();
        proof {
            crate::text::lemma_find_seq(line@, ".classList.toggle("@);
        }
        let n = ".classList.toggle(".unicode_len();
        let cv = crate::text::trim_matches_chars(
            &crate::text::trim_matches_chars(
                &crate::text::trim_chars(
                    &crate::text::trim_end_matches_chars(
                        &crate::text::trim_end_matches_chars(
                            &crate::text::trim_chars(&crate::text::suffix(line, pos + n)),
                            ';',
                        ),
                        ')',
                    ),
                ),
                '\'',
            ),
            '"',
        );
        let target = crate::text::trim_chars(&crate::text::slice_of(line, 0, pos));
        assert(line@.subrange(0, pos as int) =~= line@.take(pos as int));
        let vn = resolve_with_locals(&target, lookup, &st.locals);
        let un = borrow_var_name(&vn, &st.scope);
        note_clone_exec(st, &vn);
        return toggle_exec(&vn, &un, &cv);
    }
    if crate::text::has_lit(line, "++") || crate::text::has_lit(line, "--") {
        match super::jsexpr::translate_increment(line) {
            Some(x) => return one(x),
            None => {},
        }
    }
    match super::jsexpr::translate_canvas_call(line) {
        Some(x) => return one(x),
        None => {},
    }
    if crate::text::has_lit(line, "instanceof") {
        return one(super::jsexpr::translate_instanceof(line));
    }
    if crate::text::has_lit(line, "queueMicrotask(") {
        match super::jsexpr::translate_queue_microtask(line) {
            Some(x) => return one(x),
            None => {},
        }
    }
    if line.len() > 0 && !crate::text::starts_with_lit(line, "//") {
        let mut l = chars_of("// ");
        crate::text::push_all(&mut l, line);
        crate::text::push_lit(&mut l, " // (JS → Rust)");
        return one(l);
    }
    let r: Vec<Vec<char>> = Vec::new();
    assert(views(r@) =~= Seq::<Seq<char>>::empty());
    r
}

pub(crate) fn toggle_exec(vn: &[char], un: &[char], cv: &[char]) -> (r: Vec<Vec<char>>)
    ensures
        views(r@) == toggle_lines(vn@, un@, cv@),
{
    let mut l1 = chars_of("let mut ");
    crate::text::push_all(&mut l1, vn);
    crate::text::push_lit(&mut l1, "_ref = ");
    crate::text::push_all(&mut l1, un);
    crate::text::push_lit(&mut l1, ".borrow_mut();");
    let mut l2 = chars_of("let current = ");
    crate::text::push_all(&mut l2, vn);
    crate::text::push_lit(&mut l2, "_ref.get_attribute(\"class\").unwrap_or_default();");
    let mut l3 = chars_of("if current.contains(\"");
    crate::text::push_all(&mut l3, cv);
    crate::text::push_lit(&mut l3, "\") {");
    let mut l4 = chars_of("    ");
    crate::text::push_all(&mut l4, vn);
    crate::text::push_lit(&mut l4, "_ref.set_attribute(\"class\", &current.replace(\" ");
    crate::text::push_all(&mut l4, cv);
    crate::text::push_lit(&mut l4, "\", \"\").replace(\"");
    crate::text::push_all(&mut l4, cv);
    crate::text::push_lit(&mut l4, "\", \"\"));");
    let mut l5 = chars_of("    ");
    crate::text::push_all(&mut l5, vn);
    crate::text::push_lit(&mut l5, "_ref.set_style(\"text-decoration: none; color: #333\");");
    let l6 = chars_of("} else {");
    let mut l7 = chars_of("    ");
    crate::text::push_all(&mut l7, vn);
    crate::text::push_lit(&mut l7, "_ref.set_attribute(\"class\", &format!(\"{} ");
    crate::text::push_all(&mut l7, cv);
    crate::text::push_lit(&mut l7, "\", current.trim()));");
    let mut l8 = chars_of("    ");
    crate::text::push_all(&mut l8, vn);
    crate::text::push_lit(&mut l8, "_ref.set_style(\"text-decoration: line-through; color: #999\");");
    let l9 = chars_of("}");
    let mut out = one(l1);
    append_lines(&mut out, one(l2));
    append_lines(&mut out, one(l3));
    append_lines(&mut out, one(l4));
    append_lines(&mut out, one(l5));
    append_lines(&mut out, one(l6));
    append_lines(&mut out, one(l7));
    append_lines(&mut out, one(l8));
    append_lines(&mut out, one(l9));
    assert(views(out@) =~= toggle_lines(vn@, un@, cv@));
    out
}

// ═══════════════════════ the handler body ═══════════════════════

/// The end of an `if` body from line `k` on: the first non-blank line
/// indented no deeper than the `if` (`ind` leading spaces).
pub open spec fn if_body_end(lines: Seq<Seq<char>>, k: int, ind: int) -> int
    decreases lines.len() - k,
{
    if k < 0 || k >= lines.len() {
        k
    } else if trim(lines[k]).len() == 0 {
        if_body_end(lines, k + 1, ind)
    } else if leading_ws(lines[k]) <= ind {
        k
    } else {
        if_body_end(lines, k + 1, ind)
    }
}

pub proof fn lemma_if_body_end(lines: Seq<Seq<char>>, k: int, ind: int)
    requires
        0 <= k <= lines.len(),
    ensures
        k <= if_body_end(lines, k, ind) <= lines.len(),
    decreases lines.len() - k,
{
    if k < lines.len() {
        lemma_if_body_end(lines, k + 1, ind);
    }
}

/// The trimmed lines from `j` on up to a line `);` or `)`, joined with
/// spaces after `acc`; and the index after that line.
pub open spec fn collect_until_close(lines: Seq<Seq<char>>, j: int, acc: Seq<char>) -> (Seq<char>, int)
    decreases lines.len() - j,
{
    if j < 0 || j >= lines.len() {
        (acc, j)
    } else {
        let nl = trim(lines[j]);
        if nl == ");"@ || nl == ")"@ {
            (acc, j + 1)
        } else {
            collect_until_close(
                lines,
                j + 1,
                if acc.len() > 0 {
                    acc + " "@ + nl
                } else {
                    acc + nl
                },
            )
        }
    }
}

pub proof fn lemma_collect(lines: Seq<Seq<char>>, j: int, acc: Seq<char>)
    requires
        0 <= j <= lines.len(),
    ensures
        j <= collect_until_close(lines, j, acc).1 <= lines.len(),
    decreases lines.len() - j,
{
    if j < lines.len() {
        let nl = trim(lines[j]);
        if !(nl == ");"@ || nl == ")"@) {
            lemma_collect(
                lines,
                j + 1,
                if acc.len() > 0 {
                    acc + " "@ + nl
                } else {
                    acc + nl
                },
            );
        }
    }
}

/// The event name quoted at the start of `after`: `None` when its quote is
/// not closed, empty when it is not quoted.
pub open spec fn event_type_spec(after: Seq<char>) -> Option<Seq<char>> {
    if after.len() > 0 && (after[0] == '\'' || after[0] == '"') {
        match find_char(after.skip(1), after[0]) {
            Some(p) => Some(after.subrange(1, p + 1)),
            None => None,
        }
    } else {
        Some(seq![])
    }
}

/// The statements of a one-line body: the non-blank pieces between `;`s,
/// trimmed, each with its `;`.
pub open spec fn stmt_pieces(ps: Seq<Seq<char>>) -> Seq<Seq<char>>
    decreases ps.len(),
{
    if ps.len() == 0 {
        seq![]
    } else {
        let prev = stmt_pieces(ps.drop_last());
        if trim(ps.last()).len() > 0 {
            prev.push(trim(ps.last()) + ";"@)
        } else {
            prev
        }
    }
}

/// The clones that a nested closure needs, and the renamings of the outer
/// clones it refers to.
pub open spec fn clone_decls(ics: Seq<Seq<char>>, locals: Set<Seq<char>>) -> (
    Seq<Seq<char>>,
    Seq<(Seq<char>, Seq<char>)>,
)
    decreases ics.len(),
{
    if ics.len() == 0 {
        (seq![], seq![])
    } else {
        let (ls, rn) = clone_decls(ics.drop_last(), locals);
        let ic = ics.last();
        let base = trim_end_matches_seq(ic, "_clone"@);
        if base == "doc"@ {
            (ls, rn)
        } else if !locals.contains(base) {
            let nn = ic + "_2"@;
            (ls.push("let "@ + nn + " = "@ + ic + ".clone();"@), rn.push((ic, nn)))
        } else {
            (ls.push("let "@ + ic + " = "@ + base + ".clone();"@), rn)
        }
    }
}

/// The counter clones that a nested closure needs, and their renamings.
pub open spec fn shared_decls(svs: Seq<Seq<char>>, locals: Set<Seq<char>>) -> (
    Seq<Seq<char>>,
    Seq<(Seq<char>, Seq<char>)>,
)
    decreases svs.len(),
{
    if svs.len() == 0 {
        (seq![], seq![])
    } else {
        let (ls, rn) = shared_decls(svs.drop_last(), locals);
        let sv = svs.last();
        if !locals.contains(sv) {
            let old_name = sv + "_clone"@;
            let nn = sv + "_clone_2"@;
            (ls.push("let "@ + nn + " = "@ + old_name + ".clone();"@), rn.push((old_name, nn)))
        } else {
            (ls.push("let "@ + sv + "_clone = "@ + sv + ".clone();"@), rn)
        }
    }
}

/// `s` with each renaming applied in turn.
pub open spec fn apply_renames(s: Seq<char>, rn: Seq<(Seq<char>, Seq<char>)>) -> Seq<char>
    decreases rn.len(),
{
    if rn.len() == 0 {
        s
    } else {
        replace_all(apply_renames(s, rn.drop_last()), rn.last().0, rn.last().1)
    }
}

/// A handler nested in a handler body, with the one-line body `text`: its
/// statements rewritten on their own (`fuel` bounds the nesting), the
/// clones it needs, and the closure registered on `un` for event `et`.
pub open spec fn nested_listener(
    fuel: nat,
    text: Seq<char>,
    env: EnvV,
    st: St,
    un: Seq<char>,
    et: Seq<char>,
) -> Option<Done>
    decreases fuel, 0nat, 0int,
{
    if fuel == 0 {
        None
    } else {
        match tr(
            (fuel - 1) as nat,
            stmt_pieces(split(text, ';')),
            0,
            env,
            (seq![], seq![], st.2, Set::empty()),
            seq![],
        ) {
            None => None,
            Some((io, ist)) => {
                let (cd, r1) = clone_decls(ist.0, st.2);
                let (sd, r2) = shared_decls(ist.1, st.2);
                let body = apply_renames(join(io, "\n"@), r1 + r2);
                Some(
                    (
                        cd + sd + seq![
                            un + ".borrow_mut().add_event_listener(\""@ + et
                                + "\", Box::new(move |_: &dom::Event| {"@,
                        ] + indent_lines(body) + seq!["}));"@],
                        st,
                    ),
                )
            },
        }
    }
}

/// A nested `addEventListener` on line `idx` (trimmed to `line`) for the
/// event `et`, then the lines after it.
pub open spec fn tr_listener(
    fuel: nat,
    lines: Seq<Seq<char>>,
    idx: int,
    line: Seq<char>,
    env: EnvV,
    st: St,
    out: Seq<Seq<char>>,
    et: Seq<char>,
) -> Option<(Seq<Seq<char>>, St)>
    decreases fuel, 1nat, 3 * (lines.len() - idx) - 2,
{
    if idx < 0 || idx >= lines.len() {
        None
    } else {
        let next = idx + 1;
        let pos = find_seq(line, ".addEventListener("@).unwrap();
        let after = line.skip(pos + ".addEventListener("@.len());
        match find_seq(after, "function"@) {
            None => {
                let (ls, st2) = post_listener(line, env, st);
                tr(fuel, lines, next, env, st2, out + ls)
            },
            Some(fs) => {
                let after_fn = after.skip(fs + "function"@.len());
                if after_fn.len() == 0 {
                    None
                } else {
                    let bs = match find_char(after_fn, ')') {
                        Some(p) => p + 1,
                        None => 1,
                    };
                    let ib0 = trim(trim_end_matches(trim_end_matches(trim(after_fn.skip(bs)), ';'), ')'));
                    let ib = trim(trim_end_matches(ib0, ')'));
                    let vn = rwl(trim(line.take(pos)), env.0, st.2);
                    let un = bvn(vn, st.3);
                    let st1 = (note_clone(st.0, vn, st.3), st.1, st.2, st.3);
                    if ib.len() == 0 {
                        let (col, j) = collect_until_close(lines, next, seq![]);
                        proof {
                            lemma_collect(lines, next, seq![]);
                        }
                        let c2 = trim_end_matches(trim(col), ';');
                        if col.len() > 0 && c2.len() > 0 {
                            match nested_listener(fuel, c2, env, st1, un, et) {
                                None => None,
                                Some((ls, st3)) => tr(fuel, lines, j, env, st3, out + ls),
                            }
                        } else {
                            let (ls, st3) = post_listener(line, env, st1);
                            tr(fuel, lines, j, env, st3, out + ls)
                        }
                    } else {
                        match nested_listener(fuel, ib, env, st1, un, et) {
                            None => None,
                            Some((ls, st3)) => tr(fuel, lines, next, env, st3, out + ls),
                        }
                    }
                }
            },
        }
    }
}

/// The Rust lines of a handler body from line `idx` on, after `out`, and
/// the state after them; `fuel` bounds the nesting of `if` bodies and
/// handlers. `None` when a statement cannot be rewritten (or the fuel runs
/// out).
#[verifier::opaque]
pub open spec fn tr(
    fuel: nat,
    lines: Seq<Seq<char>>,
    idx: int,
    env: EnvV,
    st: St,
    out: Seq<Seq<char>>,
) -> Option<(Seq<Seq<char>>, St)>
    decreases fuel, 1nat, 3 * (lines.len() - idx),
{
    if idx < 0 || idx >= lines.len() {
        Some((out, st))
    } else {
        tr_line(fuel, lines, idx, env, st, out)
    }
}

/// The statement on line `idx` (which exists), then the lines after it.
pub open spec fn tr_line(
    fuel: nat,
    lines: Seq<Seq<char>>,
    idx: int,
    env: EnvV,
    st: St,
    out: Seq<Seq<char>>,
) -> Option<(Seq<Seq<char>>, St)>
    decreases fuel, 1nat, 3 * (lines.len() - idx) - 1,
{
    if idx < 0 || idx >= lines.len() {
        None
    } else {
        let line = trim(lines[idx]);
        let next = idx + 1;
        if line.len() == 0 || line == "{"@ || line == "}"@ {
            tr(fuel, lines, next, env, st, out)
        } else if mentions(line, "function"@) && !mentions(line, ".addEventListener("@) {
            tr(fuel, lines, next, env, st, out)
        } else if starts_with(line, "if ("@) || starts_with(line, "if("@) {
            let cs = find_char(line, '(').unwrap() + 1;
            let ce = match rfind_char(line, ')') {
                Some(p) => p,
                None => line.len() as int,
            };
            let be = if_body_end(lines, next, leading_ws(lines[idx]));
            proof {
                lemma_if_body_end(lines, next, leading_ws(lines[idx]));
            }
            if cs > ce || fuel == 0 {
                None
            } else {
                match tr((fuel - 1) as nat, lines.subrange(next, be), 0, env, st, seq![]) {
                    None => None,
                    Some((io, st2)) => tr(
                        fuel,
                        lines,
                        be,
                        env,
                        st2,
                        out + seq!["if "@ + if_condition_spec(line.subrange(cs, ce)) + " {"@]
                            + indent_lines(join(io, "\n"@)) + seq!["}"@],
                    ),
                }
            }
        } else {
            match pre_listener(line, env, st) {
                None => None,
                Some(Some((ls, st2))) => tr(fuel, lines, next, env, st2, out + ls),
                Some(None) => if mentions(line, ".addEventListener("@) {
                    let pos = find_seq(line, ".addEventListener("@).unwrap();
                    match event_type_spec(line.skip(pos + ".addEventListener("@.len())) {
                        None => None,
                        Some(et) => tr_listener(fuel, lines, idx, line, env, st, out, et),
                    }
                } else {
                    let (ls, st2) = post_listener(line, env, st);
                    tr(fuel, lines, next, env, st2, out + ls)
                },
            }
        }
    }
}

pub proof fn lemma_tr_unfold(fuel: nat, lines: Seq<Seq<char>>, idx: int, env: EnvV, st: St, out: Seq<Seq<char>>)
    ensures
        0 <= idx < lines.len() ==> tr(fuel, lines, idx, env, st, out) == tr_line(fuel, lines, idx, env, st, out),
        !(0 <= idx < lines.len()) ==> tr(fuel, lines, idx, env, st, out) == Some((out, st)),
{
    reveal(tr);
}

} // verus!
