//! The Canvas 2D API: its mappings and how a call is compiled.
use vstd::prelude::*;

use super::builtins::{lookup_table, table_view, BuiltinMapping};
use crate::text::{chars_of, decimal, eq_str, replace_all, replace_chars, string_of};

verus! {

/// The entries of [`canvas_mappings`].
pub open spec fn canvas_table() -> Seq<(Seq<char>, Seq<char>)> {
    seq![
        ("canvas.getContext"@, "{0}.get_context_2d()"@),
        ("ctx.fillStyle"@, "{0}.set_fill_style({1})"@),
        ("ctx.strokeStyle"@, "{0}.set_stroke_style({1})"@),
        ("ctx.lineWidth"@, "{0}.set_line_width({1})"@),
        ("ctx.globalAlpha"@, "{0}.set_global_alpha({1})"@),
        ("ctx.font"@, "{0}.set_font({1})"@),
        ("ctx.textAlign"@, "{0}.set_text_align({1})"@),
        ("ctx.fillRect"@, "{0}.fill_rect({1}, {2}, {3}, {4})"@),
        ("ctx.strokeRect"@, "{0}.stroke_rect({1}, {2}, {3}, {4})"@),
        ("ctx.clearRect"@, "{0}.clear_rect({1}, {2}, {3}, {4})"@),
        ("ctx.beginPath"@, "{0}.begin_path()"@),
        ("ctx.moveTo"@, "{0}.move_to({1}, {2})"@),
        ("ctx.lineTo"@, "{0}.line_to({1}, {2})"@),
        ("ctx.rect"@, "{0}.rect({1}, {2}, {3}, {4})"@),
        ("ctx.arc"@, "{0}.arc({1}, {2}, {3}, {4}, {5})"@),
        ("ctx.fill"@, "{0}.fill()"@),
        ("ctx.stroke"@, "{0}.stroke()"@),
        ("ctx.save"@, "{0}.save()"@),
        ("ctx.restore"@, "{0}.restore()"@),
        ("ctx.translate"@, "{0}.translate({1}, {2})"@),
        ("ctx.rotate"@, "{0}.rotate({1})"@),
        ("ctx.scale"@, "{0}.scale({1}, {2})"@),
        ("ctx.setTransform"@, "{0}.set_transform({1}, {2}, {3}, {4}, {5}, {6})"@),
        ("ctx.fillText"@, "{0}.fill_text({1}, {2}, {3})"@),
        ("ctx.measureText"@, "{0}.measure_text({1})"@),
        ("ctx.drawImage"@, "{0}.draw_image(&{1}, {2}, {3})"@),
        ("canvas.toDataURL"@, "{0}.to_data_url()"@),
    ]
}

/// The Canvas 2D API.
pub fn canvas_mappings() -> (r: Vec<BuiltinMapping>)
    ensures
        table_view(r@) == canvas_table(),
{
    let r = vec![
        BuiltinMapping { js_api: "canvas.getContext", rust_impl: "{0}.get_context_2d()" },
        BuiltinMapping { js_api: "ctx.fillStyle", rust_impl: "{0}.set_fill_style({1})" },
        BuiltinMapping { js_api: "ctx.strokeStyle", rust_impl: "{0}.set_stroke_style({1})" },
        BuiltinMapping { js_api: "ctx.lineWidth", rust_impl: "{0}.set_line_width({1})" },
        BuiltinMapping { js_api: "ctx.globalAlpha", rust_impl: "{0}.set_global_alpha({1})" },
        BuiltinMapping { js_api: "ctx.font", rust_impl: "{0}.set_font({1})" },
        BuiltinMapping { js_api: "ctx.textAlign", rust_impl: "{0}.set_text_align({1})" },
        BuiltinMapping { js_api: "ctx.fillRect", rust_impl: "{0}.fill_rect({1}, {2}, {3}, {4})" },
        BuiltinMapping { js_api: "ctx.strokeRect", rust_impl: "{0}.stroke_rect({1}, {2}, {3}, {4})" },
        BuiltinMapping { js_api: "ctx.clearRect", rust_impl: "{0}.clear_rect({1}, {2}, {3}, {4})" },
        BuiltinMapping { js_api: "ctx.beginPath", rust_impl: "{0}.begin_path()" },
        BuiltinMapping { js_api: "ctx.moveTo", rust_impl: "{0}.move_to({1}, {2})" },
        BuiltinMapping { js_api: "ctx.lineTo", rust_impl: "{0}.line_to({1}, {2})" },
        BuiltinMapping { js_api: "ctx.rect", rust_impl: "{0}.rect({1}, {2}, {3}, {4})" },
        BuiltinMapping { js_api: "ctx.arc", rust_impl: "{0}.arc({1}, {2}, {3}, {4}, {5})" },
        BuiltinMapping { js_api: "ctx.fill", rust_impl: "{0}.fill()" },
        BuiltinMapping { js_api: "ctx.stroke", rust_impl: "{0}.stroke()" },
        BuiltinMapping { js_api: "ctx.save", rust_impl: "{0}.save()" },
        BuiltinMapping { js_api: "ctx.restore", rust_impl: "{0}.restore()" },
        BuiltinMapping { js_api: "ctx.translate", rust_impl: "{0}.translate({1}, {2})" },
        BuiltinMapping { js_api: "ctx.rotate", rust_impl: "{0}.rotate({1})" },
        BuiltinMapping { js_api: "ctx.scale", rust_impl: "{0}.scale({1}, {2})" },
        BuiltinMapping { js_api: "ctx.setTransform", rust_impl: "{0}.set_transform({1}, {2}, {3}, {4}, {5}, {6})" },
        BuiltinMapping { js_api: "ctx.fillText", rust_impl: "{0}.fill_text({1}, {2}, {3})" },
        BuiltinMapping { js_api: "ctx.measureText", rust_impl: "{0}.measure_text({1})" },
        BuiltinMapping { js_api: "ctx.drawImage", rust_impl: "{0}.draw_image(&{1}, {2}, {3})" },
        BuiltinMapping { js_api: "canvas.toDataURL", rust_impl: "{0}.to_data_url()" },
    ];
    assert(table_view(r@) =~= canvas_table());
    r
}

/// The placeholder for argument `n` in a template: `{n}`.
pub open spec fn placeholder(n: nat) -> Seq<char> {
    seq!['{'] + decimal(n) + seq!['}']
}

/// A template with `{1}`, `{2}`, .. replaced by the arguments, one after
/// another.
pub open spec fn fill_args(s: Seq<char>, args: Seq<Seq<char>>) -> Seq<char>
    decreases args.len(),
{
    if args.len() == 0 {
        s
    } else {
        replace_all(fill_args(s, args.drop_last()), placeholder(args.len()), args.last())
    }
}

/// Whether an argument is an integer literal: an optional `-`, then one or
/// more ASCII digits.
pub open spec fn int_literal(a: Seq<char>) -> bool {
    unsigned_digits(a).len() > 0 && all_digits(unsigned_digits(a))
}

/// The text after an optional leading `-`.
pub open spec fn unsigned_digits(a: Seq<char>) -> Seq<char> {
    if a.len() > 0 && a[0] == '-' {
        a.drop_first()
    } else {
        a
    }
}

/// Whether every character is an ASCII digit.
pub open spec fn all_digits(d: Seq<char>) -> bool {
    forall|i: int| 0 <= i < d.len() ==> '0' <= #[trigger] d[i] <= '9'
}

/// An argument as the canvas methods take it, a floating-point number: an
/// integer literal gets `.0`, any other argument stays as written.
pub open spec fn float_arg(a: Seq<char>) -> Seq<char> {
    if int_literal(a) {
        a + seq!['.', '0']
    } else {
        a
    }
}

fn is_int_literal(a: &[char]) -> (b: bool)
    ensures
        b == int_literal(a@),
{
    let start: usize = if a.len() > 0 && a[0] == '-' { 1 } else { 0 };
    let ghost d = unsigned_digits(a@);
    assert(d =~= a@.skip(start as int));
    if start >= a.len() {
        return false;
    }
    let mut i: usize = start;
    while i < a.len()
        invariant
            start <= i <= a@.len(),
            start < a@.len(),
            d == a@.skip(start as int),
            d == unsigned_digits(a@),
            forall|j: int| 0 <= j < i - start ==> '0' <= #[trigger] d[j] <= '9',
        decreases a.len() - i,
    {
        if !('0' <= a[i] && a[i] <= '9') {
            assert(d[i - start] == a@[i as int]);
            assert(!('0' <= d[i - start] <= '9'));
            assert(!all_digits(d));
            return false;
        }
        i += 1;
    }
    true
}

/// The Rust statement for the context method `method`: its template, with
/// `{0}` replaced by the context variable and `{1}`, `{2}`, .. by the
/// arguments as floating-point numbers (`10` becomes `10.0`), and a `;` at
/// the end.
pub open spec fn canvas_call_spec(method: Seq<char>, args: Seq<Seq<char>>, ctx_var: Seq<char>) -> Option<
    Seq<char>,
> {
    match lookup_table(canvas_table(), seq!['c', 't', 'x', '.'] + method) {
        Some(t) => Some(
            fill_args(replace_all(t, seq!['{', '0', '}'], ctx_var), args.map_values(|a: Seq<char>| float_arg(a)))
                + seq![';'],
        ),
        None => None,
    }
}

/// Compiles a call `ctx.method(args)` to Rust, when the method is mapped.
pub fn compile_canvas_call(method: &str, args: &[String], ctx_var: &str) -> (r: Option<String>)
    ensures
        r matches Some(s) ==> canvas_call_spec(method@, args@.map_values(|a: String| a@), ctx_var@)
            == Some(s@),
        r is None ==> canvas_call_spec(method@, args@.map_values(|a: String| a@), ctx_var@) is None,
{
    let mappings = canvas_mappings();
    let mut key: Vec<char> = vec!['c', 't', 'x', '.'];
    let mut mv = chars_of(method);
    key.append(&mut mv);
    let key_s = string_of(&key);
    let ghost t = table_view(mappings@);
    let ghost av = args@.map_values(|a: String| float_arg(a@));
    let mut i: usize = 0;
    proof {
        assert(t.skip(0) =~= t);
    }
    while i < mappings.len()
        invariant
            i <= mappings@.len(),
            t == table_view(mappings@),
            t == canvas_table(),
            av == args@.map_values(|a: String| float_arg(a@)),
            key_s@ == seq!['c', 't', 'x', '.'] + method@,
            lookup_table(t, key_s@) == lookup_table(t.skip(i as int), key_s@),
        decreases mappings.len() - i,
    {
        proof {
            assert(t.skip(i as int)[0] == t[i as int]);
            assert(t.skip(i as int).drop_first() =~= t.skip(i + 1));
        }
        assert(t[i as int] == (mappings@[i as int].js_api@, mappings@[i as int].rust_impl@));
        if eq_str(mappings[i].js_api, key_s.as_str()) {
            let tmpl = chars_of(mappings[i].rust_impl);
            let zero: Vec<char> = vec!['{', '0', '}'];
            let ctx = chars_of(ctx_var);
            let mut rust = replace_chars(&tmpl, &zero, &ctx);
            let ghost base = rust@;
            let mut k: usize = 0;
            let nargs = args.len();
            proof {
                assert(av.take(0) =~= Seq::<Seq<char>>::empty());
            }
            while k < nargs
                invariant
                    k <= args@.len(),
                    nargs == args@.len(),
                    av == args@.map_values(|a: String| float_arg(a@)),
                    rust@ == fill_args(base, av.take(k as int)),
                decreases nargs - k,
            {
                let mut ph: Vec<char> = vec!['{'];
                let mut digits = chars_of(crate::text::u64_to_decimal((k + 1) as u64).as_str());
                ph.append(&mut digits);
                ph.push('}');
                let mut a = chars_of(args[k].as_str());
                if is_int_literal(&a) {
                    a.push('.');
                    a.push('0');
                }
                proof {
                    assert(ph@ =~= placeholder((k + 1) as nat));
                    assert(av.take(k + 1).drop_last() =~= av.take(k as int));
                    assert(av.take(k + 1).last() == float_arg(args@[k as int]@));
                    assert(a@ =~= float_arg(args@[k as int]@));
                }
                rust = replace_chars(&rust, &ph, &a);
                k += 1;
            }
            assert(av.take(args@.len() as int) =~= av);
            assert(av =~= args@.map_values(|a: String| a@).map_values(|a: Seq<char>| float_arg(a)));
            rust.push(';');
            return Some(string_of(&rust));
        }
        i += 1;
    }
    None
}

/// The context methods that the compiler recognises as Canvas calls.
pub open spec fn canvas_methods() -> Seq<Seq<char>> {
    seq![
        "fillRect"@, "strokeRect"@, "clearRect"@, "beginPath"@, "moveTo"@, "lineTo"@, "rect"@,
        "arc"@, "fill"@, "stroke"@, "save"@, "restore"@, "translate"@, "rotate"@, "scale"@,
        "setTransform"@, "fillText"@, "measureText"@, "drawImage"@,
    ]
}

/// Whether `method` is a Canvas 2D context method.
pub fn is_canvas_call(method: &str) -> (r: bool)
    ensures
        r == canvas_methods().contains(method@),
{
    let names: [&str; 19] = [
        "fillRect", "strokeRect", "clearRect", "beginPath", "moveTo", "lineTo", "rect", "arc",
        "fill", "stroke", "save", "restore", "translate", "rotate", "scale", "setTransform",
        "fillText", "measureText", "drawImage",
    ];
    let ghost cm = canvas_methods();
    assert(forall|j: int| 0 <= j < 19 ==> names@[j]@ == #[trigger] cm[j]);
    let mut i: usize = 0;
    while i < 19
        invariant
            i <= 19,
            cm == canvas_methods(),
            forall|j: int| 0 <= j < 19 ==> names@[j]@ == #[trigger] cm[j],
            forall|j: int| 0 <= j < i ==> cm[j] != method@,
        decreases 19 - i,
    {
        if eq_str(names[i], method) {
            assert(cm[i as int] == method@);
            return true;
        }
        i += 1;
    }
    false
}

} // verus!
