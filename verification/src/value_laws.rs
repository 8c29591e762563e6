//! What the value readers and the specificity rules mean, stated over all
//! inputs of each form.
use vstd::prelude::*;

use crate::runtime::cascade::{color_spec, hex_val, is_hex_digit};
use crate::runtime::selector_match::{nth_args_spec, nth_spec};
use crate::style::selector::{
    an_b_matches, an_b_spec, parsed_weight, part_weight, parts_weight, AttrOpV, ParsedV, PartV, PseudoV, SegV,
};
use crate::text::{replace_all, trim, trim_end_matches};
use crate::toolchain::jsbody::{pat_shared, push_unique, St};
use crate::toolchain::html::{
    add_text, attach, attach_all, collect_from, html_spec, is_ignored, kept_top, rpos, skip_ignored,
    tokens_from, ElemV, TokenV,
};
use crate::text::lowercase_of;

verus! {

// ═══════════════════════ specificity of `:is`, `:where`, `:has` ═══════════════════════

/// Lexicographic order of specificities: ids first, then classes, then
/// tags.
pub open spec fn spec_at_most(a: (int, int, int), b: (int, int, int)) -> bool {
    a.0 < b.0 || (a.0 == b.0 && a.1 < b.1) || (a.0 == b.0 && a.1 == b.1 && a.2 <= b.2)
}

proof fn lemma_heaviest_is_max(l: Seq<ParsedV>)
    ensures
        l.len() == 0 ==> crate::style::selector::heaviest(l) == (0int, 0int, 0int),
        l.len() > 0 ==> exists|i: int|
            0 <= i < l.len() && crate::style::selector::heaviest(l) == parsed_weight(#[trigger] l[i]),
        forall|i: int|
            0 <= i < l.len() ==> spec_at_most(parsed_weight(#[trigger] l[i]), crate::style::selector::heaviest(l)),
    decreases l.len(),
{
    if l.len() > 0 {
        let p = l.drop_last();
        lemma_heaviest_is_max(p);
        let m = crate::style::selector::heaviest(p);
        let x = parsed_weight(l.last());
        assert(crate::style::selector::heaviest(l) == if crate::style::selector::lex_le(m, x) { x } else { m });
        assert forall|i: int| 0 <= i < l.len() implies spec_at_most(
            parsed_weight(#[trigger] l[i]),
            crate::style::selector::heaviest(l),
        ) by {
            if i < l.len() - 1 {
                assert(l[i] == p[i]);
                assert(spec_at_most(parsed_weight(p[i]), m));
            }
        }
        if crate::style::selector::lex_le(m, x) {
            assert(crate::style::selector::heaviest(l) == parsed_weight(l[l.len() - 1]));
        } else {
            crate::style::selector::lemma_parsed_weight_bound(l.last());
            assert(p.len() > 0);
            let j = choose|j: int| 0 <= j < p.len() && m == parsed_weight(#[trigger] p[j]);
            assert(l[j] == p[j]);
            assert(crate::style::selector::heaviest(l) == parsed_weight(l[j]));
        }
    }
}

/// `:is(L)` counts as the heaviest selector of `L`: its weight is the weight
/// of one of them and no selector of `L` outweighs it, in the order ids,
/// classes, tags; with nothing in `L` it counts nothing. `:where(L)` and
/// `:has(S)` count nothing, and any other pseudo-class counts as one class.
pub proof fn law_is_counts_its_heaviest(l: Seq<ParsedV>, s: ParsedV)
    ensures
        l.len() == 0 ==> part_weight(PartV::PseudoClass(PseudoV::Is(l))) == (0int, 0int, 0int),
        l.len() > 0 ==> exists|i: int|
            0 <= i < l.len() && part_weight(PartV::PseudoClass(PseudoV::Is(l))) == parsed_weight(#[trigger] l[i]),
        forall|i: int|
            0 <= i < l.len() ==> spec_at_most(
                parsed_weight(#[trigger] l[i]),
                part_weight(PartV::PseudoClass(PseudoV::Is(l))),
            ),
        part_weight(PartV::PseudoClass(PseudoV::Where(l))) == (0int, 0int, 0int),
        part_weight(PartV::PseudoClass(PseudoV::Has(Box::new(s)))) == (0int, 0int, 0int),
        part_weight(PartV::PseudoClass(PseudoV::Hover)) == (0int, 1int, 0int),
{
    lemma_heaviest_is_max(l);
}

/// The specificity of a parsed selector adds up over its compound
/// selectors and over their simple selectors: an id counts `(1, 0, 0)`, a
/// class or an attribute selector `(0, 1, 0)`, a tag `(0, 0, 1)`, and a
/// selector with nothing in it counts nothing.
pub proof fn law_specificity_adds_up(segs: Seq<SegV>, g: SegV, ps: Seq<PartV>, p: PartV, name: Seq<char>, op: AttrOpV)
    ensures
        parsed_weight(ParsedV { segments: seq![] }) == (0int, 0int, 0int),
        parsed_weight(ParsedV { segments: segs.push(g) }) == ({
            let a = parsed_weight(ParsedV { segments: segs });
            let b = parts_weight(g.parts);
            (a.0 + b.0, a.1 + b.1, a.2 + b.2)
        }),
        parts_weight(ps.push(p)) == ({
            let a = parts_weight(ps);
            let b = part_weight(p);
            (a.0 + b.0, a.1 + b.1, a.2 + b.2)
        }),
        part_weight(PartV::Id(name)) == (1int, 0int, 0int),
        part_weight(PartV::Class(name)) == (0int, 1int, 0int),
        part_weight(PartV::Attribute { name, op }) == (0int, 1int, 0int),
        part_weight(PartV::Tag(name)) == (0int, 0int, 1int),
{
    assert(segs.push(g).drop_last() =~= segs);
    assert(ps.push(p).drop_last() =~= ps);
}

// ═══════════════════════ `even` and `odd` ═══════════════════════

/// The `a` of the `(a, b)` that an `:nth-*` argument reads as.
pub open spec fn nth_a(s: Seq<char>) -> int {
    match nth_args_spec(s) {
        Some((a, _)) => a as int,
        None => 0,
    }
}

/// The `b` of the `(a, b)` that an `:nth-*` argument reads as.
pub open spec fn nth_b(s: Seq<char>) -> int {
    match nth_args_spec(s) {
        Some((_, b)) => b as int,
        None => 0,
    }
}

/// `:nth-child(even)` (and the other `:nth-*` forms) reads its argument as
/// the even positions, and `odd` as the odd ones: whatever white space
/// surrounds the keyword, the `(a, b)` read matches a position from 0 on
/// exactly when it is even, respectively odd.
pub proof fn law_nth_even_odd(s: Seq<char>)
    requires
        trim(s).len() >= 2,
        trim(s)[0] == '(',
        trim(s).last() == ')',
        trim(trim(s).drop_first().drop_last()) == "even"@ || trim(trim(s).drop_first().drop_last()) == "odd"@,
    ensures
        nth_args_spec(s) is Some,
        forall|p: int|
            p >= 0 ==> (nth_spec(p, nth_a(s), nth_b(s)) <==> (p % 2
                == if trim(trim(s).drop_first().drop_last()) == "even"@ {
                0int
            } else {
                1int
            })),
{
    reveal_strlit("even");
    reveal_strlit("odd");
    let inner = trim(trim(s).drop_first().drop_last());
    if inner == "odd"@ {
        assert(inner != "even"@) by {
            assert(inner.len() != "even"@.len());
        }
    }
}

/// An `:nth-*` argument that is one integer `n` matches exactly the
/// position `n`.
pub proof fn law_nth_single_position(s: Seq<char>, n: i32)
    requires
        trim(s).len() >= 2,
        trim(s)[0] == '(',
        trim(s).last() == ')',
        crate::text::parse_i32_spec(trim(trim(s).drop_first().drop_last())) == Some(n),
        trim(trim(s).drop_first().drop_last()) != "even"@,
        trim(trim(s).drop_first().drop_last()) != "odd"@,
    ensures
        nth_args_spec(s) is Some,
        forall|p: int| nth_spec(p, nth_a(s), nth_b(s)) <==> p == n,
{
}

/// The style readers' `an+b` argument reads `even` as the even positions
/// and `odd` as the odd ones, whatever white space surrounds it.
pub proof fn law_an_b_even_odd(x: Seq<char>)
    requires
        trim(x) == "even"@ || trim(x) == "odd"@,
    ensures
        forall|p: int|
            p >= 0 ==> (an_b_matches(an_b_spec(x).0 as int, an_b_spec(x).1 as int, p) <==> (p % 2 == if trim(x)
                == "even"@ {
                0int
            } else {
                1int
            })),
{
    reveal_strlit("even");
    reveal_strlit("odd");
    assert("even"@ =~= seq!['e', 'v', 'e', 'n']);
    assert("odd"@ =~= seq!['o', 'd', 'd']);
}

// ═══════════════════════ hexadecimal colours ═══════════════════════

proof fn lemma_ascii_len(s: Seq<char>)
    requires
        forall|i: int| 0 <= i < s.len() ==> is_hex_digit(#[trigger] s[i]),
    ensures
        crate::text::utf8_len(s) == s.len(),
    decreases s.len(),
{
    if s.len() > 0 {
        lemma_ascii_len(s.drop_last());
        assert(is_hex_digit(s[s.len() - 1]));
    }
}

/// The value of two hexadecimal digits, the first the high one.
pub open spec fn byte_of(hi: char, lo: char) -> int {
    hex_val(hi) * 16 + hex_val(lo)
}

proof fn lemma_hex_val_range(c: char)
    requires
        is_hex_digit(c),
    ensures
        0 <= hex_val(c) < 16,
{
}

proof fn lemma_hex6(d: Seq<char>)
    requires
        d.len() == 6,
        forall|i: int| 0 <= i < 6 ==> is_hex_digit(#[trigger] d[i]),
    ensures
        crate::runtime::cascade::hex_digits_value(d) == byte_of(d[0], d[1]) * 0x1_0000 + byte_of(d[2], d[3])
            * 0x100 + byte_of(d[4], d[5]),
        crate::runtime::cascade::hex_u32_spec(d) == Some(
            (byte_of(d[0], d[1]) * 0x1_0000 + byte_of(d[2], d[3]) * 0x100 + byte_of(d[4], d[5])) as u32,
        ),
{
    let v0 = hex_val(d[0]);
    let v1 = hex_val(d[1]);
    let v2 = hex_val(d[2]);
    let v3 = hex_val(d[3]);
    let v4 = hex_val(d[4]);
    let v5 = hex_val(d[5]);
    lemma_hex_val_range(d[0]);
    lemma_hex_val_range(d[1]);
    lemma_hex_val_range(d[2]);
    lemma_hex_val_range(d[3]);
    lemma_hex_val_range(d[4]);
    lemma_hex_val_range(d[5]);
    let h = |k: int| crate::runtime::cascade::hex_digits_value(d.take(k));
    assert(d.take(0) =~= Seq::<char>::empty());
    assert(d.take(1).drop_last() =~= d.take(0));
    assert(d.take(2).drop_last() =~= d.take(1));
    assert(d.take(3).drop_last() =~= d.take(2));
    assert(d.take(4).drop_last() =~= d.take(3));
    assert(d.take(5).drop_last() =~= d.take(4));
    assert(d.take(6).drop_last() =~= d.take(5));
    assert(d.take(6) =~= d);
    assert(h(0) == 0);
    assert(h(1) == v0);
    assert(h(2) == v0 * 16 + v1);
    assert(h(3) == (v0 * 16 + v1) * 16 + v2);
    assert(h(4) == ((v0 * 16 + v1) * 16 + v2) * 16 + v3);
    assert(h(5) == (((v0 * 16 + v1) * 16 + v2) * 16 + v3) * 16 + v4);
    assert(h(6) == ((((v0 * 16 + v1) * 16 + v2) * 16 + v3) * 16 + v4) * 16 + v5);
    assert(h(6) == byte_of(d[0], d[1]) * 0x1_0000 + byte_of(d[2], d[3]) * 0x100 + byte_of(d[4], d[5]))
        by (nonlinear_arith)
        requires
            h(6) == ((((v0 * 16 + v1) * 16 + v2) * 16 + v3) * 16 + v4) * 16 + v5,
            v0 == hex_val(d[0]),
            v1 == hex_val(d[1]),
            v2 == hex_val(d[2]),
            v3 == hex_val(d[3]),
            v4 == hex_val(d[4]),
            v5 == hex_val(d[5]),
    ;
    assert(byte_of(d[0], d[1]) * 0x1_0000 + byte_of(d[2], d[3]) * 0x100 + byte_of(d[4], d[5]) < 0x100_0000)
        by (nonlinear_arith)
        requires
            0 <= v0 < 16,
            0 <= v1 < 16,
            0 <= v2 < 16,
            0 <= v3 < 16,
            0 <= v4 < 16,
            0 <= v5 < 16,
            v0 == hex_val(d[0]),
            v1 == hex_val(d[1]),
            v2 == hex_val(d[2]),
            v3 == hex_val(d[3]),
            v4 == hex_val(d[4]),
            v5 == hex_val(d[5]),
    ;
    assert(d[0] != '+');
}

proof fn lemma_hex1(c: char)
    requires
        is_hex_digit(c),
    ensures
        crate::runtime::cascade::hex_u32_spec(seq![c]) == Some(hex_val(c) as u32),
{
    lemma_hex_val_range(c);
    assert(seq![c].drop_last() =~= Seq::<char>::empty());
    assert(seq![c].last() == c);
    assert(crate::runtime::cascade::hex_digits_value(Seq::<char>::empty()) == 0);
    assert(crate::runtime::cascade::hex_digits_value(seq![c]) == hex_val(c));
    assert(seq![c][0] != '+');
}

proof fn lemma_not_a_name(v: Seq<char>)
    requires
        v.len() > 0,
        v[0] == '#',
    ensures
        v != "black"@ && v != "white"@ && v != "red"@ && v != "green"@ && v != "blue"@ && v != "transparent"@,
{
    reveal_strlit("black");
    reveal_strlit("white");
    reveal_strlit("red");
    reveal_strlit("green");
    reveal_strlit("blue");
    reveal_strlit("transparent");
}

/// `#rrggbb` is the opaque colour whose red, green and blue bytes are
/// written in that order: the first pair sets red, the second green, the
/// third blue.
pub proof fn law_hex6_color(r1: char, r2: char, g1: char, g2: char, b1: char, b2: char)
    requires
        is_hex_digit(r1) && is_hex_digit(r2) && is_hex_digit(g1) && is_hex_digit(g2) && is_hex_digit(b1)
            && is_hex_digit(b2),
    ensures
        color_spec(seq!['#', r1, r2, g1, g2, b1, b2]) == Some(
            (0xFF00_0000 + byte_of(r1, r2) * 0x1_0000 + byte_of(g1, g2) * 0x100 + byte_of(b1, b2)) as u32,
        ),
{
    let six = seq![r1, r2, g1, g2, b1, b2];
    let v6 = seq!['#', r1, r2, g1, g2, b1, b2];
    assert(v6.drop_first() =~= six);
    lemma_ascii_len(six);
    lemma_not_a_name(v6);
    lemma_hex6(six);
    lemma_hex_val_range(r1);
}

/// `#rgb` is the same colour as `#rrggbb`: each digit stands for the pair
/// of it, red first.
pub proof fn law_hex3_color(r: char, g: char, b: char)
    requires
        is_hex_digit(r) && is_hex_digit(g) && is_hex_digit(b),
    ensures
        color_spec(seq!['#', r, g, b]) == color_spec(seq!['#', r, r, g, g, b, b]),
{
    let three = seq![r, g, b];
    let v3 = seq!['#', r, g, b];
    assert(v3.drop_first() =~= three);
    lemma_ascii_len(three);
    lemma_not_a_name(v3);
    assert(three.subrange(0, 1) =~= seq![r]);
    assert(three.subrange(1, 2) =~= seq![g]);
    assert(three.subrange(2, 3) =~= seq![b]);
    lemma_hex1(r);
    lemma_hex1(g);
    lemma_hex1(b);
    law_hex6_color(r, r, g, g, b, b);
    assert(byte_of(r, r) == hex_val(r) * 0x11);
    assert(byte_of(g, g) == hex_val(g) * 0x11);
    assert(byte_of(b, b) == hex_val(b) * 0x11);
}

// ═══════════════════════ shared counters ═══════════════════════

/// A statement with its spaces taken out and its final `;`s dropped.
pub open spec fn squeezed(line: Seq<char>) -> Seq<char> {
    trim_end_matches(replace_all(line, " "@, seq![]), ';')
}

/// `v = v - 1;` on a shared counter `v` (spaces anywhere) becomes the Rust
/// statement that takes one from the counter's cell, and `v = v + 1;` the
/// one that adds one; either way the counter is recorded as used by the
/// handler.
pub proof fn law_counter_steps(v: Seq<char>, names: Seq<Seq<char>>, st: St, line: Seq<char>)
    requires
        names.len() > 0,
        names[0] == v,
        squeezed(line) == v + "="@ + v + "-1"@ || squeezed(line) == v + "="@ + v + "+1"@,
    ensures
        squeezed(line) == v + "="@ + v + "-1"@ ==> pat_shared(line, names, 0, st) == Some(
            (seq!["*"@ + v + "_clone.borrow_mut() -= 1;"@], (st.0, push_unique(st.1, v), st.2, st.3)),
        ),
        squeezed(line) == v + "="@ + v + "+1"@ ==> pat_shared(line, names, 0, st) == Some(
            (seq!["*"@ + v + "_clone.borrow_mut() += 1;"@], (st.0, push_unique(st.1, v), st.2, st.3)),
        ),
        "*"@ + v + "_clone.borrow_mut() -= 1;"@ != "*"@ + v + "_clone.borrow_mut() += 1;"@,
{
    reveal_strlit("=");
    reveal_strlit("-1");
    reveal_strlit("+1");
    reveal_strlit("*");
    reveal_strlit("_clone.borrow_mut() -= 1;");
    reveal_strlit("_clone.borrow_mut() += 1;");
    let dec = v + "="@ + v + "-1"@;
    let inc = v + "="@ + v + "+1"@;
    let k: int = 2 * (v.len() as int) + 1;
    assert(dec[k] == '-');
    assert(inc[k] == '+');
    assert(dec != inc);
    let a = "*"@ + v + "_clone.borrow_mut() -= 1;"@;
    let c = "*"@ + v + "_clone.borrow_mut() += 1;"@;
    let j: int = 1 + (v.len() as int) + 20;
    assert(a[j] == '-');
    assert(c[j] == '+');
}

/// `v = N;` on a shared counter `v`, with `N` an integer, becomes the Rust
/// statement that sets the counter's cell to `N`.
pub proof fn law_counter_set(v: Seq<char>, names: Seq<Seq<char>>, st: St, line: Seq<char>, num: Seq<char>)
    requires
        names.len() > 0,
        names[0] == v,
        squeezed(line) == v + "="@ + num,
        crate::text::parse_i32_spec(num) is Some,
        forall|i: int| 0 <= i < num.len() ==> num[i] != '+' && num[i] != '-',
        forall|i: int| 0 <= i < v.len() ==> v[i] != '+' && v[i] != '-',
    ensures
        pat_shared(line, names, 0, st) == Some(
            (seq!["*"@ + v + "_clone.borrow_mut() = "@ + num + ";"@], (st.0, push_unique(st.1, v), st.2, st.3)),
        ),
{
    reveal_strlit("=");
    reveal_strlit("-1");
    reveal_strlit("+1");
    reveal_strlit("++");
    reveal_strlit("--");
    let c = v + "="@ + num;
    assert(c.skip(v.len() as int + 1) =~= num);
    assert(c.take(v.len() as int + 1) =~= v + "="@);
    let inc = v + "="@ + v + "+1"@;
    let dec = v + "="@ + v + "-1"@;
    if c == inc {
        assert(c[c.len() - 2] == '+');
        assert(num[num.len() - 2] == c[c.len() - 2]);
    }
    if c == dec {
        assert(c[c.len() - 2] == '-');
        assert(num[num.len() - 2] == c[c.len() - 2]);
    }
    crate::text::lemma_find_seq(c, "++"@);
    crate::text::lemma_find_seq(c, "--"@);
    if crate::toolchain::jsbody::mentions(c, "++"@) {
        let k = crate::text::find_seq(c, "++"@)->0;
        assert(c.subrange(k, k + 2)[0] == c[k]);
        assert(c[k] == '+');
    }
    if crate::toolchain::jsbody::mentions(c, "--"@) {
        let k = crate::text::find_seq(c, "--"@)->0;
        assert(c.subrange(k, k + 2)[0] == c[k]);
        assert(c[k] == '-');
    }
}

// ═══════════════════════ void elements ═══════════════════════

/// The HTML elements that never have contents.
pub open spec fn void_name(n: Seq<char>) -> bool {
    n == "br"@ || n == "hr"@ || n == "img"@ || n == "input"@ || n == "meta"@ || n == "link"@ || n
        == "area"@ || n == "base"@ || n == "col"@ || n == "embed"@ || n == "source"@ || n == "track"@
        || n == "wbr"@
}

/// The name of the `k`-th token when it opens an element that can have
/// contents.
pub open spec fn open_name_at(ts: Seq<TokenV>, k: int) -> Option<Seq<char>> {
    if 0 <= k < ts.len() {
        match ts[k] {
            TokenV::Open { name, self_closing, .. } => if self_closing {
                None
            } else {
                Some(name)
            },
            _ => None,
        }
    } else {
        None
    }
}

/// Whether `t` is the tag of an element that a token of `ts` opens with
/// room for contents.
pub open spec fn opened(ts: Seq<TokenV>, t: Seq<char>) -> bool {
    exists|k: int| #[trigger] open_name_at(ts, k) is Some && t == lowercase_of(open_name_at(ts, k)->0)
}

/// Whether every element of the tree `e` that has children was opened by
/// a token of `ts` with room for contents.
pub open spec fn tree_ok(ts: Seq<TokenV>, e: ElemV) -> bool
    decreases e,
{
    &&& (e.children.len() > 0 ==> opened(ts, e.tag))
    &&& forall|i: int| 0 <= i < e.children.len() ==> tree_ok(ts, #[trigger] e.children[i])
}

/// An open element of the tree being built: opened with room for contents,
/// its children well made.
pub open spec fn open_ok(ts: Seq<TokenV>, e: ElemV) -> bool {
    &&& opened(ts, e.tag)
    &&& forall|i: int| 0 <= i < e.children.len() ==> tree_ok(ts, #[trigger] e.children[i])
}

/// Whether every element of the tree `e` that has children has the tag
/// of a name that is not a void element's.
pub open spec fn no_void_parent(e: ElemV) -> bool
    decreases e,
{
    &&& (e.children.len() > 0 ==> exists|n: Seq<char>| !void_name(n) && e.tag == lowercase_of(n))
    &&& forall|i: int| 0 <= i < e.children.len() ==> no_void_parent(#[trigger] e.children[i])
}

/// Reading tags marks every void element's tag as closed at once: no token
/// that opens an element with room for contents has a void name.
pub proof fn law_void_tags_close_at_once(c: Seq<char>, i: int)
    ensures
        tokens_from(c, i) matches Some(ts) ==> forall|k: int|
            #[trigger] open_name_at(ts, k) is Some ==> !void_name(open_name_at(ts, k)->0),
    decreases c.len() - i,
{
    if 0 <= i < c.len() {
        if c[i] == '<' {
            let i1 = i + 1;
            if i1 < c.len() && c[i1] == '/' {
                let ne = crate::toolchain::html::scan_while(c, i1 + 1, crate::toolchain::html::tag_name_pred());
                let gt = crate::toolchain::html::scan_while(c, ne, crate::toolchain::html::not_pred('>'));
                crate::toolchain::html::lemma_scan_while(c, i1 + 1, crate::toolchain::html::tag_name_pred());
                crate::toolchain::html::lemma_scan_while(c, ne, crate::toolchain::html::not_pred('>'));
                let nx = if gt < c.len() { gt + 1 } else { gt };
                law_void_tags_close_at_once(c, nx);
                lemma_prepend_non_open(c, i, nx);
            } else if i1 < c.len() && c[i1] == '!' {
                let gt = crate::toolchain::html::scan_while(c, i1, crate::toolchain::html::not_pred('>'));
                crate::toolchain::html::lemma_scan_while(c, i1, crate::toolchain::html::not_pred('>'));
                law_void_tags_close_at_once(c, if gt < c.len() { gt + 1 } else { gt });
            } else {
                let ne = crate::toolchain::html::scan_while(c, i1, crate::toolchain::html::open_name_pred());
                crate::toolchain::html::lemma_scan_while(c, i1, crate::toolchain::html::open_name_pred());
                crate::toolchain::html::lemma_tag_end(c, ne);
                let (j, kind) = crate::toolchain::html::tag_end(c, ne);
                law_void_tags_close_at_once(c, j);
                reveal_strlit("br");
                reveal_strlit("hr");
                reveal_strlit("img");
                reveal_strlit("input");
                reveal_strlit("meta");
                reveal_strlit("link");
                reveal_strlit("area");
                reveal_strlit("base");
                reveal_strlit("col");
                reveal_strlit("embed");
                reveal_strlit("source");
                reveal_strlit("track");
                reveal_strlit("wbr");
                match tokens_from(c, i) {
                    Some(ts) => {
                        let rest = tokens_from(c, j)->0;
                        assert(ts =~= seq![ts[0]] + rest);
                        assert forall|k: int| #[trigger] open_name_at(ts, k) is Some implies !void_name(
                            open_name_at(ts, k)->0,
                        ) by {
                            if k > 0 {
                                assert(open_name_at(ts, k) == open_name_at(rest, k - 1));
                            }
                        }
                    },
                    None => {},
                }
            }
        } else {
            let te = crate::toolchain::html::scan_while(c, i, crate::toolchain::html::not_pred('<'));
            crate::toolchain::html::lemma_scan_while(c, i, crate::toolchain::html::not_pred('<'));
            law_void_tags_close_at_once(c, te);
            match tokens_from(c, i) {
                Some(ts) => {
                    let rest = tokens_from(c, te)->0;
                    assert forall|k: int| #[trigger] open_name_at(ts, k) is Some implies !void_name(
                        open_name_at(ts, k)->0,
                    ) by {
                        let text = trim(c.subrange(i, te));
                        if text.len() > 0 {
                            assert(ts =~= seq![TokenV::Text(text)] + rest);
                            if k > 0 {
                                assert(open_name_at(ts, k) == open_name_at(rest, k - 1));
                            }
                        } else {
                            assert(ts =~= rest);
                        }
                    }
                },
                None => {},
            }
        }
    }
}

proof fn lemma_prepend_non_open(c: Seq<char>, i: int, nx: int)
    requires
        0 <= i < c.len(),
        c[i] == '<',
        i + 1 < c.len() && c[i + 1] == '/',
        nx == ({
            let ne = crate::toolchain::html::scan_while(c, i + 2, crate::toolchain::html::tag_name_pred());
            let gt = crate::toolchain::html::scan_while(c, ne, crate::toolchain::html::not_pred('>'));
            if gt < c.len() { gt + 1 } else { gt }
        }),
        tokens_from(c, nx) matches Some(ts) ==> forall|k: int|
            #[trigger] open_name_at(ts, k) is Some ==> !void_name(open_name_at(ts, k)->0),
    ensures
        tokens_from(c, i) matches Some(ts) ==> forall|k: int|
            #[trigger] open_name_at(ts, k) is Some ==> !void_name(open_name_at(ts, k)->0),
{
    match tokens_from(c, i) {
        Some(ts) => {
            let rest = tokens_from(c, nx)->0;
            assert(ts =~= seq![ts[0]] + rest);
            assert forall|k: int| #[trigger] open_name_at(ts, k) is Some implies !void_name(
                open_name_at(ts, k)->0,
            ) by {
                if k > 0 {
                    assert(open_name_at(ts, k) == open_name_at(rest, k - 1));
                }
            }
        },
        None => {},
    }
}

proof fn lemma_open_is_tree(ts: Seq<TokenV>, e: ElemV)
    requires
        open_ok(ts, e),
    ensures
        tree_ok(ts, e),
{
}

proof fn lemma_attach_ok(ts: Seq<TokenV>, stack: Seq<ElemV>, roots: Seq<ElemV>, el: ElemV)
    requires
        forall|j: int| 0 <= j < stack.len() ==> open_ok(ts, #[trigger] stack[j]),
        forall|j: int| 0 <= j < roots.len() ==> tree_ok(ts, #[trigger] roots[j]),
        tree_ok(ts, el),
    ensures
        forall|j: int| 0 <= j < attach(stack, roots, el).0.len() ==> open_ok(ts, #[trigger] attach(stack, roots, el).0[j]),
        forall|j: int| 0 <= j < attach(stack, roots, el).1.len() ==> tree_ok(ts, #[trigger] attach(stack, roots, el).1[j]),
{
    let (s2, r2) = attach(stack, roots, el);
    if stack.len() > 0 {
        let top = stack.last();
        let nt = ElemV { children: top.children.push(el), ..top };
        assert(open_ok(ts, stack[stack.len() - 1]));
        assert forall|i: int| 0 <= i < nt.children.len() implies tree_ok(ts, #[trigger] nt.children[i]) by {
            if i < top.children.len() {
                assert(nt.children[i] == top.children[i]);
            }
        }
        assert(open_ok(ts, nt));
        assert forall|j: int| 0 <= j < s2.len() implies open_ok(ts, #[trigger] s2[j]) by {
            if j < stack.len() - 1 {
                assert(s2[j] == stack[j]);
            } else {
                assert(s2[j] == nt);
            }
        }
    } else {
        assert forall|j: int| 0 <= j < r2.len() implies tree_ok(ts, #[trigger] r2[j]) by {
            if j < roots.len() {
                assert(r2[j] == roots[j]);
            }
        }
    }
}

proof fn lemma_attach_all_ok(ts: Seq<TokenV>, stack: Seq<ElemV>, roots: Seq<ElemV>, els: Seq<ElemV>)
    requires
        forall|j: int| 0 <= j < stack.len() ==> open_ok(ts, #[trigger] stack[j]),
        forall|j: int| 0 <= j < roots.len() ==> tree_ok(ts, #[trigger] roots[j]),
        forall|j: int| 0 <= j < els.len() ==> open_ok(ts, #[trigger] els[j]),
    ensures
        forall|j: int|
            0 <= j < attach_all(stack, roots, els).0.len() ==> open_ok(ts, #[trigger] attach_all(stack, roots, els).0[j]),
        forall|j: int|
            0 <= j < attach_all(stack, roots, els).1.len() ==> tree_ok(ts, #[trigger] attach_all(stack, roots, els).1[j]),
    decreases els.len(),
{
    if els.len() > 0 {
        let p = els.drop_last();
        assert forall|j: int| 0 <= j < p.len() implies open_ok(ts, #[trigger] p[j]) by {
            assert(p[j] == els[j]);
        }
        lemma_attach_all_ok(ts, stack, roots, p);
        let (s1, r1) = attach_all(stack, roots, p);
        assert(open_ok(ts, els[els.len() - 1]));
        lemma_open_is_tree(ts, els.last());
        lemma_attach_ok(ts, s1, r1, els.last());
    }
}

proof fn lemma_collect_ok(ts: Seq<TokenV>, i: int, stack: Seq<ElemV>, roots: Seq<ElemV>)
    requires
        0 <= i,
        forall|j: int| 0 <= j < stack.len() ==> open_ok(ts, #[trigger] stack[j]),
        forall|j: int| 0 <= j < roots.len() ==> tree_ok(ts, #[trigger] roots[j]),
    ensures
        forall|j: int|
            0 <= j < collect_from(ts, i, stack, roots).len() ==> tree_ok(ts, #[trigger] collect_from(ts, i, stack, roots)[j]),
    decreases ts.len() - i,
{
    if !(0 <= i < ts.len()) {
        let r = roots + stack;
        assert forall|j: int| 0 <= j < r.len() implies tree_ok(ts, #[trigger] r[j]) by {
            if j < roots.len() {
                assert(r[j] == roots[j]);
            } else {
                assert(r[j] == stack[j - roots.len()]);
                lemma_open_is_tree(ts, stack[j - roots.len()]);
            }
        }
    } else {
        match ts[i] {
            TokenV::Open { name, attrs, self_closing } => {
                if is_ignored(name) {
                    if self_closing {
                        lemma_collect_ok(ts, i + 1, stack, roots);
                        assert(collect_from(ts, i, stack, roots) == collect_from(ts, i + 1, stack, roots));
                    } else {
                        crate::toolchain::html::lemma_skip_ignored(ts, i + 1, name, 1);
                        lemma_collect_ok(ts, skip_ignored(ts, i + 1, name, 1), stack, roots);
                        assert(collect_from(ts, i, stack, roots) == collect_from(
                            ts,
                            skip_ignored(ts, i + 1, name, 1),
                            stack,
                            roots,
                        ));
                    }
                } else {
                    let el = ElemV { tag: lowercase_of(name), attrs, text: seq![], children: seq![] };
                    if self_closing {
                        lemma_attach_ok(ts, stack, roots, el);
                        let (s2, r2) = attach(stack, roots, el);
                        lemma_collect_ok(ts, i + 1, s2, r2);
                        assert(collect_from(ts, i, stack, roots) == collect_from(ts, i + 1, s2, r2));
                    } else {
                        assert(open_name_at(ts, i) == Some(name));
                        assert(opened(ts, el.tag));
                        let s2 = stack.push(el);
                        assert forall|j: int| 0 <= j < s2.len() implies open_ok(ts, #[trigger] s2[j]) by {
                            if j < stack.len() {
                                assert(s2[j] == stack[j]);
                            }
                        }
                        lemma_collect_ok(ts, i + 1, s2, roots);
                        assert(collect_from(ts, i, stack, roots) == collect_from(ts, i + 1, s2, roots));
                    }
                }
            },
            TokenV::Close { name } => match rpos(stack, name) {
                Some(k) => {
                    crate::toolchain::html::lemma_rpos(stack, name);
                    let a = stack.take(k);
                    let b = stack.skip(k);
                    assert forall|j: int| 0 <= j < a.len() implies open_ok(ts, #[trigger] a[j]) by {
                        assert(a[j] == stack[j]);
                    }
                    assert forall|j: int| 0 <= j < b.len() implies open_ok(ts, #[trigger] b[j]) by {
                        assert(b[j] == stack[j + k]);
                    }
                    lemma_attach_all_ok(ts, a, roots, b);
                    let (s2, r2) = attach_all(a, roots, b);
                    lemma_collect_ok(ts, i + 1, s2, r2);
                    assert(collect_from(ts, i, stack, roots) == collect_from(ts, i + 1, s2, r2));
                },
                None => {
                    lemma_collect_ok(ts, i + 1, stack, roots);
                    assert(collect_from(ts, i, stack, roots) == collect_from(ts, i + 1, stack, roots));
                },
            },
            TokenV::Text(t) => {
                let s2 = add_text(stack, t);
                assert forall|j: int| 0 <= j < s2.len() implies open_ok(ts, #[trigger] s2[j]) by {
                    assert(s2[j].tag == stack[j].tag);
                    assert(s2[j].children == stack[j].children);
                    assert(open_ok(ts, stack[j]));
                }
                lemma_collect_ok(ts, i + 1, s2, roots);
                assert(collect_from(ts, i, stack, roots) == collect_from(ts, i + 1, s2, roots));
            },
        }
    }
}

proof fn lemma_tree_no_void(ts: Seq<TokenV>, e: ElemV)
    requires
        tree_ok(ts, e),
        forall|k: int| #[trigger] open_name_at(ts, k) is Some ==> !void_name(open_name_at(ts, k)->0),
    ensures
        no_void_parent(e),
    decreases e,
{
    if e.children.len() > 0 {
        let k = choose|k: int| #[trigger] open_name_at(ts, k) is Some && e.tag == lowercase_of(open_name_at(ts, k)->0);
        let n = open_name_at(ts, k)->0;
        assert(!void_name(n) && e.tag == lowercase_of(n));
    }
    assert forall|i: int| 0 <= i < e.children.len() implies no_void_parent(#[trigger] e.children[i]) by {
        lemma_tree_no_void(ts, e.children[i]);
    }
}

/// Void elements never take children: in the elements that HTML text
/// gives, at any depth, an element with children has the tag of a name
/// that is not a void element's (so an `<img ...>` written without `/>` is
/// closed at once, and what follows it is not put inside it).
pub proof fn law_void_elements_have_no_children(bytes: Seq<u8>)
    ensures
        html_spec(bytes) matches Some(es) ==> forall|i: int| 0 <= i < es.len() ==> no_void_parent(#[trigger] es[i]),
{
    match crate::toolchain::html::body_spec(crate::toolchain::html::latin1(crate::toolchain::html::strip_html_bytes(bytes))) {
        None => {},
        Some(b) => match tokens_from(b, 0) {
            None => {},
            Some(ts) => {
                law_void_tags_close_at_once(b, 0);
                lemma_collect_ok(ts, 0, seq![], seq![]);
                let all = collect_from(ts, 0, seq![], seq![]);
                let es = all.filter(|e: ElemV| kept_top(e));
                assert forall|i: int| 0 <= i < es.len() implies no_void_parent(#[trigger] es[i]) by {
                    assert(es.contains(es[i]));
                    all.lemma_filter_contains_rev(|e: ElemV| kept_top(e), es[i]);
                    let j = choose|j: int| 0 <= j < all.len() && all[j] == es[i];
                    assert(tree_ok(ts, all[j]));
                    lemma_tree_no_void(ts, all[j]);
                }
            },
        },
    }
}

} // verus!
