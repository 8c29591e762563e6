//! Selectors with combinators, attribute selectors and pseudo-classes:
//! their types, models and readers, and their specificity.
use vstd::prelude::*;

use super::stylesheet::Declaration;
use crate::text::{
    byte_slice, byte_suffix, chars_of, eq_lit, eq_pred,
    find_char, find_char_in, find_seq, find_seq_in, is_whitespace, is_ws, lemma_byte_slices,
    lemma_find_first_bounds, lemma_find_seq, lemma_trim_len, parse_i32, parse_i32_spec, slice_of,
    split, string_of, suffix, trim, trim_chars, views,
};

verus! {

// ═══════════════════════ types ═══════════════════════

/// How a segment joins the one before it.
#[derive(Debug, Clone, Copy, PartialEq, Eq)]
pub enum Combinator {
    /// `A B`
    Descendant,
    /// `A > B`
    Child,
    /// `A + B`
    AdjacentSibling,
    /// `A ~ B`
    GeneralSibling,
}

/// A compound selector and how it joins the previous one (a descendant for
/// the first).
#[derive(Debug, PartialEq)]
pub struct SelectorSegment {
    pub parts: Vec<SelectorPart>,
    pub combinator: Combinator,
}

/// A selector as a list of segments.
#[derive(Debug, PartialEq)]
pub struct ParsedSelector {
    pub segments: Vec<SelectorSegment>,
}

/// Attribute selector operators, with the value they compare with.
#[derive(Debug, Clone, PartialEq)]
pub enum AttributeOp {
    /// `[attr]`
    Exists,
    /// `[attr=value]`
    Equals(String),
    /// `[attr~=value]`
    Contains(String),
    /// `[attr^=value]`
    StartsWith(String),
    /// `[attr$=value]`
    EndsWith(String),
    /// `[attr*=value]`
    ContainsSubstring(String),
}

/// Pseudo-elements.
#[derive(Debug, Clone, Copy, PartialEq)]
pub enum PseudoElement {
    Before,
    After,
}

/// A declaration that a selector matched, with the selector's specificity.
#[derive(Debug)]
pub struct MatchedDeclaration {
    pub specificity: (u32, u32, u32),
    pub declaration: Declaration,
}

/// Pseudo-classes.
#[derive(Debug, PartialEq)]
pub enum PseudoClass {
    Hover,
    Active,
    Focus,
    Visited,
    Link,
    Root,
    Empty,
    FirstChild,
    LastChild,
    OnlyChild,
    FirstOfType,
    LastOfType,
    OnlyOfType,
    NthChild(i32, i32),
    NthLastChild(i32, i32),
    NthOfType(i32, i32),
    NthLastOfType(i32, i32),
    Not(Box<SelectorPart>),
    Enabled,
    Disabled,
    Checked,
    Custom(String),
    Has(Box<ParsedSelector>),
    Is(Vec<ParsedSelector>),
    Where(Vec<ParsedSelector>),
    FocusVisible,
    FocusWithin,
}

/// A simple selector.
#[derive(Debug, PartialEq)]
pub enum SelectorPart {
    Tag(String),
    Class(String),
    Id(String),
    Attribute { name: String, op: AttributeOp },
    PseudoClass(PseudoClass),
}

// ═══════════════════════ models ═══════════════════════

/// The model of an attribute operator.
pub enum AttrOpV {
    Exists,
    Equals(Seq<char>),
    Contains(Seq<char>),
    StartsWith(Seq<char>),
    EndsWith(Seq<char>),
    ContainsSubstring(Seq<char>),
}

/// The model of a pseudo-class.
pub enum PseudoV {
    Hover,
    Active,
    Focus,
    Visited,
    Link,
    Root,
    Empty,
    FirstChild,
    LastChild,
    OnlyChild,
    FirstOfType,
    LastOfType,
    OnlyOfType,
    NthChild(i32, i32),
    NthLastChild(i32, i32),
    NthOfType(i32, i32),
    NthLastOfType(i32, i32),
    Not(Box<PartV>),
    Enabled,
    Disabled,
    Checked,
    Custom(Seq<char>),
    Has(Box<ParsedV>),
    Is(Seq<ParsedV>),
    Where(Seq<ParsedV>),
    FocusVisible,
    FocusWithin,
}

/// The model of a simple selector.
pub enum PartV {
    Tag(Seq<char>),
    Class(Seq<char>),
    Id(Seq<char>),
    Attribute { name: Seq<char>, op: AttrOpV },
    PseudoClass(PseudoV),
}

/// The model of a segment.
pub struct SegV {
    pub parts: Seq<PartV>,
    pub combinator: Combinator,
}

/// The model of a parsed selector.
pub struct ParsedV {
    pub segments: Seq<SegV>,
}

pub open spec fn view_attr_op(o: AttributeOp) -> AttrOpV {
    match o {
        AttributeOp::Exists => AttrOpV::Exists,
        AttributeOp::Equals(v) => AttrOpV::Equals(v@),
        AttributeOp::Contains(v) => AttrOpV::Contains(v@),
        AttributeOp::StartsWith(v) => AttrOpV::StartsWith(v@),
        AttributeOp::EndsWith(v) => AttrOpV::EndsWith(v@),
        AttributeOp::ContainsSubstring(v) => AttrOpV::ContainsSubstring(v@),
    }
}

pub open spec fn view_spseudo(p: PseudoClass) -> PseudoV
    decreases p, 0int,
{
    match p {
        PseudoClass::Hover => PseudoV::Hover,
        PseudoClass::Active => PseudoV::Active,
        PseudoClass::Focus => PseudoV::Focus,
        PseudoClass::Visited => PseudoV::Visited,
        PseudoClass::Link => PseudoV::Link,
        PseudoClass::Root => PseudoV::Root,
        PseudoClass::Empty => PseudoV::Empty,
        PseudoClass::FirstChild => PseudoV::FirstChild,
        PseudoClass::LastChild => PseudoV::LastChild,
        PseudoClass::OnlyChild => PseudoV::OnlyChild,
        PseudoClass::FirstOfType => PseudoV::FirstOfType,
        PseudoClass::LastOfType => PseudoV::LastOfType,
        PseudoClass::OnlyOfType => PseudoV::OnlyOfType,
        PseudoClass::NthChild(a, b) => PseudoV::NthChild(a, b),
        PseudoClass::NthLastChild(a, b) => PseudoV::NthLastChild(a, b),
        PseudoClass::NthOfType(a, b) => PseudoV::NthOfType(a, b),
        PseudoClass::NthLastOfType(a, b) => PseudoV::NthLastOfType(a, b),
        PseudoClass::Not(b) => PseudoV::Not(Box::new(view_spart(*b))),
        PseudoClass::Enabled => PseudoV::Enabled,
        PseudoClass::Disabled => PseudoV::Disabled,
        PseudoClass::Checked => PseudoV::Checked,
        PseudoClass::Custom(s) => PseudoV::Custom(s@),
        PseudoClass::Has(b) => PseudoV::Has(Box::new(view_parsed(*b))),
        PseudoClass::Is(l) => PseudoV::Is(view_parsed_list(l@)),
        PseudoClass::Where(l) => PseudoV::Where(view_parsed_list(l@)),
        PseudoClass::FocusVisible => PseudoV::FocusVisible,
        PseudoClass::FocusWithin => PseudoV::FocusWithin,
    }
}

pub open spec fn view_spart(p: SelectorPart) -> PartV
    decreases p, 1int,
{
    match p {
        SelectorPart::Tag(s) => PartV::Tag(s@),
        SelectorPart::Class(s) => PartV::Class(s@),
        SelectorPart::Id(s) => PartV::Id(s@),
        SelectorPart::Attribute { name, op } => PartV::Attribute {
            name: name@,
            op: view_attr_op(op),
        },
        SelectorPart::PseudoClass(pc) => PartV::PseudoClass(view_spseudo(pc)),
    }
}

pub open spec fn view_sparts(s: Seq<SelectorPart>) -> Seq<PartV>
    decreases s, 2int,
{
    if s.len() == 0 {
        seq![]
    } else {
        view_sparts(s.drop_last()).push(view_spart(s.last()))
    }
}

pub open spec fn view_sseg(g: SelectorSegment) -> SegV
    decreases g, 3int,
{
    SegV { parts: view_sparts(g.parts@), combinator: g.combinator }
}

pub open spec fn view_ssegs(s: Seq<SelectorSegment>) -> Seq<SegV>
    decreases s, 4int,
{
    if s.len() == 0 {
        seq![]
    } else {
        view_ssegs(s.drop_last()).push(view_sseg(s.last()))
    }
}

pub open spec fn view_parsed_list(s: Seq<ParsedSelector>) -> Seq<ParsedV>
    decreases s, 5int,
{
    if s.len() == 0 {
        seq![]
    } else {
        view_parsed_list(s.drop_last()).push(view_parsed(s.last()))
    }
}

pub open spec fn view_parsed(p: ParsedSelector) -> ParsedV
    decreases p, 6int,
{
    ParsedV { segments: view_ssegs(p.segments@) }
}

// ═══════════════════════ attribute selectors ═══════════════════════

/// The text after `[` and before `]` read as an attribute selector: the
/// first of `~=`, `^=`, `$=`, `*=`, `=` that occurs with a non-blank name
/// before it gives the operator; otherwise the whole trimmed text names an
/// attribute that must exist. `None` for blank text.
pub open spec fn attr_spec(x: Seq<char>) -> Option<PartV> {
    let t = trim(x);
    if t.len() == 0 {
        None
    } else {
        match attr_with(t, seq!['~', '=']) {
            Some((n, v)) => Some(PartV::Attribute { name: n, op: AttrOpV::Contains(v) }),
            None => match attr_with(t, seq!['^', '=']) {
                Some((n, v)) => Some(PartV::Attribute { name: n, op: AttrOpV::StartsWith(v) }),
                None => match attr_with(t, seq!['$', '=']) {
                    Some((n, v)) => Some(PartV::Attribute { name: n, op: AttrOpV::EndsWith(v) }),
                    None => match attr_with(t, seq!['*', '=']) {
                        Some((n, v)) => Some(
                            PartV::Attribute { name: n, op: AttrOpV::ContainsSubstring(v) },
                        ),
                        None => match attr_with(t, seq!['=']) {
                            Some((n, v)) => Some(PartV::Attribute { name: n, op: AttrOpV::Equals(v) }),
                            None => Some(PartV::Attribute { name: t, op: AttrOpV::Exists }),
                        },
                    },
                },
            },
        }
    }
}

/// `t` split at the first `op`: the trimmed name and value, when the name
/// is not blank.
pub open spec fn attr_with(t: Seq<char>, op: Seq<char>) -> Option<(Seq<char>, Seq<char>)> {
    match find_seq(t, op) {
        Some(i) => {
            let name = trim(t.take(i));
            if name.len() > 0 {
                Some((name, trim(t.skip(i + op.len()))))
            } else {
                None
            }
        },
        None => None,
    }
}

// ═══════════════════════ an+b ═══════════════════════

/// `s` without its ASCII spaces.
pub open spec fn without_spaces(s: Seq<char>) -> Seq<char>
    decreases s.len(),
{
    if s.len() == 0 {
        seq![]
    } else if s.last() == ' ' {
        without_spaces(s.drop_last())
    } else {
        without_spaces(s.drop_last()).push(s.last())
    }
}

/// The `(a, b)` of an `an+b` argument: `even`, `odd`, a number `b`, or
/// `an+b` read leniently (a missing or `+` coefficient is 1, `-` is -1, an
/// unreadable one is 1; an unreadable offset is 0); `(0, 0)` for anything
/// else.
pub open spec fn an_b_spec(x: Seq<char>) -> (i32, i32) {
    let s = trim(x);
    if s == seq!['e', 'v', 'e', 'n'] {
        (2, 0)
    } else if s == seq!['o', 'd', 'd'] {
        (2, 1)
    } else if parse_i32_spec(s) is Some {
        (0, parse_i32_spec(s)->0)
    } else {
        let u = without_spaces(s);
        match find_char(u, 'n') {
            Some(p) => {
                let a_str = trim(u.take(p));
                let b_str = u.skip(p + 1);
                let a: i32 = if a_str.len() == 0 || a_str == seq!['+'] {
                    1
                } else if a_str == seq!['-'] {
                    -1i32
                } else {
                    match parse_i32_spec(a_str) {
                        Some(v) => v,
                        None => 1,
                    }
                };
                let b: i32 = if b_str.len() == 0 {
                    0
                } else {
                    match parse_i32_spec(trim(b_str)) {
                        Some(v) => v,
                        None => 0,
                    }
                };
                (a, b)
            },
            None => (0, 0),
        }
    }
}

/// Whether position `index` is `a*n + b` for some `n >= 0`.
pub open spec fn an_b_matches(a: int, b: int, index: int) -> bool {
    if a == 0 {
        index == b
    } else if index - b < 0 {
        false
    } else {
        (index - b) % (if a < 0 { -a } else { a }) == 0
    }
}

// ═══════════════════════ the readers, as specifications ═══════════════════════

/// What the text of a simple selector names while it is being read.
#[derive(Debug, Clone, Copy, PartialEq, Eq)]
pub enum PartMode {
    Tag,
    Class,
    Id,
}

/// Where the reader of simple selectors stands: the start of the text it
/// collects, what that text names, whether it is inside a pseudo-class
/// and how deep in its parentheses, whether it is inside `[..]` and where
/// that began.
pub struct PState {
    pub cur: int,
    pub mode: PartMode,
    pub in_pseudo: bool,
    pub depth: int,
    pub in_attr: bool,
    pub attr: int,
}

/// The reader's start.
pub open spec fn pstate_init() -> PState {
    PState { cur: 0, mode: PartMode::Tag, in_pseudo: false, depth: 0, in_attr: false, attr: 0 }
}

/// The simple selector that collected text gives, by mode.
pub open spec fn mode_part(mode: PartMode, c: Seq<char>) -> PartV {
    match mode {
        PartMode::Tag => PartV::Tag(c),
        PartMode::Class => PartV::Class(c),
        PartMode::Id => PartV::Id(c),
    }
}

/// The simple selector that the text `s[cur..i]` gives when it is not empty.
pub open spec fn flush_v(s: Seq<char>, cur: int, i: int, mode: PartMode) -> Seq<PartV> {
    if s.subrange(cur, i).len() == 0 {
        seq![]
    } else {
        seq![mode_part(mode, s.subrange(cur, i))]
    }
}

/// `emit` before what `rest` holds, when `rest` holds something.
pub open spec fn prepend<T>(emit: Seq<T>, rest: Option<Seq<T>>) -> Option<Seq<T>> {
    match rest {
        Some(r) => Some(emit + r),
        None => None,
    }
}

pub proof fn lemma_prepend_empty<T>(r: Option<Seq<T>>)
    ensures
        prepend(Seq::<T>::empty(), r) == r,
{
    match r {
        Some(x) => {
            assert(Seq::<T>::empty() + x =~= x);
        },
        None => {},
    }
}

pub proof fn lemma_prepend_assoc<T>(a: Seq<T>, b: Seq<T>, r: Option<Seq<T>>)
    ensures
        prepend(a, prepend(b, r)) == prepend(a + b, r),
{
    match r {
        Some(x) => {
            assert(a + (b + x) =~= a + b + x);
        },
        None => {},
    }
}

/// Whether `t` is `pre`, something, and `)`.
pub open spec fn wrapped(t: Seq<char>, pre: Seq<char>) -> bool {
    t.len() >= pre.len() + 1 && t.take(pre.len() as int) == pre && t.last() == ')'
}

/// What stands between `pre` and the final `)`.
pub open spec fn unwrap(t: Seq<char>, pre: Seq<char>) -> Seq<char> {
    t.subrange(pre.len() as int, t.len() - 1)
}

/// The combinator that `>`, `+` or `~` writes.
pub open spec fn comb_of(c: char) -> Combinator {
    if c == '>' {
        Combinator::Child
    } else if c == '+' {
        Combinator::AdjacentSibling
    } else {
        Combinator::GeneralSibling
    }
}

/// The first position from `i` that is not white space.
pub open spec fn skip_uws(s: Seq<char>, i: int) -> int
    decreases s.len() - i,
{
    if 0 <= i < s.len() && is_ws(s[i]) {
        skip_uws(s, i + 1)
    } else {
        i
    }
}

/// The pseudo-class without its leading `:` that names no argument.
pub open spec fn keyword_spec(t: Seq<char>) -> PseudoV {
    if t == "hover"@ {
        PseudoV::Hover
    } else if t == "active"@ {
        PseudoV::Active
    } else if t == "focus"@ {
        PseudoV::Focus
    } else if t == "visited"@ {
        PseudoV::Visited
    } else if t == "link"@ {
        PseudoV::Link
    } else if t == "root"@ {
        PseudoV::Root
    } else if t == "empty"@ {
        PseudoV::Empty
    } else if t == "first-child"@ {
        PseudoV::FirstChild
    } else if t == "last-child"@ {
        PseudoV::LastChild
    } else if t == "only-child"@ {
        PseudoV::OnlyChild
    } else if t == "first-of-type"@ {
        PseudoV::FirstOfType
    } else if t == "last-of-type"@ {
        PseudoV::LastOfType
    } else if t == "only-of-type"@ {
        PseudoV::OnlyOfType
    } else if t == "enabled"@ {
        PseudoV::Enabled
    } else if t == "disabled"@ {
        PseudoV::Disabled
    } else if t == "checked"@ {
        PseudoV::Checked
    } else if t == "focus-visible"@ {
        PseudoV::FocusVisible
    } else if t == "focus-within"@ {
        PseudoV::FocusWithin
    } else {
        PseudoV::Custom(t)
    }
}

/// The simple selectors of `s` from position `i` on, the reader standing
/// at `st`: `.` `#` `[` `:` close the text collected so far (as a tag,
/// class or id) and start a class, an id, an attribute selector or a
/// pseudo-class; a pseudo-class runs to the `)` that brings its parentheses
/// back to depth 0, or to the end. `None` where reading would panic.
pub open spec fn parts_from(s: Seq<char>, i: int, st: PState) -> Option<Seq<PartV>>
    decreases s.len(), 2int, s.len() - i,
{
    if !(0 <= st.cur <= i <= s.len() && 0 <= st.attr <= i) {
        None
    } else if i == s.len() {
        if st.in_attr {
            Some(seq![])
        } else if st.in_pseudo {
            if s.subrange(st.cur, i).len() > 0 {
                match pseudo_spec(s.subrange(st.cur, i)) {
                    Some(p) => Some(seq![PartV::PseudoClass(p)]),
                    None => None,
                }
            } else {
                Some(seq![])
            }
        } else {
            Some(flush_v(s, st.cur, i, st.mode))
        }
    } else {
        let ch = s[i];
        if st.in_attr {
            if ch == ']' {
                let emit = match attr_spec(s.subrange(st.attr, i)) {
                    Some(p) => seq![p],
                    None => seq![],
                };
                prepend(
                    emit,
                    parts_from(s, i + 1, PState { in_attr: false, cur: i + 1, attr: i + 1, ..st }),
                )
            } else {
                parts_from(s, i + 1, st)
            }
        } else if !st.in_pseudo && (ch == '.' || ch == '#' || ch == '[' || ch == ':') {
            let emit = flush_v(s, st.cur, i, st.mode);
            let next = if ch == '.' {
                PState { cur: i + 1, mode: PartMode::Class, ..st }
            } else if ch == '#' {
                PState { cur: i + 1, mode: PartMode::Id, ..st }
            } else if ch == '[' {
                PState { cur: i + 1, mode: PartMode::Tag, in_attr: true, attr: i + 1, ..st }
            } else {
                PState { cur: i + 1, mode: PartMode::Tag, in_pseudo: true, ..st }
            };
            prepend(emit, parts_from(s, i + 1, next))
        } else if st.in_pseudo && ch == '(' {
            parts_from(s, i + 1, PState { depth: st.depth + 1, ..st })
        } else if st.in_pseudo && ch == ')' {
            if st.depth - 1 == 0 {
                match pseudo_spec(s.subrange(st.cur, i + 1)) {
                    Some(p) => prepend(
                        seq![PartV::PseudoClass(p)],
                        parts_from(s, i + 1, PState { depth: 0, cur: i + 1, in_pseudo: false, ..st }),
                    ),
                    None => None,
                }
            } else {
                parts_from(s, i + 1, PState { depth: st.depth - 1, ..st })
            }
        } else {
            parts_from(s, i + 1, st)
        }
    }
}

/// A pseudo-class written without its `:`: `not(..)` (its first simple
/// selector, or `*`), the `nth-*(an+b)` forms, `has(..)`, `is(..)`,
/// `where(..)`, a keyword, or anything else kept as a custom name.
pub open spec fn pseudo_spec(x: Seq<char>) -> Option<PseudoV>
    decreases x.len(), 1int, 0int,
{
    let t = trim(x);
    proof {
        lemma_trim_len(x);
    }
    if wrapped(t, "not("@) {
        match parts_from(unwrap(t, "not("@), 0, pstate_init()) {
            Some(ps) => Some(
                PseudoV::Not(
                    Box::new(
                        if ps.len() > 0 {
                            ps[0]
                        } else {
                            PartV::Tag(seq!['*'])
                        },
                    ),
                ),
            ),
            None => None,
        }
    } else if wrapped(t, "nth-child("@) {
        Some(PseudoV::NthChild(an_b_spec(unwrap(t, "nth-child("@)).0, an_b_spec(unwrap(t, "nth-child("@)).1))
    } else if wrapped(t, "nth-last-child("@) {
        Some(
            PseudoV::NthLastChild(
                an_b_spec(unwrap(t, "nth-last-child("@)).0,
                an_b_spec(unwrap(t, "nth-last-child("@)).1,
            ),
        )
    } else if wrapped(t, "nth-of-type("@) {
        Some(
            PseudoV::NthOfType(
                an_b_spec(unwrap(t, "nth-of-type("@)).0,
                an_b_spec(unwrap(t, "nth-of-type("@)).1,
            ),
        )
    } else if wrapped(t, "nth-last-of-type("@) {
        Some(
            PseudoV::NthLastOfType(
                an_b_spec(unwrap(t, "nth-last-of-type("@)).0,
                an_b_spec(unwrap(t, "nth-last-of-type("@)).1,
            ),
        )
    } else if wrapped(t, "has("@) {
        match selector_spec(unwrap(t, "has("@)) {
            Some(r) => Some(PseudoV::Has(Box::new(r.0))),
            None => None,
        }
    } else if wrapped(t, "is("@) {
        match list_from(unwrap(t, "is("@), 0, 0, 0) {
            Some(l) => Some(PseudoV::Is(l)),
            None => None,
        }
    } else if wrapped(t, "where("@) {
        match list_from(unwrap(t, "where("@), 0, 0, 0) {
            Some(l) => Some(PseudoV::Where(l)),
            None => None,
        }
    } else {
        Some(keyword_spec(t))
    }
}

/// A selector: trimmed, an optional `::before` or `::after` at its end
/// taken off, and the rest read as segments.
pub open spec fn selector_spec(x: Seq<char>) -> Option<(ParsedV, Option<PseudoElement>)>
    decreases x.len(), 4int, 0int,
{
    let t = trim(x);
    proof {
        lemma_trim_len(x);
        lemma_trim_len(t.take(t.len() - 8));
        lemma_trim_len(t.take(t.len() - 7));
    }
    if t.len() == 0 {
        Some((ParsedV { segments: seq![] }, None))
    } else {
        let (base, pe) = if t.len() >= 8 && t.skip(t.len() - 8) == "::before"@ {
            (trim(t.take(t.len() - 8)), Some(PseudoElement::Before))
        } else if t.len() >= 7 && t.skip(t.len() - 7) == "::after"@ {
            (trim(t.take(t.len() - 7)), Some(PseudoElement::After))
        } else {
            (t, None)
        };
        if base.len() == 0 {
            Some((ParsedV { segments: seq![] }, pe))
        } else {
            match segments_from(base, 0, 0, Combinator::Descendant, 0, false) {
                Some(segs) => Some((ParsedV { segments: segs }, pe)),
                None => None,
            }
        }
    }
}

/// The segment that the text `b[cur..pos]` (byte offsets) gives, if it is
/// not blank.
pub open spec fn seg_piece(b: Seq<char>, cur: int, pos: int, comb: Combinator) -> Option<Seq<SegV>>
    decreases b.len(), 3int, 0int,
{
    match byte_slice(b, cur, pos) {
        None => None,
        Some(sl) => {
            proof {
                lemma_byte_slices(b, cur, pos);
                lemma_trim_len(sl);
            }
            if trim(sl).len() == 0 {
                Some(seq![])
            } else {
                match parts_from(trim(sl), 0, pstate_init()) {
                    Some(ps) => Some(seq![SegV { parts: ps, combinator: comb }]),
                    None => None,
                }
            }
        }
    }
}

/// The segments of `b` from position `pos`: `>`, `+`, `~` and white space
/// outside parentheses and brackets end a segment and set how the next one
/// joins; the text of each segment is cut from `b` by byte offsets taken
/// from character positions. `None` where that cut would panic.
pub open spec fn segments_from(
    b: Seq<char>,
    pos: int,
    cur: int,
    comb: Combinator,
    depth: int,
    in_attr: bool,
) -> Option<Seq<SegV>>
    decreases b.len(), 3int, b.len() - pos,
{
    if !(0 <= cur <= b.len() && 0 <= pos <= b.len()) {
        None
    } else if pos == b.len() {
        match byte_suffix(b, cur) {
            None => None,
            Some(rest) => {
                proof {
                    lemma_byte_slices(b, cur, pos);
                    lemma_trim_len(rest);
                }
                if trim(rest).len() == 0 {
                    Some(seq![])
                } else {
                    match parts_from(trim(rest), 0, pstate_init()) {
                        Some(ps) => Some(seq![SegV { parts: ps, combinator: comb }]),
                        None => None,
                    }
                }
            }
        }
    } else {
        let ch = b[pos];
        if ch == '(' {
            segments_from(b, pos + 1, cur, comb, depth + 1, in_attr)
        } else if ch == ')' {
            segments_from(b, pos + 1, cur, comb, depth - 1, in_attr)
        } else if ch == '[' {
            segments_from(b, pos + 1, cur, comb, depth, true)
        } else if ch == ']' {
            segments_from(b, pos + 1, cur, comb, depth, false)
        } else if (ch == '>' || ch == '+' || ch == '~') && depth == 0 && !in_attr {
            let nc = skip_uws(b, pos + 1);
            proof {
                lemma_skip_uws(b, pos + 1);
            }
            match seg_piece(b, cur, pos, comb) {
                None => None,
                Some(emit) => prepend(emit, segments_from(b, nc, nc, comb_of(ch), depth, in_attr)),
            }
        } else if is_ws(ch) && depth == 0 && !in_attr {
            let next = skip_uws(b, pos + 1);
            proof {
                lemma_skip_uws(b, pos + 1);
            }
            if next < b.len() && (b[next] == '>' || b[next] == '+' || b[next] == '~') {
                segments_from(b, next, cur, comb, depth, in_attr)
            } else if next < b.len() {
                match seg_piece(b, cur, pos, comb) {
                    None => None,
                    Some(emit) => prepend(
                        emit,
                        segments_from(b, next, next, Combinator::Descendant, depth, in_attr),
                    ),
                }
            } else {
                segments_from(b, next, cur, comb, depth, in_attr)
            }
        } else {
            segments_from(b, pos + 1, cur, comb, depth, in_attr)
        }
    }
}

/// The selectors of a comma-separated list, from position `i`: commas
/// outside parentheses separate them, blank ones are skipped.
pub open spec fn list_from(s: Seq<char>, i: int, start: int, depth: int) -> Option<Seq<ParsedV>>
    decreases s.len(), 5int, s.len() - i,
{
    if !(0 <= start <= i <= s.len()) {
        None
    } else if i == s.len() {
        proof {
            lemma_trim_len(s.skip(start));
        }
        if trim(s.skip(start)).len() == 0 {
            Some(seq![])
        } else {
            match selector_spec(trim(s.skip(start))) {
                Some(r) => Some(seq![r.0]),
                None => None,
            }
        }
    } else {
        let ch = s[i];
        if ch == '(' {
            list_from(s, i + 1, start, depth + 1)
        } else if ch == ')' {
            list_from(s, i + 1, start, depth - 1)
        } else if ch == ',' && depth == 0 {
            proof {
                lemma_trim_len(s.subrange(start, i));
            }
            let sel = trim(s.subrange(start, i));
            if sel.len() == 0 {
                list_from(s, i + 1, i + 1, depth)
            } else {
                match selector_spec(sel) {
                    Some(r) => prepend(seq![r.0], list_from(s, i + 1, i + 1, depth)),
                    None => None,
                }
            }
        } else {
            list_from(s, i + 1, start, depth)
        }
    }
}

pub proof fn lemma_skip_uws(s: Seq<char>, i: int)
    requires
        0 <= i,
    ensures
        i <= skip_uws(s, i),
        i <= s.len() ==> skip_uws(s, i) <= s.len(),
    decreases s.len() - i,
{
    if 0 <= i < s.len() && is_ws(s[i]) {
        lemma_skip_uws(s, i + 1);
    }
}

/// The simple selectors of `s`.
pub open spec fn parts_spec(s: Seq<char>) -> Option<Seq<PartV>> {
    parts_from(s, 0, pstate_init())
}

// ═══════════════════════ executable readers ═══════════════════════

/// `t` split at the first `op`, with a non-blank name.
fn attr_with_exec(t: &[char], op: &[char]) -> (r: Option<(Vec<char>, Vec<char>)>)
    ensures
        match r {
            Some((n, v)) => attr_with(t@, op@) == Some((n@, v@)),
            None => attr_with(t@, op@) is None,
        },
{
    match find_seq_in(t, op) {
        Some(i) => {
            proof {
                lemma_find_seq(t@, op@);
                assert(t@.subrange(0, i as int) =~= t@.take(i as int));
            }
            let name = trim_chars(&slice_of(t, 0, i));
            assert(i + op.len() <= t.len());
            if name.len() > 0 {
                let value = trim_chars(&suffix(t, i + op.len()));
                Some((name, value))
            } else {
                None
            }
        },
        None => None,
    }
}

/// Reads the text between `[` and `]` as an attribute selector.
fn parse_attribute_selector(attr_str: &[char]) -> (r: Option<SelectorPart>)
    ensures
        match r {
            Some(p) => attr_spec(attr_str@) == Some(view_spart(p)),
            None => attr_spec(attr_str@) is None,
        },
{
    let t = trim_chars(attr_str);
    if t.len() == 0 {
        return None;
    }
    let op1: Vec<char> = vec!['~', '='];
    let op2: Vec<char> = vec!['^', '='];
    let op3: Vec<char> = vec!['$', '='];
    let op4: Vec<char> = vec!['*', '='];
    let op5: Vec<char> = vec!['='];
    assert(op1@ =~= seq!['~', '=']);
    assert(op2@ =~= seq!['^', '=']);
    assert(op3@ =~= seq!['$', '=']);
    assert(op4@ =~= seq!['*', '=']);
    assert(op5@ =~= seq!['=']);
    if let Some((n, v)) = attr_with_exec(&t, &op1) {
        return Some(SelectorPart::Attribute { name: string_of(&n), op: AttributeOp::Contains(string_of(&v)) });
    }
    if let Some((n, v)) = attr_with_exec(&t, &op2) {
        return Some(SelectorPart::Attribute { name: string_of(&n), op: AttributeOp::StartsWith(string_of(&v)) });
    }
    if let Some((n, v)) = attr_with_exec(&t, &op3) {
        return Some(SelectorPart::Attribute { name: string_of(&n), op: AttributeOp::EndsWith(string_of(&v)) });
    }
    if let Some((n, v)) = attr_with_exec(&t, &op4) {
        return Some(
            SelectorPart::Attribute { name: string_of(&n), op: AttributeOp::ContainsSubstring(string_of(&v)) },
        );
    }
    if let Some((n, v)) = attr_with_exec(&t, &op5) {
        return Some(SelectorPart::Attribute { name: string_of(&n), op: AttributeOp::Equals(string_of(&v)) });
    }
    Some(SelectorPart::Attribute { name: string_of(&t), op: AttributeOp::Exists })
}

/// `s` without its ASCII spaces (`str::replace(' ', "")`).
fn remove_spaces(s: &[char]) -> (r: Vec<char>)
    ensures
        r@ == without_spaces(s@),
{
    let mut r: Vec<char> = Vec::new();
    let mut i: usize = 0;
    while i < s.len()
        invariant
            i <= s@.len(),
            r@ == without_spaces(s@.take(i as int)),
        decreases s.len() - i,
    {
        proof {
            assert(s@.take(i + 1).drop_last() =~= s@.take(i as int));
        }
        if s[i] != ' ' {
            r.push(s[i]);
        }
        i += 1;
    }
    assert(s@.take(s@.len() as int) =~= s@);
    r
}

/// Reads an `an+b` argument.
fn parse_an_b(x: &[char]) -> (r: (i32, i32))
    ensures
        r == an_b_spec(x@),
{
    let s = trim_chars(x);
    if eq_lit(&s, "even") {
        proof { reveal_strlit("even"); assert("even"@ =~= seq!['e', 'v', 'e', 'n']); }
        return (2, 0);
    }
    proof {
        reveal_strlit("even");
        reveal_strlit("odd");
        assert("even"@ =~= seq!['e', 'v', 'e', 'n']);
        assert("odd"@ =~= seq!['o', 'd', 'd']);
    }
    if eq_lit(&s, "odd") {
        return (2, 1);
    }
    if let Some(n) = parse_i32(&s) {
        return (0, n);
    }
    let u = remove_spaces(&s);
    match find_char_in(&u, 'n') {
        Some(p) => {
            proof {
                lemma_find_first_bounds(u@, eq_pred('n'));
                assert(u@.subrange(0, p as int) =~= u@.take(p as int));
                reveal_strlit("+");
                reveal_strlit("-");
                assert("+"@ =~= seq!['+']);
                assert("-"@ =~= seq!['-']);
            }
            let a_str = trim_chars(&slice_of(&u, 0, p));
            assert(p < u.len());
            let b_str = suffix(&u, p + 1);
            let a: i32 = if a_str.len() == 0 || eq_lit(&a_str, "+") {
                1
            } else if eq_lit(&a_str, "-") {
                -1
            } else {
                match parse_i32(&a_str) {
                    Some(v) => v,
                    None => 1,
                }
            };
            let b: i32 = if b_str.len() == 0 {
                0
            } else {
                match parse_i32(&trim_chars(&b_str)) {
                    Some(v) => v,
                    None => 0,
                }
            };
            (a, b)
        },
        None => (0, 0),
    }
}

/// Whether position `index` is `a*n + b` for some `n >= 0`.
pub fn matches_an_b(a: i32, b: i32, index: i32) -> (r: bool)
    requires
        i32::MIN <= index - b <= i32::MAX,
    ensures
        r == an_b_matches(a as int, b as int, index as int),
{
    if a == 0 {
        return index == b;
    }
    let diff = index - b;
    if diff < 0 {
        return false;
    }
    let m: i64 = if a < 0 { -(a as i64) } else { a as i64 };
    (diff as i64) % m == 0
}

/// Closes the text collected so far as a simple selector of kind `mode`,
/// when it is not empty.
fn flush_part_mode(current: &mut Vec<char>, mode: PartMode, parts: &mut Vec<SelectorPart>)
    ensures
        final(current)@ == Seq::<char>::empty(),
        view_sparts(final(parts)@) == view_sparts(old(parts)@) + if old(current)@.len() == 0 {
            Seq::<PartV>::empty()
        } else {
            seq![mode_part(mode, old(current)@)]
        },
{
    if current.len() > 0 {
        let text = string_of(current);
        let part = match mode {
            PartMode::Tag => SelectorPart::Tag(text),
            PartMode::Class => SelectorPart::Class(text),
            PartMode::Id => SelectorPart::Id(text),
        };
        let ghost before = parts@;
        parts.push(part);
        proof {
            lemma_view_sparts_push(before, part);
        }
        current.clear();
    } else {
        assert(view_sparts(parts@) + Seq::<PartV>::empty() =~= view_sparts(parts@));
        assert(current@ =~= Seq::<char>::empty());
    }
}

pub proof fn lemma_view_sparts_push(s: Seq<SelectorPart>, p: SelectorPart)
    ensures
        view_sparts(s.push(p)) == view_sparts(s) + seq![view_spart(p)],
{
    assert(s.push(p).drop_last() =~= s);
    assert(view_sparts(s).push(view_spart(p)) =~= view_sparts(s) + seq![view_spart(p)]);
}

pub proof fn lemma_view_ssegs_push(s: Seq<SelectorSegment>, g: SelectorSegment)
    ensures
        view_ssegs(s.push(g)) == view_ssegs(s) + seq![view_sseg(g)],
{
    assert(s.push(g).drop_last() =~= s);
    assert(view_ssegs(s).push(view_sseg(g)) =~= view_ssegs(s) + seq![view_sseg(g)]);
}

pub proof fn lemma_view_parsed_list_push(s: Seq<ParsedSelector>, p: ParsedSelector)
    ensures
        view_parsed_list(s.push(p)) == view_parsed_list(s) + seq![view_parsed(p)],
{
    assert(s.push(p).drop_last() =~= s);
    assert(view_parsed_list(s).push(view_parsed(p)) =~= view_parsed_list(s) + seq![view_parsed(p)]);
}

/// The selector engine.
pub struct SelectorEngine;

impl SelectorEngine {
    /// A new engine.
    pub fn new() -> (r: Self) {
        Self
    }
}

pub proof fn lemma_view_sparts_index(s: Seq<SelectorPart>)
    ensures
        view_sparts(s).len() == s.len(),
        forall|j: int| 0 <= j < s.len() ==> view_sparts(s)[j] == view_spart(#[trigger] s[j]),
    decreases s.len(),
{
    if s.len() > 0 {
        lemma_view_sparts_index(s.drop_last());
        assert forall|j: int| 0 <= j < s.len() implies view_sparts(s)[j] == view_spart(#[trigger] s[j]) by {
            if j < s.len() - 1 {
                assert(s.drop_last()[j] == s[j]);
            }
        }
    }
}

proof fn lemma_view_ssegs_index(s: Seq<SelectorSegment>)
    ensures
        view_ssegs(s).len() == s.len(),
        forall|j: int| 0 <= j < s.len() ==> view_ssegs(s)[j] == view_sseg(#[trigger] s[j]),
    decreases s.len(),
{
    if s.len() > 0 {
        lemma_view_ssegs_index(s.drop_last());
        assert forall|j: int| 0 <= j < s.len() implies view_ssegs(s)[j] == view_sseg(#[trigger] s[j]) by {
            if j < s.len() - 1 {
                assert(s.drop_last()[j] == s[j]);
            }
        }
    }
}

/// The text between `pre` and the final `)`, when `t` is written so.
fn unwrap_if(t: &[char], pre: &str) -> (r: Option<Vec<char>>)
    ensures
        match r {
            Some(v) => wrapped(t@, pre@) && v@ == unwrap(t@, pre@),
            None => !wrapped(t@, pre@),
        },
{
    let m = pre.unicode_len();
    if t.len() > m && crate::text::starts_with_lit(t, pre) && t[t.len() - 1] == ')' {
        Some(slice_of(t, m, t.len() - 1))
    } else {
        None
    }
}

/// The pseudo-class that names no argument.
fn keyword_pseudo(t: &[char]) -> (r: PseudoClass)
    ensures
        view_spseudo(r) == keyword_spec(t@),
{
    if eq_lit(t, "hover") {
        PseudoClass::Hover
    } else if eq_lit(t, "active") {
        PseudoClass::Active
    } else if eq_lit(t, "focus") {
        PseudoClass::Focus
    } else if eq_lit(t, "visited") {
        PseudoClass::Visited
    } else if eq_lit(t, "link") {
        PseudoClass::Link
    } else if eq_lit(t, "root") {
        PseudoClass::Root
    } else if eq_lit(t, "empty") {
        PseudoClass::Empty
    } else if eq_lit(t, "first-child") {
        PseudoClass::FirstChild
    } else if eq_lit(t, "last-child") {
        PseudoClass::LastChild
    } else if eq_lit(t, "only-child") {
        PseudoClass::OnlyChild
    } else if eq_lit(t, "first-of-type") {
        PseudoClass::FirstOfType
    } else if eq_lit(t, "last-of-type") {
        PseudoClass::LastOfType
    } else if eq_lit(t, "only-of-type") {
        PseudoClass::OnlyOfType
    } else if eq_lit(t, "enabled") {
        PseudoClass::Enabled
    } else if eq_lit(t, "disabled") {
        PseudoClass::Disabled
    } else if eq_lit(t, "checked") {
        PseudoClass::Checked
    } else if eq_lit(t, "focus-visible") {
        PseudoClass::FocusVisible
    } else if eq_lit(t, "focus-within") {
        PseudoClass::FocusWithin
    } else {
        PseudoClass::Custom(string_of(t))
    }
}

/// Reads the simple selectors of `s`.
fn parts_of(s: &[char]) -> (r: Option<Vec<SelectorPart>>)
    ensures
        match r {
            Some(v) => parts_spec(s@) == Some(view_sparts(v@)),
            None => parts_spec(s@) is None,
        },
    decreases s@.len(), 2int, 0int,
{
    let n = s.len();
    let mut parts: Vec<SelectorPart> = Vec::new();
    let mut current: Vec<char> = Vec::new();
    let mut mode = PartMode::Tag;
    let mut in_pseudo = false;
    let mut depth: i128 = 0;
    let mut in_attr = false;
    let mut attr_buf: Vec<char> = Vec::new();
    let ghost mut cur: int = 0;
    let ghost mut astart: int = 0;
    let mut i: usize = 0;
    proof {
        assert(view_sparts(parts@) =~= Seq::<PartV>::empty());
        assert(current@ =~= s@.subrange(0, 0));
        assert(view_sparts(parts@) =~= Seq::<PartV>::empty());
        lemma_prepend_empty(parts_spec(s@));
    }
    while i < n
        invariant
            n == s@.len(),
            i <= n,
            0 <= cur <= i,
            0 <= astart <= i,
            !in_attr ==> current@ == s@.subrange(cur, i as int),
            in_attr ==> current@.len() == 0 && attr_buf@ == s@.subrange(astart, i as int) && !in_pseudo,
            -(i as int) <= depth <= i,
            parts_spec(s@) == prepend(view_sparts(parts@), parts_from(
                s@,
                i as int,
                PState { cur, mode, in_pseudo, depth: depth as int, in_attr, attr: astart },
            )),
        decreases n - i,
    {
        let ghost st = PState { cur, mode, in_pseudo, depth: depth as int, in_attr, attr: astart };
        let ghost before = view_sparts(parts@);
        let ch = s[i];
        if in_attr {
            if ch == ']' {
                in_attr = false;
                match parse_attribute_selector(&attr_buf) {
                    Some(p) => {
                        let ghost old_parts = parts@;
                        parts.push(p);
                        proof {
                            lemma_view_sparts_push(old_parts, p);
                        }
                    },
                    None => {
                        assert(view_sparts(parts@) + Seq::<PartV>::empty() =~= view_sparts(parts@));
                    },
                }
                attr_buf.clear();
                proof {
                    cur = i + 1;
                    astart = i + 1;
                    assert(current@ =~= s@.subrange(i + 1, i + 1));
                }
            } else {
                attr_buf.push(ch);
                proof {
                    assert(attr_buf@ =~= s@.subrange(astart, i + 1));
                }
            }
        } else if !in_pseudo && (ch == '.' || ch == '#' || ch == '[' || ch == ':') {
            flush_part_mode(&mut current, mode, &mut parts);
            if ch == '.' {
                mode = PartMode::Class;
            } else if ch == '#' {
                mode = PartMode::Id;
            } else if ch == '[' {
                in_attr = true;
                mode = PartMode::Tag;
                attr_buf.clear();
                proof {
                    astart = i + 1;
                    assert(attr_buf@ =~= s@.subrange(i + 1, i + 1));
                }
            } else {
                in_pseudo = true;
                mode = PartMode::Tag;
            }
            proof {
                cur = i + 1;
                assert(current@ =~= s@.subrange(i + 1, i + 1));
            }
        } else if in_pseudo && ch == '(' {
            depth = depth + 1;
            current.push(ch);
            proof {
                assert(current@ =~= s@.subrange(cur, i + 1));
            }
        } else if in_pseudo && ch == ')' {
            depth = depth - 1;
            current.push(ch);
            proof {
                assert(current@ =~= s@.subrange(cur, i + 1));
            }
            if depth == 0 {
                let p = match pseudo_of(&current) {
                    Some(p) => p,
                    None => {
                        assert(parts_from(s@, i as int, st) is None);
                        return None;
                    },
                };
                let part = SelectorPart::PseudoClass(p);
                let ghost old_parts = parts@;
                parts.push(part);
                proof {
                    lemma_view_sparts_push(old_parts, part);
                }
                current.clear();
                in_pseudo = false;
                proof {
                    cur = i + 1;
                    assert(current@ =~= s@.subrange(i + 1, i + 1));
                }
            }
        } else {
            current.push(ch);
            proof {
                assert(current@ =~= s@.subrange(cur, i + 1));
            }
        }
        i += 1;
        proof {
            let st2 = PState { cur, mode, in_pseudo, depth: depth as int, in_attr, attr: astart };
            let rest = parts_from(s@, i as int, st2);
            assert(parts_from(s@, i - 1, st) == prepend(view_sparts(parts@).skip(before.len() as int), rest)) by {
                assert(view_sparts(parts@) == before + view_sparts(parts@).skip(before.len() as int));
            }
            assert(view_sparts(parts@) =~= before + view_sparts(parts@).skip(before.len() as int));
            lemma_prepend_assoc(before, view_sparts(parts@).skip(before.len() as int), rest);
        }
    }
    let ghost st = PState { cur, mode, in_pseudo, depth: depth as int, in_attr, attr: astart };
    if in_pseudo && current.len() > 0 {
        let p = match pseudo_of(&current) {
            Some(p) => p,
            None => return None,
        };
        let part = SelectorPart::PseudoClass(p);
        let ghost old_parts = parts@;
        parts.push(part);
        proof {
            lemma_view_sparts_push(old_parts, part);
        }
    } else if current.len() > 0 {
        flush_part_mode(&mut current, mode, &mut parts);
    } else {
        assert(view_sparts(parts@) + Seq::<PartV>::empty() =~= view_sparts(parts@));
    }
    Some(parts)
}

/// Reads a pseudo-class written without its `:`.
fn pseudo_of(x: &[char]) -> (r: Option<PseudoClass>)
    ensures
        match r {
            Some(p) => pseudo_spec(x@) == Some(view_spseudo(p)),
            None => pseudo_spec(x@) is None,
        },
    decreases x@.len(), 1int, 0int,
{
    let t = trim_chars(x);
    proof {
        lemma_trim_len(x@);
    }
    if let Some(inner) = unwrap_if(&t, "not(") {
        let mut ps = match parts_of(&inner) {
            Some(v) => v,
            None => return None,
        };
        proof {
            lemma_view_sparts_index(ps@);
        }
        if ps.len() > 0 {
            let first = ps.remove(0);
            return Some(PseudoClass::Not(Box::new(first)));
        }
        let star: Vec<char> = vec!['*'];
        assert(star@ =~= seq!['*']);
        return Some(PseudoClass::Not(Box::new(SelectorPart::Tag(string_of(&star)))));
    }
    if let Some(inner) = unwrap_if(&t, "nth-child(") {
        let (a, b) = parse_an_b(&inner);
        return Some(PseudoClass::NthChild(a, b));
    }
    if let Some(inner) = unwrap_if(&t, "nth-last-child(") {
        let (a, b) = parse_an_b(&inner);
        return Some(PseudoClass::NthLastChild(a, b));
    }
    if let Some(inner) = unwrap_if(&t, "nth-of-type(") {
        let (a, b) = parse_an_b(&inner);
        return Some(PseudoClass::NthOfType(a, b));
    }
    if let Some(inner) = unwrap_if(&t, "nth-last-of-type(") {
        let (a, b) = parse_an_b(&inner);
        return Some(PseudoClass::NthLastOfType(a, b));
    }
    if let Some(inner) = unwrap_if(&t, "has(") {
        return match selector_of(&inner) {
            Some((p, _)) => Some(PseudoClass::Has(Box::new(p))),
            None => None,
        };
    }
    if let Some(inner) = unwrap_if(&t, "is(") {
        return match list_of(&inner) {
            Some(l) => Some(PseudoClass::Is(l)),
            None => None,
        };
    }
    if let Some(inner) = unwrap_if(&t, "where(") {
        return match list_of(&inner) {
            Some(l) => Some(PseudoClass::Where(l)),
            None => None,
        };
    }
    Some(keyword_pseudo(&t))
}

/// Reads a selector: an optional pseudo-element at its end, and segments.
fn selector_of(x: &[char]) -> (r: Option<(ParsedSelector, Option<PseudoElement>)>)
    ensures
        match r {
            Some(v) => selector_spec(x@) == Some((view_parsed(v.0), v.1)),
            None => selector_spec(x@) is None,
        },
    decreases x@.len(), 4int, 0int,
{
    let t = trim_chars(x);
    proof {
        lemma_trim_len(x@);
        reveal_strlit("::before");
        reveal_strlit("::after");
    }
    if t.len() == 0 {
        let p = ParsedSelector { segments: Vec::new() };
        assert(view_ssegs(p.segments@) =~= Seq::<SegV>::empty());
        return Some((p, None));
    }
    let n = t.len();
    let (base, pe) = if n >= 8 && crate::text::eq_lit(&suffix(&t, n - 8), "::before") {
        (trim_chars(&slice_of(&t, 0, n - 8)), Some(PseudoElement::Before))
    } else if n >= 7 && crate::text::eq_lit(&suffix(&t, n - 7), "::after") {
        (trim_chars(&slice_of(&t, 0, n - 7)), Some(PseudoElement::After))
    } else {
        (slice_of(&t, 0, n), None)
    };
    proof {
        assert(t@.subrange(0, n - 8) =~= t@.take(n - 8));
        assert(t@.subrange(0, n - 7) =~= t@.take(n - 7));
        assert(t@.subrange(0, n as int) =~= t@);
        lemma_trim_len(t@.take(n - 8));
        lemma_trim_len(t@.take(n - 7));
    }
    if base.len() == 0 {
        let p = ParsedSelector { segments: Vec::new() };
        assert(view_ssegs(p.segments@) =~= Seq::<SegV>::empty());
        return Some((p, pe));
    }
    match parse_segments(&base) {
        Some(segments) => Some((ParsedSelector { segments }, pe)),
        None => None,
    }
}

/// Appends the segment that `b[cur..pos]` (byte offsets) gives.
fn seg_piece_exec(b: &[char], cur: usize, pos: usize, comb: Combinator, segs: &mut Vec<SelectorSegment>) -> (ok: bool)
    ensures
        ok ==> seg_piece(b@, cur as int, pos as int, comb) is Some && view_ssegs(final(segs)@) == view_ssegs(
            old(segs)@,
        ) + seg_piece(b@, cur as int, pos as int, comb)->0,
        !ok ==> seg_piece(b@, cur as int, pos as int, comb) is None,
    decreases b@.len(), 3int, 0int,
{
    proof {
        lemma_byte_slices(b@, cur as int, pos as int);
        crate::text::lemma_char_at_byte_from(b@, 0, cur as int);
        crate::text::lemma_char_at_byte_from(b@, 0, pos as int);
    }
    let i = match crate::text::char_at_byte_exec(b, cur) {
        Some(i) => i,
        None => return false,
    };
    let j = match crate::text::char_at_byte_exec(b, pos) {
        Some(j) => j,
        None => return false,
    };
    if i > j {
        return false;
    }
    let sl = slice_of(b, i, j);
    let p = trim_chars(&sl);
    proof {
        lemma_trim_len(sl@);
    }
    if p.len() == 0 {
        assert(view_ssegs(segs@) + Seq::<SegV>::empty() =~= view_ssegs(segs@));
        return true;
    }
    let parts = match parts_of(&p) {
        Some(v) => v,
        None => return false,
    };
    let g = SelectorSegment { parts, combinator: comb };
    let ghost before = segs@;
    segs.push(g);
    proof {
        lemma_view_ssegs_push(before, g);
    }
    true
}

/// Reads the segments of a selector.
#[verifier::rlimit(60)]
#[verifier::spinoff_prover]
fn parse_segments(b: &[char]) -> (r: Option<Vec<SelectorSegment>>)
    ensures
        match r {
            Some(v) => segments_from(b@, 0, 0, Combinator::Descendant, 0, false) == Some(view_ssegs(v@)),
            None => segments_from(b@, 0, 0, Combinator::Descendant, 0, false) is None,
        },
    decreases b@.len(), 3int, 1int,
{
    let n = b.len();
    let mut segs: Vec<SelectorSegment> = Vec::new();
    let mut pos: usize = 0;
    let mut cur: usize = 0;
    let mut comb = Combinator::Descendant;
    let mut depth: i128 = 0;
    let mut in_attr = false;
    let ghost whole = segments_from(b@, 0, 0, Combinator::Descendant, 0, false);
    proof {
        assert(view_ssegs(segs@) =~= Seq::<SegV>::empty());
        lemma_prepend_empty(whole);
    }
    while pos < n
        invariant
            n == b@.len(),
            pos <= n,
            cur <= n,
            -(pos as int) <= depth <= pos,
            whole == segments_from(b@, 0, 0, Combinator::Descendant, 0, false),
            whole == prepend(view_ssegs(segs@), segments_from(b@, pos as int, cur as int, comb, depth as int, in_attr)),
        decreases n - pos,
    {
        let ghost before = view_ssegs(segs@);
        let ghost p0 = pos as int;
        let ghost c0 = cur as int;
        let ghost k0 = comb;
        let ghost d0 = depth as int;
        let ghost a0 = in_attr;
        let ch = b[pos];
        if ch == '(' {
            depth = depth + 1;
            pos = pos + 1;
        } else if ch == ')' {
            depth = depth - 1;
            pos = pos + 1;
        } else if ch == '[' {
            in_attr = true;
            pos = pos + 1;
        } else if ch == ']' {
            in_attr = false;
            pos = pos + 1;
        } else if (ch == '>' || ch == '+' || ch == '~') && depth == 0 && !in_attr {
            if !seg_piece_exec(b, cur, pos, comb, &mut segs) {
                return None;
            }
            comb = if ch == '>' {
                Combinator::Child
            } else if ch == '+' {
                Combinator::AdjacentSibling
            } else {
                Combinator::GeneralSibling
            };
            let mut nc = pos + 1;
            while nc < n && is_whitespace(b[nc])
                invariant
                    pos + 1 <= nc <= n == b@.len(),
                    skip_uws(b@, pos + 1) == skip_uws(b@, nc as int),
                decreases n - nc,
            {
                nc += 1;
            }
            cur = nc;
            pos = nc;
        } else if is_whitespace(ch) && depth == 0 && !in_attr {
            let mut next = pos + 1;
            while next < n && is_whitespace(b[next])
                invariant
                    pos + 1 <= next <= n == b@.len(),
                    skip_uws(b@, pos + 1) == skip_uws(b@, next as int),
                decreases n - next,
            {
                next += 1;
            }
            if next < n && (b[next] == '>' || b[next] == '+' || b[next] == '~') {
                pos = next;
            } else if next < n {
                if !seg_piece_exec(b, cur, pos, comb, &mut segs) {
                    return None;
                }
                comb = Combinator::Descendant;
                cur = next;
                pos = next;
            } else {
                pos = next;
            }
        } else {
            pos = pos + 1;
        }
        proof {
            let rest = segments_from(b@, pos as int, cur as int, comb, depth as int, in_attr);
            assert(segments_from(b@, p0, c0, k0, d0, a0) == prepend(view_ssegs(segs@).skip(before.len() as int), rest)) by {
                assert(view_ssegs(segs@) =~= before + view_ssegs(segs@).skip(before.len() as int));
            }
            assert(view_ssegs(segs@) =~= before + view_ssegs(segs@).skip(before.len() as int));
            lemma_prepend_assoc(before, view_ssegs(segs@).skip(before.len() as int), rest);
        }
    }
    proof {
        lemma_byte_slices(b@, cur as int, n as int);
        crate::text::lemma_char_at_byte_from(b@, 0, cur as int);
    }
    let ci = match crate::text::char_at_byte_exec(b, cur) {
        Some(ci) => ci,
        None => return None,
    };
    let rest = suffix(b, ci);
    let p = trim_chars(&rest);
    proof {
        lemma_trim_len(rest@);
    }
    if p.len() > 0 {
        let parts = match parts_of(&p) {
            Some(v) => v,
            None => return None,
        };
        let g = SelectorSegment { parts, combinator: comb };
        let ghost old_segs = segs@;
        segs.push(g);
        proof {
            lemma_view_ssegs_push(old_segs, g);
        }
    } else {
        assert(view_ssegs(segs@) + Seq::<SegV>::empty() =~= view_ssegs(segs@));
    }
    Some(segs)
}

/// Reads a comma-separated list of selectors.
fn list_of(x: &[char]) -> (r: Option<Vec<ParsedSelector>>)
    ensures
        match r {
            Some(v) => list_from(x@, 0, 0, 0) == Some(view_parsed_list(v@)),
            None => list_from(x@, 0, 0, 0) is None,
        },
    decreases x@.len(), 5int, 0int,
{
    let n = x.len();
    let mut out: Vec<ParsedSelector> = Vec::new();
    let mut start: usize = 0;
    let mut depth: i128 = 0;
    let mut i: usize = 0;
    proof {
        assert(view_parsed_list(out@) =~= Seq::<ParsedV>::empty());
        lemma_prepend_empty(list_from(x@, 0, 0, 0));
    }
    while i < n
        invariant
            n == x@.len(),
            start <= i <= n,
            -(i as int) <= depth <= i,
            list_from(x@, 0, 0, 0) == prepend(view_parsed_list(out@), list_from(x@, i as int, start as int, depth as int)),
        decreases n - i,
    {
        let ghost before = view_parsed_list(out@);
        let ghost i0 = i as int;
        let ghost s0 = start as int;
        let ghost d0 = depth as int;
        let ch = x[i];
        if ch == '(' {
            depth = depth + 1;
        } else if ch == ')' {
            depth = depth - 1;
        } else if ch == ',' && depth == 0 {
            let sel = trim_chars(&slice_of(x, start, i));
            proof {
                lemma_trim_len(x@.subrange(start as int, i as int));
            }
            if sel.len() > 0 {
                let p = match selector_of(&sel) {
                    Some((p, _)) => p,
                    None => return None,
                };
                let ghost old_out = out@;
                out.push(p);
                proof {
                    lemma_view_parsed_list_push(old_out, p);
                }
            } else {
                assert(view_parsed_list(out@) + Seq::<ParsedV>::empty() =~= view_parsed_list(out@));
            }
            start = i + 1;
        }
        i += 1;
        proof {
            let rest = list_from(x@, i as int, start as int, depth as int);
            assert(list_from(x@, i0, s0, d0) == prepend(view_parsed_list(out@).skip(before.len() as int), rest)) by {
                assert(view_parsed_list(out@) =~= before + view_parsed_list(out@).skip(before.len() as int));
            }
            assert(view_parsed_list(out@) =~= before + view_parsed_list(out@).skip(before.len() as int));
            lemma_prepend_assoc(before, view_parsed_list(out@).skip(before.len() as int), rest);
        }
    }
    let last = trim_chars(&suffix(x, start));
    proof {
        lemma_trim_len(x@.skip(start as int));
    }
    if last.len() > 0 {
        let p = match selector_of(&last) {
            Some((p, _)) => p,
            None => return None,
        };
        let ghost old_out = out@;
        out.push(p);
        proof {
            lemma_view_parsed_list_push(old_out, p);
        }
    } else {
        assert(view_parsed_list(out@) + Seq::<ParsedV>::empty() =~= view_parsed_list(out@));
    }
    Some(out)
}

// ═══════════════════════ public readers ═══════════════════════

/// Reads the simple selectors of a compound selector such as
/// `div.a#b[href]:hover`, in order.
pub fn parse_selector_parts(selector: &str) -> (r: Vec<SelectorPart>)
    requires
        parts_spec(selector@) is Some,
    ensures
        Some(view_sparts(r@)) == parts_spec(selector@),
{
    let v = chars_of(selector);
    parts_of(&v).unwrap()
}

/// [`parse_selector_parts`] where reading does not panic: `None` exactly
/// where it would.
pub fn try_parse_selector_parts(selector: &str) -> (r: Option<Vec<SelectorPart>>)
    ensures
        match r {
            Some(v) => parts_spec(selector@) == Some(view_sparts(v@)),
            None => parts_spec(selector@) is None,
        },
{
    let v = chars_of(selector);
    parts_of(&v)
}

/// Reads a selector with combinators, and the pseudo-element at its end.
pub fn parse_selector(selector: &str) -> (r: (ParsedSelector, Option<PseudoElement>))
    requires
        selector_spec(selector@) is Some,
    ensures
        selector_spec(selector@) == Some((view_parsed(r.0), r.1)),
{
    let v = chars_of(selector);
    selector_of(&v).unwrap()
}

/// [`parse_selector`] where reading does not panic: `None` exactly where it
/// would.
pub fn try_parse_selector(selector: &str) -> (r: Option<(ParsedSelector, Option<PseudoElement>)>)
    ensures
        match r {
            Some(v) => selector_spec(selector@) == Some((view_parsed(v.0), v.1)),
            None => selector_spec(selector@) is None,
        },
{
    let v = chars_of(selector);
    selector_of(&v)
}

/// Reads a comma-separated list of selectors (as inside `:is(..)`).
pub fn parse_selector_list(list_str: &str) -> (r: Vec<ParsedSelector>)
    requires
        list_from(list_str@, 0, 0, 0) is Some,
    ensures
        Some(view_parsed_list(r@)) == list_from(list_str@, 0, 0, 0),
{
    let v = chars_of(list_str);
    list_of(&v).unwrap()
}

/// [`parse_selector_list`] where reading does not panic: `None` exactly
/// where it would.
pub fn try_parse_selector_list(list_str: &str) -> (r: Option<Vec<ParsedSelector>>)
    ensures
        match r {
            Some(v) => list_from(list_str@, 0, 0, 0) == Some(view_parsed_list(v@)),
            None => list_from(list_str@, 0, 0, 0) is None,
        },
{
    let v = chars_of(list_str);
    list_of(&v)
}

// ═══════════════════════ specificity ═══════════════════════

/// `a` is at most `b` in the order of specificities (ids, then classes,
/// then tags).
pub open spec fn lex_le(a: (int, int, int), b: (int, int, int)) -> bool {
    a.0 < b.0 || (a.0 == b.0 && (a.1 < b.1 || (a.1 == b.1 && a.2 <= b.2)))
}

pub open spec fn add3(a: (int, int, int), b: (int, int, int)) -> (int, int, int) {
    (a.0 + b.0, a.1 + b.1, a.2 + b.2)
}

/// The weight of a simple selector counted flat: ids, then classes,
/// attributes and pseudo-classes, then tags.
pub open spec fn flat_weight(p: PartV) -> (int, int, int) {
    match p {
        PartV::Id(_) => (1, 0, 0),
        PartV::Class(_) => (0, 1, 0),
        PartV::Attribute { .. } => (0, 1, 0),
        PartV::PseudoClass(_) => (0, 1, 0),
        PartV::Tag(_) => (0, 0, 1),
    }
}

/// The summed flat weights of simple selectors.
pub open spec fn flat_weights(s: Seq<PartV>) -> (int, int, int)
    decreases s.len(),
{
    if s.len() == 0 {
        (0, 0, 0)
    } else {
        add3(flat_weights(s.drop_last()), flat_weight(s.last()))
    }
}

/// The weight of a simple selector in a parsed selector: `:where` and
/// `:has` count nothing, `:is` counts its heaviest selector, `:not` counts
/// its simple selector, other pseudo-classes count as a class.
pub open spec fn part_weight(p: PartV) -> (int, int, int)
    decreases p, 0int,
{
    match p {
        PartV::Id(_) => (1, 0, 0),
        PartV::Class(_) => (0, 1, 0),
        PartV::Attribute { .. } => (0, 1, 0),
        PartV::Tag(_) => (0, 0, 1),
        PartV::PseudoClass(pc) => match pc {
            PseudoV::Where(_) => (0, 0, 0),
            PseudoV::Has(_) => (0, 0, 0),
            PseudoV::Is(l) => heaviest(l),
            PseudoV::Not(inner) => flat_weight(*inner),
            _ => (0, 1, 0),
        },
    }
}

/// The heaviest specificity among selectors (the last of equal ones), or
/// nothing for none.
pub open spec fn heaviest(l: Seq<ParsedV>) -> (int, int, int)
    decreases l, 3int,
{
    if l.len() == 0 {
        (0, 0, 0)
    } else {
        let m = heaviest(l.drop_last());
        let x = parsed_weight(l.last());
        if lex_le(m, x) {
            x
        } else {
            m
        }
    }
}

/// The summed weights of simple selectors.
pub open spec fn parts_weight(s: Seq<PartV>) -> (int, int, int)
    decreases s, 1int,
{
    if s.len() == 0 {
        (0, 0, 0)
    } else {
        add3(parts_weight(s.drop_last()), part_weight(s.last()))
    }
}

/// The specificity of a parsed selector.
pub open spec fn parsed_weight(p: ParsedV) -> (int, int, int)
    decreases p, 2int,
{
    segs_weight(p.segments)
}

pub open spec fn segs_weight(s: Seq<SegV>) -> (int, int, int)
    decreases s, 2int,
{
    if s.len() == 0 {
        (0, 0, 0)
    } else {
        add3(segs_weight(s.drop_last()), parts_weight(s.last().parts))
    }
}

/// The number of simple selectors in a parsed selector, nested ones
/// included.
pub open spec fn part_size(p: PartV) -> int
    decreases p, 0int,
{
    match p {
        PartV::PseudoClass(PseudoV::Is(l)) => 1 + list_size(l),
        PartV::PseudoClass(PseudoV::Where(l)) => 1 + list_size(l),
        PartV::PseudoClass(PseudoV::Has(b)) => 1 + parsed_size(*b),
        _ => 1,
    }
}

pub open spec fn list_size(l: Seq<ParsedV>) -> int
    decreases l, 3int,
{
    if l.len() == 0 {
        0
    } else {
        list_size(l.drop_last()) + parsed_size(l.last())
    }
}

pub open spec fn parts_size(s: Seq<PartV>) -> int
    decreases s, 1int,
{
    if s.len() == 0 {
        0
    } else {
        parts_size(s.drop_last()) + part_size(s.last())
    }
}

pub open spec fn parsed_size(p: ParsedV) -> int
    decreases p, 2int,
{
    segs_size(p.segments)
}

pub open spec fn segs_size(s: Seq<SegV>) -> int
    decreases s, 2int,
{
    if s.len() == 0 {
        0
    } else {
        segs_size(s.drop_last()) + parts_size(s.last().parts)
    }
}

/// Every specificity count lies between 0 and the number of simple
/// selectors.
pub proof fn lemma_part_weight_bound(p: PartV)
    ensures
        0 <= part_weight(p).0 <= part_size(p),
        0 <= part_weight(p).1 <= part_size(p),
        0 <= part_weight(p).2 <= part_size(p),
        part_size(p) >= 1,
    decreases p, 0int,
{
    match p {
        PartV::PseudoClass(pc) => match pc {
            PseudoV::Is(l) => {
                lemma_heaviest_bound(l);
            },
            PseudoV::Where(l) => {
                lemma_heaviest_bound(l);
            },
            PseudoV::Has(b) => {
                lemma_parsed_weight_bound(*b);
            },
            _ => {},
        },
        _ => {},
    }
}

pub proof fn lemma_heaviest_bound(l: Seq<ParsedV>)
    ensures
        0 <= heaviest(l).0 <= list_size(l),
        0 <= heaviest(l).1 <= list_size(l),
        0 <= heaviest(l).2 <= list_size(l),
        list_size(l) >= 0,
    decreases l, 3int,
{
    if l.len() > 0 {
        lemma_heaviest_bound(l.drop_last());
        lemma_parsed_weight_bound(l.last());
    }
}

pub proof fn lemma_parts_weight_bound(s: Seq<PartV>)
    ensures
        0 <= parts_weight(s).0 <= parts_size(s),
        0 <= parts_weight(s).1 <= parts_size(s),
        0 <= parts_weight(s).2 <= parts_size(s),
        parts_size(s) >= 0,
    decreases s, 1int,
{
    if s.len() > 0 {
        lemma_parts_weight_bound(s.drop_last());
        lemma_part_weight_bound(s.last());
    }
}

pub proof fn lemma_parsed_weight_bound(p: ParsedV)
    ensures
        0 <= parsed_weight(p).0 <= parsed_size(p),
        0 <= parsed_weight(p).1 <= parsed_size(p),
        0 <= parsed_weight(p).2 <= parsed_size(p),
        parsed_size(p) >= 0,
    decreases p, 2int,
{
    lemma_segs_weight_bound(p.segments);
}

pub proof fn lemma_segs_weight_bound(s: Seq<SegV>)
    ensures
        0 <= segs_weight(s).0 <= segs_size(s),
        0 <= segs_weight(s).1 <= segs_size(s),
        0 <= segs_weight(s).2 <= segs_size(s),
        segs_size(s) >= 0,
    decreases s, 2int,
{
    if s.len() > 0 {
        lemma_segs_weight_bound(s.drop_last());
        lemma_parts_weight_bound(s.last().parts);
    }
}

proof fn lemma_view_ssegs_take(s: Seq<SelectorSegment>, i: int)
    requires
        0 <= i < s.len(),
    ensures
        view_ssegs(s.take(i + 1)) == view_ssegs(s.take(i)).push(view_sseg(s[i])),
{
    assert(s.take(i + 1).drop_last() =~= s.take(i));
}

proof fn lemma_view_sparts_take(s: Seq<SelectorPart>, i: int)
    requires
        0 <= i < s.len(),
    ensures
        view_sparts(s.take(i + 1)) == view_sparts(s.take(i)).push(view_spart(s[i])),
{
    assert(s.take(i + 1).drop_last() =~= s.take(i));
}

proof fn lemma_view_list_take(s: Seq<ParsedSelector>, i: int)
    requires
        0 <= i < s.len(),
    ensures
        view_parsed_list(s.take(i + 1)) == view_parsed_list(s.take(i)).push(view_parsed(s[i])),
{
    assert(s.take(i + 1).drop_last() =~= s.take(i));
}

/// Reading emits at most one simple selector per character, and one more
/// at the end.
pub proof fn lemma_parts_from_len(s: Seq<char>, i: int, st: PState)
    ensures
        parts_from(s, i, st) matches Some(r) ==> r.len() <= s.len() - i + 1,
    decreases s.len() - i,
{
    if 0 <= st.cur <= i <= s.len() && 0 <= st.attr <= i && i < s.len() {
        let ch = s[i];
        lemma_parts_from_len(s, i + 1, PState { in_attr: false, cur: i + 1, attr: i + 1, ..st });
        lemma_parts_from_len(s, i + 1, st);
        lemma_parts_from_len(s, i + 1, PState { cur: i + 1, mode: PartMode::Class, ..st });
        lemma_parts_from_len(s, i + 1, PState { cur: i + 1, mode: PartMode::Id, ..st });
        lemma_parts_from_len(
            s,
            i + 1,
            PState { cur: i + 1, mode: PartMode::Tag, in_attr: true, attr: i + 1, ..st },
        );
        lemma_parts_from_len(s, i + 1, PState { cur: i + 1, mode: PartMode::Tag, in_pseudo: true, ..st });
        lemma_parts_from_len(s, i + 1, PState { depth: st.depth + 1, ..st });
        lemma_parts_from_len(s, i + 1, PState { depth: 0, cur: i + 1, in_pseudo: false, ..st });
        lemma_parts_from_len(s, i + 1, PState { depth: st.depth - 1, ..st });
    }
}

/// The counts of the simple selectors of a compound selector, and of every
/// compound selector of a list of segments.
pub open spec fn segs_flat(s: Seq<SegV>) -> (int, int, int)
    decreases s.len(),
{
    if s.len() == 0 {
        (0, 0, 0)
    } else {
        add3(segs_flat(s.drop_last()), flat_weights(s.last().parts))
    }
}

/// The specificity of a read selector: ids; classes, attributes and
/// pseudo-classes; tags and the pseudo-element, counted over all its
/// compound selectors.
pub open spec fn text_weights(p: (ParsedV, Option<PseudoElement>)) -> (int, int, int) {
    add3(segs_flat(p.0.segments), if p.1 is Some { (0, 0, 1) } else { (0, 0, 0) })
}

/// Whether each count fits in a `u32`.
pub open spec fn fits3(w: (int, int, int)) -> bool {
    w.0 <= u32::MAX && w.1 <= u32::MAX && w.2 <= u32::MAX
}

proof fn lemma_flat_weights_nonneg(s: Seq<PartV>)
    ensures
        flat_weights(s).0 >= 0 && flat_weights(s).1 >= 0 && flat_weights(s).2 >= 0,
    decreases s.len(),
{
    if s.len() > 0 {
        lemma_flat_weights_nonneg(s.drop_last());
    }
}

proof fn lemma_segs_flat_prefix(s: Seq<SegV>, i: int)
    requires
        0 <= i <= s.len(),
    ensures
        segs_flat(s.take(i)).0 <= segs_flat(s).0,
        segs_flat(s.take(i)).1 <= segs_flat(s).1,
        segs_flat(s.take(i)).2 <= segs_flat(s).2,
        segs_flat(s.take(i)).0 >= 0 && segs_flat(s.take(i)).1 >= 0 && segs_flat(s.take(i)).2 >= 0,
    decreases s.len(),
{
    if i == s.len() {
        assert(s.take(i) =~= s);
        if s.len() > 0 {
            lemma_segs_flat_prefix(s.drop_last(), i - 1);
            assert(s.drop_last().take(i - 1) =~= s.drop_last());
            lemma_flat_weights_nonneg(s.last().parts);
        }
    } else {
        lemma_segs_flat_prefix(s.drop_last(), i);
        assert(s.drop_last().take(i) =~= s.take(i));
        lemma_flat_weights_nonneg(s.last().parts);
    }
}

proof fn lemma_flat_weights_prefix(s: Seq<PartV>, j: int)
    requires
        0 <= j <= s.len(),
    ensures
        flat_weights(s.take(j)).0 <= flat_weights(s).0,
        flat_weights(s.take(j)).1 <= flat_weights(s).1,
        flat_weights(s.take(j)).2 <= flat_weights(s).2,
    decreases s.len(),
{
    if j == s.len() {
        assert(s.take(j) =~= s);
    } else {
        lemma_flat_weights_prefix(s.drop_last(), j);
        assert(s.drop_last().take(j) =~= s.take(j));
    }
}

/// Whether each count of `a` is at most the same count of `b`.
pub open spec fn le3(a: (int, int, int), b: (int, int, int)) -> bool {
    a.0 <= b.0 && a.1 <= b.1 && a.2 <= b.2
}

/// The specificity of a selector as `(ids, classes, tags)`: every compound
/// selector of it counted, ids as ids; classes, attributes and
/// pseudo-classes as classes; tags and a `::before`/`::after` at its end as
/// tags.
pub fn compute_specificity(selector: &str) -> (r: (u32, u32, u32))
    requires
        selector_spec(selector@) is Some,
        fits3(text_weights(selector_spec(selector@)->0)),
    ensures
        (r.0 as int, r.1 as int, r.2 as int) == text_weights(selector_spec(selector@)->0),
{
    try_compute_specificity(selector).unwrap()
}

/// [`compute_specificity`] where it does not panic: `None` exactly where
/// reading the selector would panic or a count would not fit in a `u32`.
pub fn try_compute_specificity(selector: &str) -> (r: Option<(u32, u32, u32)>)
    ensures
        match r {
            Some(w) => selector_spec(selector@) is Some && fits3(text_weights(selector_spec(selector@)->0))
                && (w.0 as int, w.1 as int, w.2 as int) == text_weights(selector_spec(selector@)->0),
            None => selector_spec(selector@) is None || !fits3(text_weights(selector_spec(selector@)->0)),
        },
{
    let (ps, pe) = match try_parse_selector(selector) {
        Some(v) => v,
        None => return None,
    };
    let ghost sv = view_ssegs(ps.segments@);
    let ghost total = text_weights(selector_spec(selector@)->0);
    let ghost pw: (int, int, int) = if pe is Some { (0, 0, 1) } else { (0, 0, 0) };
    let segs = &ps.segments;
    let mut ids: u32 = 0;
    let mut classes: u32 = 0;
    let mut tags: u32 = 0;
    let mut i: usize = 0;
    proof {
        lemma_view_ssegs_index(segs@);
        assert(sv.take(0) =~= Seq::<SegV>::empty());
    }
    while i < segs.len()
        invariant
            i <= segs@.len(),
            segs == &ps.segments,
            sv == view_ssegs(segs@),
            sv.len() == segs@.len(),
            selector_spec(selector@) is Some,
            total == text_weights(selector_spec(selector@)->0),
            total == add3(segs_flat(sv), pw),
            pw.0 >= 0 && pw.1 >= 0 && pw.2 >= 0,
            (ids as int, classes as int, tags as int) == segs_flat(sv.take(i as int)),
        decreases segs.len() - i,
    {
        let parts = &segs[i].parts;
        let ghost pv = view_sparts(parts@);
        let ghost pre = segs_flat(sv.take(i as int));
        proof {
            lemma_view_ssegs_index(segs@);
            assert(sv[i as int] == view_sseg(segs@[i as int]));
            lemma_view_sparts_index(parts@);
            lemma_segs_flat_prefix(sv, i + 1);
            assert(sv.take(i + 1).drop_last() =~= sv.take(i as int));
            assert(pv.take(0) =~= Seq::<PartV>::empty());
            lemma_flat_weights_nonneg(pv);
            lemma_segs_flat_prefix(sv, sv.len() as int);
            assert(sv.take(sv.len() as int) =~= sv);
        }
        let mut j: usize = 0;
        while j < parts.len()
            invariant
                j <= parts@.len(),
                i < segs@.len(),
                segs == &ps.segments,
                parts == &segs@[i as int].parts,
                pv == view_sparts(parts@),
                pv.len() == parts@.len(),
                forall|q: int| 0 <= q < parts@.len() ==> pv[q] == view_spart(#[trigger] parts@[q]),
                le3(add3(pre, flat_weights(pv)), total),
                selector_spec(selector@) is Some,
                total == text_weights(selector_spec(selector@)->0),
                pre.0 >= 0 && pre.1 >= 0 && pre.2 >= 0,
                (ids as int, classes as int, tags as int) == add3(pre, flat_weights(pv.take(j as int))),
            decreases parts.len() - j,
        {
            proof {
                assert(pv.take(j + 1).drop_last() =~= pv.take(j as int));
                assert(pv.take(j + 1).last() == view_spart(parts@[j as int]));
                lemma_flat_weights_prefix(pv, j + 1);
                lemma_flat_weights_nonneg(pv.take(j as int));
            }
            match &parts[j] {
                SelectorPart::Id(_) => {
                    if ids == u32::MAX {
                        return None;
                    }
                    ids += 1;
                },
                SelectorPart::Tag(_) => {
                    if tags == u32::MAX {
                        return None;
                    }
                    tags += 1;
                },
                _ => {
                    if classes == u32::MAX {
                        return None;
                    }
                    classes += 1;
                },
            }
            j += 1;
        }
        proof {
            assert(pv.take(pv.len() as int) =~= pv);
        }
        i += 1;
    }
    proof {
        assert(sv.take(sv.len() as int) =~= sv);
    }
    if pe.is_some() {
        if tags == u32::MAX {
            return None;
        }
        tags += 1;
    }
    Some((ids, classes, tags))
}

fn weight_of_part(p: &SelectorPart) -> (r: (u32, u32, u32))
    requires
        part_size(view_spart(*p)) <= u32::MAX,
    ensures
        (r.0 as int, r.1 as int, r.2 as int) == part_weight(view_spart(*p)),
    decreases *p, 0int,
{
    match p {
        SelectorPart::Id(_) => (1, 0, 0),
        SelectorPart::Class(_) => (0, 1, 0),
        SelectorPart::Attribute { .. } => (0, 1, 0),
        SelectorPart::Tag(_) => (0, 0, 1),
        SelectorPart::PseudoClass(pc) => {
            proof {
                assert(view_spart(*p) == PartV::PseudoClass(view_spseudo(*pc)));
            }
            match pc {
                PseudoClass::Where(_) => (0, 0, 0),
                PseudoClass::Has(_) => (0, 0, 0),
                PseudoClass::Is(l) => {
                    proof {
                        assert(view_spseudo(*pc) == PseudoV::Is(view_parsed_list(l@)));
                    }
                    heaviest_of(l)
                },
                PseudoClass::Not(inner) => {
                    proof {
                        assert(view_spseudo(*pc) == PseudoV::Not(Box::new(view_spart(**inner))));
                    }
                    match &**inner {
                        SelectorPart::Id(_) => (1, 0, 0),
                        SelectorPart::Class(_) => (0, 1, 0),
                        SelectorPart::Attribute { .. } => (0, 1, 0),
                        SelectorPart::Tag(_) => (0, 0, 1),
                        SelectorPart::PseudoClass(_) => (0, 1, 0),
                    }
                },
                _ => (0, 1, 0),
            }
        },
    }
}

fn heaviest_of(l: &Vec<ParsedSelector>) -> (r: (u32, u32, u32))
    requires
        list_size(view_parsed_list(l@)) <= u32::MAX,
    ensures
        (r.0 as int, r.1 as int, r.2 as int) == heaviest(view_parsed_list(l@)),
    decreases *l, 1int,
{
    let ghost vl = view_parsed_list(l@);
    let mut best: (u32, u32, u32) = (0, 0, 0);
    let mut i: usize = 0;
    proof {
        assert(l@.take(0) =~= Seq::<ParsedSelector>::empty());
        assert(l@ =~= l@.take(l@.len() as int));
        assert(view_parsed_list(Seq::<ParsedSelector>::empty()) =~= Seq::<ParsedV>::empty());
        lemma_heaviest_bound(vl);
    }
    while i < l.len()
        invariant
            i <= l@.len(),
            vl == view_parsed_list(l@),
            list_size(vl) <= u32::MAX,
            (best.0 as int, best.1 as int, best.2 as int) == heaviest(view_parsed_list(l@.take(i as int))),
            list_size(view_parsed_list(l@.take(i as int))) <= list_size(vl),
        decreases l.len() - i,
    {
        proof {
            lemma_view_list_take(l@, i as int);
            lemma_list_size_prefix(l@, i + 1);
            lemma_heaviest_bound(view_parsed_list(l@.take(i + 1)));
            let pre = view_parsed_list(l@.take(i as int));
            assert(view_parsed_list(l@.take(i + 1)).drop_last() =~= pre);
            lemma_parsed_weight_bound(view_parsed(l@[i as int]));
            lemma_heaviest_bound(pre);
        }
        let w = compute_specificity_parsed(&l[i]);
        if best.0 < w.0 || (best.0 == w.0 && (best.1 < w.1 || (best.1 == w.1 && best.2 <= w.2))) {
            best = w;
        }
        i += 1;
    }
    assert(l@.take(l@.len() as int) =~= l@);
    best
}

proof fn lemma_list_size_prefix(s: Seq<ParsedSelector>, i: int)
    requires
        0 <= i <= s.len(),
    ensures
        list_size(view_parsed_list(s.take(i))) + parsed_size(if i < s.len() { view_parsed(s[i]) } else { ParsedV { segments: seq![] } }) <= list_size(view_parsed_list(s)) || i == s.len(),
        list_size(view_parsed_list(s.take(i))) <= list_size(view_parsed_list(s)),
    decreases s.len() - i,
{
    if i < s.len() {
        lemma_list_size_prefix(s, i + 1);
        lemma_view_list_take(s, i);
        lemma_parsed_weight_bound(view_parsed(s[i]));
        assert(view_parsed_list(s.take(i + 1)).drop_last() =~= view_parsed_list(s.take(i)));
    } else {
        assert(s.take(i) =~= s);
    }
}

/// The specificity of a parsed selector: each simple selector counts as an
/// id, a class or a tag, except that `:where(..)` and `:has(..)` count
/// nothing, `:is(..)` counts its heaviest selector and `:not(..)` counts
/// its simple selector.
pub fn compute_specificity_parsed(selector: &ParsedSelector) -> (r: (u32, u32, u32))
    requires
        parsed_size(view_parsed(*selector)) <= u32::MAX,
    ensures
        (r.0 as int, r.1 as int, r.2 as int) == parsed_weight(view_parsed(*selector)),
    decreases *selector, 2int,
{
    let segs = &selector.segments;
    let ghost total = parsed_size(view_parsed(*selector));
    let mut ids: u32 = 0;
    let mut classes: u32 = 0;
    let mut tags: u32 = 0;
    let mut i: usize = 0;
    proof {
        assert(segs@.take(0) =~= Seq::<SelectorSegment>::empty());
        assert(segs@.skip(0) =~= segs@);
        assert(view_ssegs(Seq::<SelectorSegment>::empty()) =~= Seq::<SegV>::empty());
    }
    while i < segs.len()
        invariant
            i <= segs@.len(),
            segs == &selector.segments,
            total == parsed_size(view_parsed(*selector)),
            total <= u32::MAX,
            (ids as int, classes as int, tags as int) == segs_weight(view_ssegs(segs@.take(i as int))),
            segs_size(view_ssegs(segs@.take(i as int))) + segs_size(view_ssegs(segs@.skip(i as int))) == total,
        decreases segs.len() - i,
    {
        let parts = &segs[i].parts;
        let ghost pre = view_ssegs(segs@.take(i as int));
        proof {
            lemma_view_ssegs_take(segs@, i as int);
            lemma_segs_split(segs@, i as int);
            lemma_segs_weight_bound(pre);
        }
        let mut j: usize = 0;
        proof {
            assert(parts@.take(0) =~= Seq::<SelectorPart>::empty());
            assert(parts@.skip(0) =~= parts@);
            assert(view_sparts(Seq::<SelectorPart>::empty()) =~= Seq::<PartV>::empty());
            lemma_segs_weight_bound(view_ssegs(segs@.skip(i + 1)));
            assert(add3(segs_weight(pre), (0, 0, 0)) == segs_weight(pre));
        }
        while j < parts.len()
            invariant
                j <= parts@.len(),
                i < segs@.len(),
                segs == &selector.segments,
                parts == &segs@[i as int].parts,
                (ids as int, classes as int, tags as int) == add3(
                    segs_weight(pre),
                    parts_weight(view_sparts(parts@.take(j as int))),
                ),
                segs_size(pre) + parts_size(view_sparts(parts@.take(j as int))) + parts_size(
                    view_sparts(parts@.skip(j as int)),
                ) <= total,
                total <= u32::MAX,
            decreases parts.len() - j,
        {
            proof {
                lemma_view_sparts_take(parts@, j as int);
                lemma_parts_split(parts@, j as int);
                lemma_segs_weight_bound(pre);
                lemma_parts_weight_bound(view_sparts(parts@.take(j as int)));
                lemma_part_weight_bound(view_spart(parts@[j as int]));
                assert(view_sparts(parts@.take(j + 1)).drop_last() =~= view_sparts(parts@.take(j as int)));
            }
            proof {
                assert(decreases_to!(*selector => selector.segments));
                assert(decreases_to!(selector.segments => selector.segments@));
                assert(decreases_to!(selector.segments@ => selector.segments@[i as int]));
                assert(decreases_to!(selector.segments@[i as int] => selector.segments@[i as int].parts));
                assert(decreases_to!(selector.segments@[i as int].parts => selector.segments@[i as int].parts@));
                assert(decreases_to!(selector.segments@[i as int].parts@ => selector.segments@[i as int].parts@[j as int]));
                lemma_parts_weight_bound(view_sparts(parts@.skip(j + 1)));
            }
            let w = weight_of_part(&parts[j]);
            ids = ids + w.0;
            classes = classes + w.1;
            tags = tags + w.2;
            j += 1;
        }
        proof {
            assert(parts@.take(parts@.len() as int) =~= parts@);
            assert(view_ssegs(segs@.take(i + 1)).drop_last() =~= pre);
        }
        i += 1;
    }
    proof {
        assert(segs@.take(segs@.len() as int) =~= segs@);
    }
    (ids, classes, tags)
}

proof fn lemma_segs_split(s: Seq<SelectorSegment>, i: int)
    requires
        0 <= i < s.len(),
    ensures
        segs_size(view_ssegs(s.skip(i))) == parts_size(view_sparts(s[i].parts@)) + segs_size(
            view_ssegs(s.skip(i + 1)),
        ),
        segs_size(view_ssegs(s.take(i + 1))) == segs_size(view_ssegs(s.take(i))) + parts_size(
            view_sparts(s[i].parts@),
        ),
{
    lemma_segs_size_concat(seq![s[i]], s.skip(i + 1));
    assert(seq![s[i]] + s.skip(i + 1) =~= s.skip(i));
    lemma_view_ssegs_take(s, i);
    assert(view_ssegs(s.take(i + 1)).drop_last() =~= view_ssegs(s.take(i)));
    assert(seq![s[i]].drop_last() =~= Seq::<SelectorSegment>::empty());
    let v1 = view_ssegs(seq![s[i]]);
    assert(v1 == view_ssegs(Seq::<SelectorSegment>::empty()).push(view_sseg(s[i])));
    assert(v1.drop_last() =~= Seq::<SegV>::empty());
    assert(v1.last() == view_sseg(s[i]));
    assert(segs_size(v1.drop_last()) == 0);
    assert(segs_size(v1) == parts_size(view_sparts(s[i].parts@)));
}

proof fn lemma_segs_size_concat(a: Seq<SelectorSegment>, b: Seq<SelectorSegment>)
    ensures
        segs_size(view_ssegs(a + b)) == segs_size(view_ssegs(a)) + segs_size(view_ssegs(b)),
    decreases b.len(),
{
    if b.len() == 0 {
        assert(a + b =~= a);
        assert(view_ssegs(b) =~= Seq::<SegV>::empty());
    } else {
        lemma_segs_size_concat(a, b.drop_last());
        assert((a + b).drop_last() =~= a + b.drop_last());
        assert((a + b).last() == b.last());
        let vab = view_ssegs(a + b);
        assert(vab == view_ssegs(a + b.drop_last()).push(view_sseg(b.last())));
        assert(vab.drop_last() =~= view_ssegs(a + b.drop_last()));
        let vb = view_ssegs(b);
        assert(vb.drop_last() =~= view_ssegs(b.drop_last()));
    }
}

proof fn lemma_parts_split(s: Seq<SelectorPart>, i: int)
    requires
        0 <= i < s.len(),
    ensures
        parts_size(view_sparts(s.skip(i))) == part_size(view_spart(s[i])) + parts_size(
            view_sparts(s.skip(i + 1)),
        ),
        parts_size(view_sparts(s.take(i + 1))) == parts_size(view_sparts(s.take(i))) + part_size(
            view_spart(s[i]),
        ),
{
    lemma_parts_size_concat(seq![s[i]], s.skip(i + 1));
    assert(seq![s[i]] + s.skip(i + 1) =~= s.skip(i));
    lemma_view_sparts_take(s, i);
    assert(view_sparts(s.take(i + 1)).drop_last() =~= view_sparts(s.take(i)));
    assert(seq![s[i]].drop_last() =~= Seq::<SelectorPart>::empty());
    let v1 = view_sparts(seq![s[i]]);
    assert(v1 == view_sparts(Seq::<SelectorPart>::empty()).push(view_spart(s[i])));
    assert(v1.drop_last() =~= Seq::<PartV>::empty());
    assert(v1.last() == view_spart(s[i]));
    assert(parts_size(v1.drop_last()) == 0);
    assert(parts_size(v1) == part_size(view_spart(s[i])));
}

proof fn lemma_parts_size_concat(a: Seq<SelectorPart>, b: Seq<SelectorPart>)
    ensures
        parts_size(view_sparts(a + b)) == parts_size(view_sparts(a)) + parts_size(view_sparts(b)),
    decreases b.len(),
{
    if b.len() == 0 {
        assert(a + b =~= a);
        assert(view_sparts(b) =~= Seq::<PartV>::empty());
    } else {
        lemma_parts_size_concat(a, b.drop_last());
        assert((a + b).drop_last() =~= a + b.drop_last());
        assert((a + b).last() == b.last());
        let vab = view_sparts(a + b);
        assert(vab == view_sparts(a + b.drop_last()).push(view_spart(b.last())));
        assert(vab.drop_last() =~= view_sparts(a + b.drop_last()));
        let vb = view_sparts(b);
        assert(vb.drop_last() =~= view_sparts(b.drop_last()));
    }
}

} // verus!
