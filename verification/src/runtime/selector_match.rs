//! Selector types, their models, and the selector parser.
use vstd::prelude::*;

use crate::text::{
    alphanumeric, lowercase_of, trim_start, trim, trim_start_matches, trim_matches, find_first, find_char, eq_pred, split, views, parse_i32_spec, lemma_trim_start_suffix, lemma_trim_len, lemma_find_first_bounds, lemma_find_first_from, lowercase, is_alphanumeric, chars_of, string_of, slice_of, suffix, trim_start_chars, trim_chars, trim_start_matches_chars, trim_matches_chars, find_char_in, eq_lit, split_chars, parse_i32,
};
use super::specificity::Specificity;

verus! {

// ═══════════════════════ selector types ═══════════════════════

/// Attribute selector operators.
#[derive(Debug, Clone, Copy, PartialEq, Eq)]
pub enum AttrOp {
    Has,
    Exact,
    Contains,
    StartsWith,
    EndsWith,
    WordMatch,
    HyphenMatch,
}

/// Pseudo-classes.
#[derive(Debug, PartialEq)]
pub enum PseudoClass {
    Root,
    Empty,
    FirstChild,
    LastChild,
    OnlyChild,
    FirstOfType,
    LastOfType,
    OnlyOfType,
    NthChild(i32, i32),
    NthLastChild(i32, i32),
    NthOfType(i32, i32),
    NthLastOfType(i32, i32),
    Not(Box<ComplexSelector>),
    Is(Vec<ComplexSelector>),
    Where(Vec<ComplexSelector>),
    Has(Box<ComplexSelector>),
    Hover,
    Active,
    Focus,
    FocusVisible,
    FocusWithin,
    Target,
    Link,
    Visited,
    AnyLink,
    Checked,
    Disabled,
    Enabled,
    Required,
    Optional,
    ReadOnly,
    ReadWrite,
    Valid,
    Invalid,
    InRange,
    OutOfRange,
    PlaceholderShown,
    Default,
    Indeterminate,
    Lang(String),
    Dir(String),
}

/// Pseudo-elements.
#[derive(Debug, Clone, Copy, PartialEq, Eq)]
pub enum PseudoElement {
    Before,
    After,
    FirstLine,
    FirstLetter,
    Marker,
    Placeholder,
    Selection,
    Backdrop,
}

/// A simple selector.
#[derive(Debug, PartialEq)]
pub enum BasicSelector {
    Tag(String),
    Id(String),
    Class(String),
    Universal,
    Attribute { name: String, op: AttrOp, value: String },
    PseudoClass(PseudoClass),
    PseudoElement(PseudoElement),
}

/// Combinators between compound selectors.
#[derive(Debug, Clone, Copy, PartialEq, Eq)]
pub enum Combinator {
    Descendant,
    Child,
    Adjacent,
    Sibling,
}

/// One compound selector with the combinator that joins it to the previous
/// one (meaningless on the first segment).
#[derive(Debug, PartialEq)]
pub struct SelectSegment {
    pub combinator: Combinator,
    pub parts: Vec<BasicSelector>,
}

/// A complex selector: segments from left to right, and its specificity.
#[derive(Debug, PartialEq)]
pub struct ComplexSelector {
    pub segments: Vec<SelectSegment>,
    pub specificity: Specificity,
}

// ═══════════════════════ models ═══════════════════════

/// The model of a [`BasicSelector`].
pub enum BasicSelectorV {
    Tag(Seq<char>),
    Id(Seq<char>),
    Class(Seq<char>),
    Universal,
    Attribute { name: Seq<char>, op: AttrOp, value: Seq<char> },
    PseudoClass(PseudoClassV),
    PseudoElement(PseudoElement),
}

/// The model of a [`SelectSegment`].
pub struct SegmentV {
    pub combinator: Combinator,
    pub parts: Seq<BasicSelectorV>,
}

/// The model of a [`ComplexSelector`].
pub struct ComplexV {
    pub segments: Seq<SegmentV>,
    pub specificity: (int, int, int),
}

/// The model of a [`PseudoClass`]: names as character sequences, nested
/// selectors as their models.
pub enum PseudoClassV {
    Root,
    Empty,
    FirstChild,
    LastChild,
    OnlyChild,
    FirstOfType,
    LastOfType,
    OnlyOfType,
    NthChild(i32, i32),
    NthLastChild(i32, i32),
    NthOfType(i32, i32),
    NthLastOfType(i32, i32),
    Not(Box<ComplexV>),
    Is(Seq<ComplexV>),
    Where(Seq<ComplexV>),
    Has(Box<ComplexV>),
    Hover,
    Active,
    Focus,
    FocusVisible,
    FocusWithin,
    Target,
    Link,
    Visited,
    AnyLink,
    Checked,
    Disabled,
    Enabled,
    Required,
    Optional,
    ReadOnly,
    ReadWrite,
    Valid,
    Invalid,
    InRange,
    OutOfRange,
    PlaceholderShown,
    Default,
    Indeterminate,
    Lang(Seq<char>),
    Dir(Seq<char>),
}

/// The model of a pseudo-class.
pub open spec fn view_pseudo(p: PseudoClass) -> PseudoClassV
    decreases p, 0int,
{
    match p {
        PseudoClass::Root => PseudoClassV::Root,
        PseudoClass::Empty => PseudoClassV::Empty,
        PseudoClass::FirstChild => PseudoClassV::FirstChild,
        PseudoClass::LastChild => PseudoClassV::LastChild,
        PseudoClass::OnlyChild => PseudoClassV::OnlyChild,
        PseudoClass::FirstOfType => PseudoClassV::FirstOfType,
        PseudoClass::LastOfType => PseudoClassV::LastOfType,
        PseudoClass::OnlyOfType => PseudoClassV::OnlyOfType,
        PseudoClass::Hover => PseudoClassV::Hover,
        PseudoClass::Active => PseudoClassV::Active,
        PseudoClass::Focus => PseudoClassV::Focus,
        PseudoClass::FocusVisible => PseudoClassV::FocusVisible,
        PseudoClass::FocusWithin => PseudoClassV::FocusWithin,
        PseudoClass::Target => PseudoClassV::Target,
        PseudoClass::Link => PseudoClassV::Link,
        PseudoClass::Visited => PseudoClassV::Visited,
        PseudoClass::AnyLink => PseudoClassV::AnyLink,
        PseudoClass::Checked => PseudoClassV::Checked,
        PseudoClass::Disabled => PseudoClassV::Disabled,
        PseudoClass::Enabled => PseudoClassV::Enabled,
        PseudoClass::Required => PseudoClassV::Required,
        PseudoClass::Optional => PseudoClassV::Optional,
        PseudoClass::ReadOnly => PseudoClassV::ReadOnly,
        PseudoClass::ReadWrite => PseudoClassV::ReadWrite,
        PseudoClass::Valid => PseudoClassV::Valid,
        PseudoClass::Invalid => PseudoClassV::Invalid,
        PseudoClass::InRange => PseudoClassV::InRange,
        PseudoClass::OutOfRange => PseudoClassV::OutOfRange,
        PseudoClass::PlaceholderShown => PseudoClassV::PlaceholderShown,
        PseudoClass::Default => PseudoClassV::Default,
        PseudoClass::Indeterminate => PseudoClassV::Indeterminate,
        PseudoClass::NthChild(a, b) => PseudoClassV::NthChild(a, b),
        PseudoClass::NthLastChild(a, b) => PseudoClassV::NthLastChild(a, b),
        PseudoClass::NthOfType(a, b) => PseudoClassV::NthOfType(a, b),
        PseudoClass::NthLastOfType(a, b) => PseudoClassV::NthLastOfType(a, b),
        PseudoClass::Not(c) => PseudoClassV::Not(Box::new(view_complex(*c))),
        PseudoClass::Is(l) => PseudoClassV::Is(view_complexes(l@)),
        PseudoClass::Where(l) => PseudoClassV::Where(view_complexes(l@)),
        PseudoClass::Has(c) => PseudoClassV::Has(Box::new(view_complex(*c))),
        PseudoClass::Lang(s) => PseudoClassV::Lang(s@),
        PseudoClass::Dir(s) => PseudoClassV::Dir(s@),
    }
}

/// The pseudo-class that a lowercase keyword without arguments names.
pub open spec fn keyword_pseudo_spec(l: Seq<char>) -> Option<PseudoClassV> {
    if l == "root"@ {
        Some(PseudoClassV::Root)
    } else if l == "empty"@ {
        Some(PseudoClassV::Empty)
    } else if l == "first-child"@ {
        Some(PseudoClassV::FirstChild)
    } else if l == "last-child"@ {
        Some(PseudoClassV::LastChild)
    } else if l == "only-child"@ {
        Some(PseudoClassV::OnlyChild)
    } else if l == "first-of-type"@ {
        Some(PseudoClassV::FirstOfType)
    } else if l == "last-of-type"@ {
        Some(PseudoClassV::LastOfType)
    } else if l == "only-of-type"@ {
        Some(PseudoClassV::OnlyOfType)
    } else if l == "hover"@ {
        Some(PseudoClassV::Hover)
    } else if l == "active"@ {
        Some(PseudoClassV::Active)
    } else if l == "focus"@ {
        Some(PseudoClassV::Focus)
    } else if l == "focus-visible"@ {
        Some(PseudoClassV::FocusVisible)
    } else if l == "focus-within"@ {
        Some(PseudoClassV::FocusWithin)
    } else if l == "target"@ {
        Some(PseudoClassV::Target)
    } else if l == "link"@ {
        Some(PseudoClassV::Link)
    } else if l == "visited"@ {
        Some(PseudoClassV::Visited)
    } else if l == "any-link"@ {
        Some(PseudoClassV::AnyLink)
    } else if l == "checked"@ {
        Some(PseudoClassV::Checked)
    } else if l == "disabled"@ {
        Some(PseudoClassV::Disabled)
    } else if l == "enabled"@ {
        Some(PseudoClassV::Enabled)
    } else if l == "required"@ {
        Some(PseudoClassV::Required)
    } else if l == "optional"@ {
        Some(PseudoClassV::Optional)
    } else if l == "read-only"@ {
        Some(PseudoClassV::ReadOnly)
    } else if l == "read-write"@ {
        Some(PseudoClassV::ReadWrite)
    } else if l == "valid"@ {
        Some(PseudoClassV::Valid)
    } else if l == "invalid"@ {
        Some(PseudoClassV::Invalid)
    } else if l == "in-range"@ {
        Some(PseudoClassV::InRange)
    } else if l == "out-of-range"@ {
        Some(PseudoClassV::OutOfRange)
    } else if l == "placeholder-shown"@ {
        Some(PseudoClassV::PlaceholderShown)
    } else if l == "default"@ {
        Some(PseudoClassV::Default)
    } else if l == "indeterminate"@ {
        Some(PseudoClassV::Indeterminate)
    } else {
        None
    }
}

/// The pseudo-class that a lowercase keyword without arguments names.
fn keyword_pseudo(l: &[char]) -> (r: Option<PseudoClass>)
    ensures
        match r {
            Some(p) => keyword_pseudo_spec(l@) == Some(view_pseudo(p)),
            None => keyword_pseudo_spec(l@) is None,
        },
{
    if eq_lit(l, "root") {
        Some(PseudoClass::Root)
    } else if eq_lit(l, "empty") {
        Some(PseudoClass::Empty)
    } else if eq_lit(l, "first-child") {
        Some(PseudoClass::FirstChild)
    } else if eq_lit(l, "last-child") {
        Some(PseudoClass::LastChild)
    } else if eq_lit(l, "only-child") {
        Some(PseudoClass::OnlyChild)
    } else if eq_lit(l, "first-of-type") {
        Some(PseudoClass::FirstOfType)
    } else if eq_lit(l, "last-of-type") {
        Some(PseudoClass::LastOfType)
    } else if eq_lit(l, "only-of-type") {
        Some(PseudoClass::OnlyOfType)
    } else if eq_lit(l, "hover") {
        Some(PseudoClass::Hover)
    } else if eq_lit(l, "active") {
        Some(PseudoClass::Active)
    } else if eq_lit(l, "focus") {
        Some(PseudoClass::Focus)
    } else if eq_lit(l, "focus-visible") {
        Some(PseudoClass::FocusVisible)
    } else if eq_lit(l, "focus-within") {
        Some(PseudoClass::FocusWithin)
    } else if eq_lit(l, "target") {
        Some(PseudoClass::Target)
    } else if eq_lit(l, "link") {
        Some(PseudoClass::Link)
    } else if eq_lit(l, "visited") {
        Some(PseudoClass::Visited)
    } else if eq_lit(l, "any-link") {
        Some(PseudoClass::AnyLink)
    } else if eq_lit(l, "checked") {
        Some(PseudoClass::Checked)
    } else if eq_lit(l, "disabled") {
        Some(PseudoClass::Disabled)
    } else if eq_lit(l, "enabled") {
        Some(PseudoClass::Enabled)
    } else if eq_lit(l, "required") {
        Some(PseudoClass::Required)
    } else if eq_lit(l, "optional") {
        Some(PseudoClass::Optional)
    } else if eq_lit(l, "read-only") {
        Some(PseudoClass::ReadOnly)
    } else if eq_lit(l, "read-write") {
        Some(PseudoClass::ReadWrite)
    } else if eq_lit(l, "valid") {
        Some(PseudoClass::Valid)
    } else if eq_lit(l, "invalid") {
        Some(PseudoClass::Invalid)
    } else if eq_lit(l, "in-range") {
        Some(PseudoClass::InRange)
    } else if eq_lit(l, "out-of-range") {
        Some(PseudoClass::OutOfRange)
    } else if eq_lit(l, "placeholder-shown") {
        Some(PseudoClass::PlaceholderShown)
    } else if eq_lit(l, "default") {
        Some(PseudoClass::Default)
    } else if eq_lit(l, "indeterminate") {
        Some(PseudoClass::Indeterminate)
    } else {
        None
    }
}

pub open spec fn view_complex(c: ComplexSelector) -> ComplexV
    decreases c, 6int,
{
    ComplexV { segments: view_segments(c.segments@), specificity: c.specificity.triple() }
}

pub open spec fn view_complexes(s: Seq<ComplexSelector>) -> Seq<ComplexV>
    decreases s, 5int,
{
    if s.len() == 0 {
        seq![]
    } else {
        view_complexes(s.drop_last()).push(view_complex(s.last()))
    }
}

pub open spec fn view_segments(s: Seq<SelectSegment>) -> Seq<SegmentV>
    decreases s, 4int,
{
    if s.len() == 0 {
        seq![]
    } else {
        view_segments(s.drop_last()).push(view_segment(s.last()))
    }
}

pub open spec fn view_segment(g: SelectSegment) -> SegmentV
    decreases g, 3int,
{
    SegmentV { combinator: g.combinator, parts: view_parts(g.parts@) }
}

pub open spec fn view_parts(s: Seq<BasicSelector>) -> Seq<BasicSelectorV>
    decreases s, 2int,
{
    if s.len() == 0 {
        seq![]
    } else {
        view_parts(s.drop_last()).push(view_basic(s.last()))
    }
}

pub open spec fn view_basic(b: BasicSelector) -> BasicSelectorV
    decreases b, 1int,
{
    match b {
        BasicSelector::Tag(s) => BasicSelectorV::Tag(s@),
        BasicSelector::Id(s) => BasicSelectorV::Id(s@),
        BasicSelector::Class(s) => BasicSelectorV::Class(s@),
        BasicSelector::Universal => BasicSelectorV::Universal,
        BasicSelector::Attribute { name, op, value } => BasicSelectorV::Attribute {
            name: name@,
            op,
            value: value@,
        },
        BasicSelector::PseudoClass(p) => BasicSelectorV::PseudoClass(view_pseudo(p)),
        BasicSelector::PseudoElement(e) => BasicSelectorV::PseudoElement(e),
    }
}

// ═══════════════════════ specificity weights ═══════════════════════

/// The contribution of one simple selector to `(ids, classes, tags)`.
pub open spec fn weight(b: BasicSelectorV) -> (int, int, int) {
    match b {
        BasicSelectorV::Id(_) => (1, 0, 0),
        BasicSelectorV::Class(_) => (0, 1, 0),
        BasicSelectorV::Attribute { .. } => (0, 1, 0),
        BasicSelectorV::PseudoClass(_) => (0, 1, 0),
        BasicSelectorV::Tag(_) => (0, 0, 1),
        BasicSelectorV::Universal => (0, 0, 0),
        BasicSelectorV::PseudoElement(_) => (0, 0, 0),
    }
}

pub open spec fn add3(a: (int, int, int), b: (int, int, int)) -> (int, int, int) {
    (a.0 + b.0, a.1 + b.1, a.2 + b.2)
}

/// The summed weights of a list of simple selectors.
pub open spec fn weights(s: Seq<BasicSelectorV>) -> (int, int, int)
    decreases s.len(),
{
    if s.len() == 0 {
        (0, 0, 0)
    } else {
        add3(weights(s.drop_last()), weight(s.last()))
    }
}

/// The summed weights of the parts of all segments.
pub open spec fn seg_weights(s: Seq<SegmentV>) -> (int, int, int)
    decreases s.len(),
{
    if s.len() == 0 {
        (0, 0, 0)
    } else {
        add3(seg_weights(s.drop_last()), weights(s.last().parts))
    }
}

/// Whether a selector's recorded specificity is the one its parts give.
pub open spec fn specificity_consistent(c: ComplexV) -> bool {
    c.specificity == seg_weights(c.segments)
}

pub proof fn lemma_weights_push(s: Seq<BasicSelectorV>, b: BasicSelectorV)
    ensures
        weights(s.push(b)) == add3(weights(s), weight(b)),
{
    assert(s.push(b).drop_last() =~= s);
}

pub proof fn lemma_weights_concat(a: Seq<BasicSelectorV>, b: Seq<BasicSelectorV>)
    ensures
        weights(a + b) == add3(weights(a), weights(b)),
    decreases b.len(),
{
    if b.len() == 0 {
        assert(a + b =~= a);
    } else {
        lemma_weights_concat(a, b.drop_last());
        assert((a + b).drop_last() =~= a + b.drop_last());
    }
}

pub proof fn lemma_weights_bound(s: Seq<BasicSelectorV>)
    ensures
        0 <= weights(s).0,
        0 <= weights(s).1,
        0 <= weights(s).2,
        weights(s).0 + weights(s).1 + weights(s).2 <= s.len(),
    decreases s.len(),
{
    if s.len() > 0 {
        lemma_weights_bound(s.drop_last());
    }
}

pub proof fn lemma_seg_weights_push(s: Seq<SegmentV>, g: SegmentV)
    ensures
        seg_weights(s.push(g)) == add3(seg_weights(s), weights(g.parts)),
{
    assert(s.push(g).drop_last() =~= s);
}

/// Viewing simple selectors keeps their number.
pub proof fn lemma_view_parts_len(s: Seq<BasicSelector>)
    ensures
        view_parts(s).len() == s.len(),
    decreases s.len(),
{
    if s.len() > 0 {
        lemma_view_parts_len(s.drop_last());
    }
}

/// Viewing segments keeps their number.
pub proof fn lemma_view_segments_len(s: Seq<SelectSegment>)
    ensures
        view_segments(s).len() == s.len(),
    decreases s.len(),
{
    if s.len() > 0 {
        lemma_view_segments_len(s.drop_last());
    }
}

pub proof fn lemma_view_parts_push(s: Seq<BasicSelector>, b: BasicSelector)
    ensures
        view_parts(s.push(b)) == view_parts(s).push(view_basic(b)),
{
    assert(s.push(b).drop_last() =~= s);
}

pub proof fn lemma_view_segments_push(s: Seq<SelectSegment>, g: SelectSegment)
    ensures
        view_segments(s.push(g)) == view_segments(s).push(view_segment(g)),
{
    assert(s.push(g).drop_last() =~= s);
}

pub proof fn lemma_view_complexes_push(s: Seq<ComplexSelector>, c: ComplexSelector)
    ensures
        view_complexes(s.push(c)) == view_complexes(s).push(view_complex(c)),
{
    assert(s.push(c).drop_last() =~= s);
}


// ═══════════════════════ the selector grammar ═══════════════════════

/// Characters that end a name inside a compound selector.
pub open spec fn is_delim(c: char) -> bool {
    c == '.' || c == '#' || c == ':' || c == '[' || c == ' ' || c == '>' || c == '+' || c == '~'
}

pub open spec fn delim_pred() -> spec_fn(char) -> bool {
    |c: char| is_delim(c)
}

/// Characters that end a pseudo-class or pseudo-element name.
pub open spec fn name_stop_pred() -> spec_fn(char) -> bool {
    |c: char| !alphanumeric(c) && c != '-'
}

/// Characters that start an attribute operator.
pub open spec fn attr_op_pred() -> spec_fn(char) -> bool {
    |c: char| c == '=' || c == '~' || c == '|' || c == '^' || c == '$' || c == '*'
}

/// Position of the `)` that closes an already open parenthesis, scanning
/// from `i` at nesting `depth`.
pub open spec fn paren_scan(s: Seq<char>, i: int, depth: int) -> Option<int>
    decreases s.len() - i,
{
    if i < 0 || i >= s.len() {
        None
    } else if s[i] == '(' {
        paren_scan(s, i + 1, depth + 1)
    } else if s[i] == ')' {
        if depth - 1 == 0 {
            Some(i)
        } else {
            paren_scan(s, i + 1, depth - 1)
        }
    } else {
        paren_scan(s, i + 1, depth)
    }
}

/// Position of the `)` that closes a parenthesis opened just before `s`.
pub open spec fn paren_end_spec(s: Seq<char>) -> Option<int> {
    paren_scan(s, 0, 1)
}

/// The text between `(` and its matching `)` at the start of `trim(s)`.
pub open spec fn paren_content_spec(s: Seq<char>) -> Option<Seq<char>> {
    let t = trim(s);
    if t.len() > 0 && t[0] == '(' {
        let u = t.drop_first();
        match paren_end_spec(u) {
            Some(i) => Some(u.take(i)),
            None => None,
        }
    } else {
        None
    }
}

/// The string argument of `:lang(..)` / `:dir(..)`.
pub open spec fn paren_string_spec(s: Seq<char>) -> Option<Seq<char>> {
    match paren_content_spec(s) {
        Some(inner) => Some(trim_matches(trim_matches(trim(inner), '"'), '\'')),
        None => None,
    }
}

/// The `a` of `an+b`, read from the text before `n`.
pub open spec fn nth_a_spec(a: Seq<char>) -> Option<i32> {
    if a.len() == 0 || a == "+"@ {
        Some(1)
    } else if a == "-"@ {
        Some(-1i32)
    } else {
        parse_i32_spec(a)
    }
}

/// The `b` of `an+b`, read from the text after `n`.
pub open spec fn nth_b_spec(b: Seq<char>) -> Option<i32> {
    if b.len() == 0 {
        Some(0)
    } else {
        parse_i32_spec(trim_start_matches(b, '+'))
    }
}

/// The `(a, b)` of an `:nth-*( .. )` argument.
pub open spec fn nth_args_spec(s: Seq<char>) -> Option<(i32, i32)> {
    let t = trim(s);
    if t.len() > 0 && t[0] == '(' && t.drop_first().len() > 0 && t.last() == ')' {
        let inner = trim(t.drop_first().drop_last());
        if inner == "even"@ {
            Some((2, 0))
        } else if inner == "odd"@ {
            Some((2, 1))
        } else {
            match parse_i32_spec(inner) {
                Some(n) => Some((0, n)),
                None => match find_char(inner, 'n') {
                    Some(p) => match (
                        nth_a_spec(trim(inner.take(p))),
                        nth_b_spec(trim(inner.skip(p + 1))),
                    ) {
                        (Some(a), Some(b)) => Some((a, b)),
                        _ => None,
                    },
                    None => None,
                },
            }
        }
    } else {
        None
    }
}

/// The operator that the text up to and including `=` in an attribute
/// selector names.
pub open spec fn attr_op_spec(op: Seq<char>) -> AttrOp {
    if op == "~="@ {
        AttrOp::WordMatch
    } else if op == "|="@ {
        AttrOp::HyphenMatch
    } else if op == "^="@ {
        AttrOp::StartsWith
    } else if op == "$="@ {
        AttrOp::EndsWith
    } else if op == "*="@ {
        AttrOp::Contains
    } else {
        AttrOp::Exact
    }
}

/// The `(name, op, value)` of the text between `[` and `]`.
pub open spec fn attribute_spec(content: Seq<char>) -> (Seq<char>, AttrOp, Seq<char>) {
    let t = trim(content);
    match find_first(t, attr_op_pred()) {
        Some(pos) => {
            let name = trim(t.take(pos));
            let rest = t.skip(pos);
            match find_char(rest, '=') {
                Some(e) => (
                    name,
                    attr_op_spec(rest.take(e + 1)),
                    trim_matches(trim_matches(trim(rest.skip(e + 1)), '"'), '\''),
                ),
                None => (name, AttrOp::Has, Seq::empty()),
            }
        },
        None => (t, AttrOp::Has, Seq::empty()),
    }
}

/// The pseudo-element that a lowercase name names.
pub open spec fn pseudo_element_spec(l: Seq<char>) -> Option<PseudoElement> {
    if l == "before"@ {
        Some(PseudoElement::Before)
    } else if l == "after"@ {
        Some(PseudoElement::After)
    } else if l == "first-line"@ {
        Some(PseudoElement::FirstLine)
    } else if l == "first-letter"@ {
        Some(PseudoElement::FirstLetter)
    } else if l == "marker"@ {
        Some(PseudoElement::Marker)
    } else if l == "placeholder"@ {
        Some(PseudoElement::Placeholder)
    } else if l == "selection"@ {
        Some(PseudoElement::Selection)
    } else if l == "backdrop"@ {
        Some(PseudoElement::Backdrop)
    } else {
        None
    }
}

/// What a compound selector yields: its simple selectors and the text after it.
pub struct CompoundV {
    pub parts: Seq<BasicSelectorV>,
    pub rest: Seq<char>,
}

pub open spec fn prepend(b: BasicSelectorV, c: CompoundV) -> CompoundV {
    CompoundV { parts: seq![b] + c.parts, rest: c.rest }
}

/// The end of a name that follows a one-character sigil (`#`, `.`).
pub open spec fn sigil_name_end(s: Seq<char>) -> int {
    match find_first(s.drop_first(), delim_pred()) {
        Some(i) => i + 1,
        None => s.len() as int,
    }
}

/// The end of the pseudo-class or pseudo-element name in `t`.
pub open spec fn pseudo_name_end(t: Seq<char>) -> int {
    match find_first(t, name_stop_pred()) {
        Some(i) => i,
        None => t.len() as int,
    }
}

/// The end of a tag name at the start of `s`.
pub open spec fn tag_end(s: Seq<char>) -> int {
    match find_first(s, delim_pred()) {
        Some(i) => i,
        None => s.len() as int,
    }
}

/// Where the bracketed argument at the start of `after` ends: just past the
/// `)` that closes a `(` standing first, or `0` when there is none.
pub open spec fn arg_end(after: Seq<char>) -> int {
    if after.len() > 0 && after[0] == '(' {
        match paren_scan(after, 1, 1) {
            Some(i) => i + 1,
            None => 0,
        }
    } else {
        0
    }
}

/// A complex selector read from `s`.
pub open spec fn complex_spec(s: Seq<char>) -> Option<ComplexV>
    decreases s.len(), 6int, 0int,
{
    let t = trim(s);
    proof {
        lemma_trim_len(s);
    }
    if t.len() == 0 {
        None
    } else {
        let segs = complex_loop_spec(t);
        if segs.len() == 0 {
            None
        } else {
            Some(ComplexV { segments: segs, specificity: seg_weights(segs) })
        }
    }
}

/// The combinator at the start of trimmed text, and the text after it.
pub open spec fn leading_combinator(r0: Seq<char>) -> (Combinator, Seq<char>) {
    if r0.len() > 0 && r0[0] == '>' {
        (Combinator::Child, trim_start(r0.drop_first()))
    } else if r0.len() > 0 && r0[0] == '+' {
        (Combinator::Adjacent, trim_start(r0.drop_first()))
    } else if r0.len() > 0 && r0[0] == '~' {
        (Combinator::Sibling, trim_start(r0.drop_first()))
    } else {
        (Combinator::Descendant, r0)
    }
}

/// The segments read from `rem` onwards.
pub open spec fn complex_loop_spec(rem: Seq<char>) -> Seq<SegmentV>
    decreases rem.len(), 5int, 0int,
{
    let r0 = trim_start(rem);
    proof {
        lemma_trim_start_suffix(rem);
        lemma_leading_combinator_len(r0);
    }
    if r0.len() == 0 {
        seq![]
    } else {
        let (comb, r1) = leading_combinator(r0);
        let cp = compound_spec(r1);
        if cp.parts.len() == 0 {
            seq![]
        } else if cp.rest.len() < rem.len() {
            seq![SegmentV { combinator: comb, parts: cp.parts }] + complex_loop_spec(cp.rest)
        } else {
            seq![SegmentV { combinator: comb, parts: cp.parts }]
        }
    }
}

/// The compound selector at the start of `s`.
pub open spec fn compound_spec(s: Seq<char>) -> CompoundV
    decreases s.len(), 4int, 0int,
{
    if s.len() == 0 {
        CompoundV { parts: seq![], rest: s }
    } else {
        let c = s[0];
        if c == '#' || c == '.' {
            let end = sigil_name_end(s);
            proof {
                lemma_find_first_bounds(s.drop_first(), delim_pred());
            }
            let name = s.subrange(1, end);
            let r = compound_spec(s.skip(end));
            if name.len() > 0 {
                prepend(if c == '#' { BasicSelectorV::Id(name) } else { BasicSelectorV::Class(name) }, r)
            } else {
                r
            }
        } else if c == ':' {
            let dbl = s.len() >= 2 && s[1] == ':';
            let off: int = if dbl { 2 } else { 1 };
            let t = s.skip(off);
            let ne = pseudo_name_end(t);
            proof {
                lemma_find_first_bounds(t, name_stop_pred());
            }
            let name = t.take(ne);
            let after = t.skip(ne);
            if dbl {
                let r = compound_spec(after);
                match pseudo_element_spec(lowercase_of(name)) {
                    Some(pe) => prepend(BasicSelectorV::PseudoElement(pe), r),
                    None => r,
                }
            } else {
                let k = arg_end(after);
                proof {
                    lemma_paren_scan_bounds(after, 1, 1);
                }
                let r = compound_spec(after.skip(k));
                match pseudo_class_spec(lowercase_of(name), after.take(k)) {
                    Some(pc) => prepend(BasicSelectorV::PseudoClass(pc), r),
                    None => r,
                }
            }
        } else if c == '[' {
            match find_char(s, ']') {
                Some(b) => {
                    proof {
                        lemma_find_first_bounds(s, eq_pred(']'));
                    }
                    let (n, o, v) = attribute_spec(s.subrange(1, b));
                    prepend(
                        BasicSelectorV::Attribute { name: n, op: o, value: v },
                        compound_spec(s.skip(b + 1)),
                    )
                },
                None => CompoundV { parts: seq![], rest: s },
            }
        } else if c == '*' {
            prepend(BasicSelectorV::Universal, compound_spec(s.drop_first()))
        } else if c == ' ' || c == '>' || c == '+' || c == '~' {
            CompoundV { parts: seq![], rest: s }
        } else {
            let end = tag_end(s);
            proof {
                lemma_find_first_bounds(s, delim_pred());
            }
            if end > 0 {
                prepend(BasicSelectorV::Tag(lowercase_of(s.take(end))), compound_spec(s.skip(end)))
            } else {
                CompoundV { parts: seq![], rest: s }
            }
        }
    }
}

/// The pseudo-class that lowercase name `l`, with argument text `rest`, names.
pub open spec fn pseudo_class_spec(l: Seq<char>, rest: Seq<char>) -> Option<PseudoClassV>
    decreases rest.len(), 3int, 0int,
{
    match keyword_pseudo_spec(l) {
        Some(p) => Some(p),
        None => if l == "nth-child"@ {
            match nth_args_spec(rest) {
                Some((a, b)) => Some(PseudoClassV::NthChild(a, b)),
                None => None,
            }
        } else if l == "nth-last-child"@ {
            match nth_args_spec(rest) {
                Some((a, b)) => Some(PseudoClassV::NthLastChild(a, b)),
                None => None,
            }
        } else if l == "nth-of-type"@ {
            match nth_args_spec(rest) {
                Some((a, b)) => Some(PseudoClassV::NthOfType(a, b)),
                None => None,
            }
        } else if l == "nth-last-of-type"@ {
            match nth_args_spec(rest) {
                Some((a, b)) => Some(PseudoClassV::NthLastOfType(a, b)),
                None => None,
            }
        } else if l == "not"@ {
            match paren_selector_spec(rest) {
                Some(c) => Some(PseudoClassV::Not(Box::new(c))),
                None => None,
            }
        } else if l == "is"@ {
            match paren_list_spec(rest) {
                Some(v) => Some(PseudoClassV::Is(v)),
                None => None,
            }
        } else if l == "where"@ {
            match paren_list_spec(rest) {
                Some(v) => Some(PseudoClassV::Where(v)),
                None => None,
            }
        } else if l == "has"@ {
            match paren_selector_spec(rest) {
                Some(c) => Some(PseudoClassV::Has(Box::new(c))),
                None => None,
            }
        } else if l == "lang"@ {
            match paren_string_spec(rest) {
                Some(v) => Some(PseudoClassV::Lang(v)),
                None => None,
            }
        } else if l == "dir"@ {
            match paren_string_spec(rest) {
                Some(v) => Some(PseudoClassV::Dir(v)),
                None => None,
            }
        } else {
            None
        },
    }
}

/// The selector inside the parentheses at the start of `rest`.
pub open spec fn paren_selector_spec(rest: Seq<char>) -> Option<ComplexV>
    decreases rest.len(), 2int, 0int,
{
    match paren_content_spec(rest) {
        Some(inner) => {
            proof {
                lemma_paren_content_shorter(rest);
            }
            complex_spec(inner)
        },
        None => None,
    }
}

/// The comma-separated selectors inside the parentheses at the start of
/// `rest`; pieces that do not parse are left out, and an empty list is `None`.
pub open spec fn paren_list_spec(rest: Seq<char>) -> Option<Seq<ComplexV>>
    decreases rest.len(), 2int, 0int,
{
    match paren_content_spec(rest) {
        Some(inner) => {
            let l = complex_list_spec(split(inner, ','), rest.len() as int);
            if l.len() == 0 {
                None
            } else {
                Some(l)
            }
        },
        None => None,
    }
}

/// The selectors read from each (trimmed) piece; `n` bounds the pieces' length.
pub open spec fn complex_list_spec(pieces: Seq<Seq<char>>, n: int) -> Seq<ComplexV>
    decreases n, 1int, pieces.len(),
{
    if pieces.len() == 0 {
        seq![]
    } else {
        let p = trim(pieces[0]);
        let tail = complex_list_spec(pieces.drop_first(), n);
        if p.len() < n {
            match complex_spec(p) {
                Some(c) => seq![c] + tail,
                None => tail,
            }
        } else {
            tail
        }
    }
}

// ═══════════════════════ grammar lemmas ═══════════════════════

pub proof fn lemma_leading_combinator_len(r0: Seq<char>)
    ensures
        leading_combinator(r0).1.len() <= r0.len(),
{
    if r0.len() > 0 {
        lemma_trim_start_suffix(r0.drop_first());
    }
}

pub proof fn lemma_paren_scan_bounds(s: Seq<char>, i: int, depth: int)
    ensures
        match paren_scan(s, i, depth) {
            Some(k) => 0 <= i <= k < s.len() && s[k] == ')',
            None => true,
        },
    decreases s.len() - i,
{
    if 0 <= i < s.len() {
        lemma_paren_scan_bounds(s, i + 1, depth + 1);
        lemma_paren_scan_bounds(s, i + 1, depth - 1);
        lemma_paren_scan_bounds(s, i + 1, depth);
    }
}

pub proof fn lemma_paren_content_shorter(s: Seq<char>)
    ensures
        match paren_content_spec(s) {
            Some(inner) => inner.len() < s.len(),
            None => true,
        },
{
    lemma_trim_len(s);
    let t = trim(s);
    if t.len() > 0 && t[0] == '(' {
        lemma_paren_scan_bounds(t.drop_first(), 0, 1);
    }
}


pub proof fn lemma_split_pieces_len(s: Seq<char>, c: char)
    ensures
        forall|i: int| 0 <= i < split(s, c).len() ==> (#[trigger] split(s, c)[i]).len() <= s.len(),
    decreases s.len(),
{
    lemma_find_first_bounds(s, eq_pred(c));
    match find_char(s, c) {
        None => {},
        Some(i) => {
            lemma_split_pieces_len(s.skip(i + 1), c);
            let rest = split(s.skip(i + 1), c);
            assert forall|k: int| 0 <= k < split(s, c).len() implies (#[trigger] split(s, c)[k]).len()
                <= s.len() by {
                if k > 0 {
                    assert(split(s, c)[k] == rest[k - 1]);
                }
            }
        },
    }
}

/// Where a compound selector ends: a suffix of its text, at least one
/// character shorter per simple selector read.
pub proof fn lemma_compound_facts(s: Seq<char>)
    ensures
        compound_spec(s).rest.len() <= s.len(),
        compound_spec(s).rest == s.skip(s.len() - compound_spec(s).rest.len()),
        compound_spec(s).parts.len() <= s.len() - compound_spec(s).rest.len(),
    decreases s.len(),
{
    if s.len() == 0 {
        assert(s.skip(0) =~= s);
    } else {
        let c = s[0];
        if c == '#' || c == '.' {
            lemma_find_first_bounds(s.drop_first(), delim_pred());
            let end = sigil_name_end(s);
            lemma_compound_facts(s.skip(end));
            let r = compound_spec(s.skip(end));
            assert(s.skip(end).skip(s.skip(end).len() - r.rest.len()) =~= s.skip(s.len() - r.rest.len()));
        } else if c == ':' {
            let dbl = s.len() >= 2 && s[1] == ':';
            let off: int = if dbl { 2 } else { 1 };
            let t = s.skip(off);
            lemma_find_first_bounds(t, name_stop_pred());
            let ne = pseudo_name_end(t);
            let after = t.skip(ne);
            assert(after =~= s.skip(off + ne));
            lemma_compound_facts(after);
            let r = compound_spec(after);
            assert(after.skip(after.len() - r.rest.len()) =~= s.skip(s.len() - r.rest.len()));
            if !dbl {
                lemma_paren_scan_bounds(after, 1, 1);
                let k = arg_end(after);
                lemma_compound_facts(after.skip(k));
                let r2 = compound_spec(after.skip(k));
                assert(after.skip(k).skip(after.skip(k).len() - r2.rest.len()) =~= s.skip(
                    s.len() - r2.rest.len(),
                ));
            }
        } else if c == '[' {
            lemma_find_first_bounds(s, eq_pred(']'));
            match find_char(s, ']') {
                Some(b) => {
                    lemma_compound_facts(s.skip(b + 1));
                    let r = compound_spec(s.skip(b + 1));
                    assert(s.skip(b + 1).skip(s.skip(b + 1).len() - r.rest.len()) =~= s.skip(
                        s.len() - r.rest.len(),
                    ));
                },
                None => {
                    assert(s.skip(0) =~= s);
                },
            }
        } else if c == '*' {
            lemma_compound_facts(s.drop_first());
            let r = compound_spec(s.drop_first());
            assert(s.drop_first().skip(s.drop_first().len() - r.rest.len()) =~= s.skip(
                s.len() - r.rest.len(),
            ));
        } else if c == ' ' || c == '>' || c == '+' || c == '~' {
            assert(s.skip(0) =~= s);
        } else {
            lemma_find_first_bounds(s, delim_pred());
            let end = tag_end(s);
            if end > 0 {
                lemma_compound_facts(s.skip(end));
                let r = compound_spec(s.skip(end));
                assert(s.skip(end).skip(s.skip(end).len() - r.rest.len()) =~= s.skip(
                    s.len() - r.rest.len(),
                ));
            } else {
                assert(s.skip(0) =~= s);
            }
        }
    }
}

// ═══════════════════════ the parser ═══════════════════════

/// Texts of at most `u32::MAX` characters: every count of simple selectors
/// is at most the number of characters, so it fits in a `u32`.
pub open spec fn fits(s: Seq<char>) -> bool {
    s.len() <= u32::MAX
}

pub open spec fn opt_index(r: Option<usize>) -> Option<int> {
    match r {
        Some(i) => Some(i as int),
        None => None,
    }
}

/// The first delimiter in `s`.
fn find_delim(s: &[char]) -> (r: Option<usize>)
    ensures
        opt_index(r) == find_first(s@, delim_pred()),
{
    let mut i: usize = 0;
    while i < s.len()
        invariant
            i <= s@.len(),
            forall|j: int| 0 <= j < i ==> !is_delim(#[trigger] s@[j]),
        decreases s.len() - i,
    {
        let c = s[i];
        if c == '.' || c == '#' || c == ':' || c == '[' || c == ' ' || c == '>' || c == '+' || c == '~' {
            proof {
                lemma_find_first_from(s@, delim_pred(), i as int);
            }
            return Some(i);
        }
        i += 1;
    }
    proof {
        lemma_find_first_from(s@, delim_pred(), i as int);
    }
    None
}

/// The first character of `s` that ends a pseudo name.
fn find_name_stop(s: &[char]) -> (r: Option<usize>)
    ensures
        opt_index(r) == find_first(s@, name_stop_pred()),
{
    let mut i: usize = 0;
    while i < s.len()
        invariant
            i <= s@.len(),
            forall|j: int| 0 <= j < i ==> alphanumeric(#[trigger] s@[j]) || s@[j] == '-',
        decreases s.len() - i,
    {
        let c = s[i];
        if !is_alphanumeric(c) && c != '-' {
            proof {
                lemma_find_first_from(s@, name_stop_pred(), i as int);
            }
            return Some(i);
        }
        i += 1;
    }
    proof {
        lemma_find_first_from(s@, name_stop_pred(), i as int);
    }
    None
}

/// The first character of `s` that starts an attribute operator.
fn find_attr_op(s: &[char]) -> (r: Option<usize>)
    ensures
        opt_index(r) == find_first(s@, attr_op_pred()),
{
    let mut i: usize = 0;
    while i < s.len()
        invariant
            i <= s@.len(),
            forall|j: int| 0 <= j < i ==> !(#[trigger] attr_op_pred()(s@[j])),
        decreases s.len() - i,
    {
        let c = s[i];
        if c == '=' || c == '~' || c == '|' || c == '^' || c == '$' || c == '*' {
            proof {
                lemma_find_first_from(s@, attr_op_pred(), i as int);
            }
            return Some(i);
        }
        i += 1;
    }
    proof {
        lemma_find_first_from(s@, attr_op_pred(), i as int);
    }
    None
}

/// Position of the `)` that closes a parenthesis opened just before `s`.
pub(crate) fn find_paren_end(s: &[char]) -> (r: Option<usize>)
    ensures
        opt_index(r) == paren_end_spec(s@),
{
    // the parentheses opened inside, beyond the one already open
    let mut open: usize = 0;
    let mut i: usize = 0;
    while i < s.len()
        invariant
            i <= s@.len(),
            open <= i,
            paren_end_spec(s@) == paren_scan(s@, i as int, open + 1),
        decreases s.len() - i,
    {
        let c = s[i];
        if c == '(' {
            open += 1;
        } else if c == ')' {
            if open == 0 {
                return Some(i);
            }
            open -= 1;
        }
        i += 1;
    }
    None
}

/// The text between `(` and its matching `)` at the start of the trimmed text.
fn find_paren_content(s: &[char]) -> (r: Option<Vec<char>>)
    ensures
        match r {
            Some(v) => paren_content_spec(s@) == Some(v@),
            None => paren_content_spec(s@) is None,
        },
{
    let t = trim_chars(s);
    proof {
        lemma_trim_len(s@);
    }
    if t.len() > 0 && t[0] == '(' {
        let u = suffix(&t, 1);
        assert(u@ =~= t@.drop_first());
        match find_paren_end(&u) {
            Some(i) => {
                proof {
                    lemma_paren_scan_bounds(u@, 0, 1);
                }
                let inner = slice_of(&u, 0, i);
                assert(inner@ =~= u@.take(i as int));
                Some(inner)
            },
            None => None,
        }
    } else {
        None
    }
}

fn parse_paren_string(s: &[char]) -> (r: Option<String>)
    ensures
        match r {
            Some(v) => paren_string_spec(s@) == Some(v@),
            None => paren_string_spec(s@) is None,
        },
{
    let inner = find_paren_content(s)?;
    let t = trim_chars(&inner);
    let t = trim_matches_chars(&t, '"');
    let t = trim_matches_chars(&t, '\'');
    Some(string_of(&t))
}

fn nth_a(a: &[char]) -> (r: Option<i32>)
    ensures
        r == nth_a_spec(a@),
{
    if a.len() == 0 || eq_lit(a, "+") {
        Some(1)
    } else if eq_lit(a, "-") {
        Some(-1)
    } else {
        parse_i32(a)
    }
}

fn nth_b(b: &[char]) -> (r: Option<i32>)
    ensures
        r == nth_b_spec(b@),
{
    if b.len() == 0 {
        Some(0)
    } else {
        let t = trim_start_matches_chars(b, '+');
        parse_i32(&t)
    }
}

/// The `(a, b)` of an `:nth-*( .. )` argument.
fn parse_nth_args(s: &[char]) -> (r: Option<(i32, i32)>)
    ensures
        r == nth_args_spec(s@),
{
    let t = trim_chars(s);
    if !(t.len() > 0 && t[0] == '(') {
        return None;
    }
    let u = suffix(&t, 1);
    assert(u@ =~= t@.drop_first());
    if !(u.len() > 0 && u[u.len() - 1] == ')') {
        return None;
    }
    let body = slice_of(&u, 0, u.len() - 1);
    assert(body@ =~= u@.drop_last());
    let inner = trim_chars(&body);
    if eq_lit(&inner, "even") {
        return Some((2, 0));
    }
    if eq_lit(&inner, "odd") {
        return Some((2, 1));
    }
    match parse_i32(&inner) {
        Some(n) => Some((0, n)),
        None => match find_char_in(&inner, 'n') {
            Some(p) => {
                proof {
                    lemma_find_first_bounds(inner@, eq_pred('n'));
                    assert(p < inner@.len());
                }
                let a_str = trim_chars(&slice_of(&inner, 0, p));
                let b_str = trim_chars(&suffix(&inner, p + 1));
                assert(inner@.subrange(0, p as int) =~= inner@.take(p as int));
                match (nth_a(&a_str), nth_b(&b_str)) {
                    (Some(a), Some(b)) => Some((a, b)),
                    _ => None,
                }
            },
            None => None,
        },
    }
}

/// The operator that the text up to and including `=` names.
fn attr_op_of(op: &[char]) -> (r: AttrOp)
    ensures
        r == attr_op_spec(op@),
{
    if eq_lit(op, "~=") {
        AttrOp::WordMatch
    } else if eq_lit(op, "|=") {
        AttrOp::HyphenMatch
    } else if eq_lit(op, "^=") {
        AttrOp::StartsWith
    } else if eq_lit(op, "$=") {
        AttrOp::EndsWith
    } else if eq_lit(op, "*=") {
        AttrOp::Contains
    } else {
        AttrOp::Exact
    }
}

/// The `(name, op, value)` of the text between `[` and `]`; always `Some`.
fn parse_attribute(content: &[char]) -> (r: Option<(String, AttrOp, String)>)
    ensures
        match r {
            Some((n, o, v)) => attribute_spec(content@) == (n@, o, v@),
            None => false,
        },
{
    let t = trim_chars(content);
    match find_attr_op(&t) {
        Some(pos) => {
            proof {
                lemma_find_first_bounds(t@, attr_op_pred());
            }
            let name = trim_chars(&slice_of(&t, 0, pos));
            assert(t@.subrange(0, pos as int) =~= t@.take(pos as int));
            let rest = suffix(&t, pos);
            match find_char_in(&rest, '=') {
                Some(e) => {
                    proof {
                        lemma_find_first_bounds(rest@, eq_pred('='));
                    }
                    let opv = slice_of(&rest, 0, e + 1);
                    assert(rest@.subrange(0, e + 1) =~= rest@.take(e + 1));
                    let op = attr_op_of(&opv);
                    let v = trim_chars(&suffix(&rest, e + 1));
                    let v = trim_matches_chars(&v, '"');
                    let v = trim_matches_chars(&v, '\'');
                    Some((string_of(&name), op, string_of(&v)))
                },
                None => Some((string_of(&name), AttrOp::Has, String::new())),
            }
        },
        None => Some((string_of(&t), AttrOp::Has, String::new())),
    }
}

/// The pseudo-element that a lowercase name names.
pub fn pseudo_element_keyword(l: &[char]) -> (r: Option<PseudoElement>)
    ensures
        r == pseudo_element_spec(l@),
{
    if eq_lit(l, "before") {
        Some(PseudoElement::Before)
    } else if eq_lit(l, "after") {
        Some(PseudoElement::After)
    } else if eq_lit(l, "first-line") {
        Some(PseudoElement::FirstLine)
    } else if eq_lit(l, "first-letter") {
        Some(PseudoElement::FirstLetter)
    } else if eq_lit(l, "marker") {
        Some(PseudoElement::Marker)
    } else if eq_lit(l, "placeholder") {
        Some(PseudoElement::Placeholder)
    } else if eq_lit(l, "selection") {
        Some(PseudoElement::Selection)
    } else if eq_lit(l, "backdrop") {
        Some(PseudoElement::Backdrop)
    } else {
        None
    }
}

/// The pseudo-element that `name` names, in any letter case.
fn parse_pseudo_element(name: &[char]) -> (r: Option<PseudoElement>)
    ensures
        r == pseudo_element_spec(lowercase_of(name@)),
{
    let l = lowercase(name);
    pseudo_element_keyword(&l)
}

/// Where the bracketed argument at the start of `after` ends.
fn arg_end_exec(after: &[char]) -> (r: usize)
    ensures
        r == arg_end(after@),
{
    if after.len() == 0 || after[0] != '(' {
        return 0;
    }
    let mut depth: usize = 1;
    let mut i: usize = 1;
    while i < after.len()
        invariant
            1 <= i <= after@.len(),
            1 <= depth <= i,
            after@.len() > 0 && after@[0] == '(',
            paren_scan(after@, 1, 1) == paren_scan(after@, i as int, depth as int),
        decreases after.len() - i,
    {
        let c = after[i];
        if c == '(' {
            depth += 1;
        } else if c == ')' {
            if depth == 1 {
                return i + 1;
            }
            depth -= 1;
        }
        i += 1;
    }
    0
}

/// The pseudo-class that `name` names, in any letter case, with argument
/// text `rest`.
fn parse_pseudo_class(name: &[char], rest: &[char]) -> (r: Option<PseudoClass>)
    requires
        fits(rest@),
    ensures
        match r {
            Some(p) => pseudo_class_spec(lowercase_of(name@), rest@) == Some(view_pseudo(p)),
            None => pseudo_class_spec(lowercase_of(name@), rest@) is None,
        },
    decreases rest@.len(), 3int, 1int,
{
    let l = lowercase(name);
    pseudo_class_from_lower(&l, rest)
}

/// The pseudo-class that the lowercase name `l`, with argument text `rest`, names.
pub fn pseudo_class_from_lower(l: &[char], rest: &[char]) -> (r: Option<PseudoClass>)
    requires
        fits(rest@),
    ensures
        match r {
            Some(p) => pseudo_class_spec(l@, rest@) == Some(view_pseudo(p)),
            None => pseudo_class_spec(l@, rest@) is None,
        },
    decreases rest@.len(), 3int, 0int,
{
    match keyword_pseudo(l) {
        Some(p) => return Some(p),
        None => {},
    }
    if eq_lit(l, "nth-child") {
        match parse_nth_args(rest) {
            Some((a, b)) => Some(PseudoClass::NthChild(a, b)),
            None => None,
        }
    } else if eq_lit(l, "nth-last-child") {
        match parse_nth_args(rest) {
            Some((a, b)) => Some(PseudoClass::NthLastChild(a, b)),
            None => None,
        }
    } else if eq_lit(l, "nth-of-type") {
        match parse_nth_args(rest) {
            Some((a, b)) => Some(PseudoClass::NthOfType(a, b)),
            None => None,
        }
    } else if eq_lit(l, "nth-last-of-type") {
        match parse_nth_args(rest) {
            Some((a, b)) => Some(PseudoClass::NthLastOfType(a, b)),
            None => None,
        }
    } else if eq_lit(l, "not") {
        match parse_paren_selector(rest) {
            Some(c) => Some(PseudoClass::Not(Box::new(c))),
            None => None,
        }
    } else if eq_lit(l, "is") {
        match parse_paren_selector_list(rest) {
            Some(v) => Some(PseudoClass::Is(v)),
            None => None,
        }
    } else if eq_lit(l, "where") {
        match parse_paren_selector_list(rest) {
            Some(v) => Some(PseudoClass::Where(v)),
            None => None,
        }
    } else if eq_lit(l, "has") {
        match parse_paren_selector(rest) {
            Some(c) => Some(PseudoClass::Has(Box::new(c))),
            None => None,
        }
    } else if eq_lit(l, "lang") {
        match parse_paren_string(rest) {
            Some(v) => Some(PseudoClass::Lang(v)),
            None => None,
        }
    } else if eq_lit(l, "dir") {
        match parse_paren_string(rest) {
            Some(v) => Some(PseudoClass::Dir(v)),
            None => None,
        }
    } else {
        None
    }
}

/// The selector inside the parentheses at the start of `s`.
fn parse_paren_selector(s: &[char]) -> (r: Option<ComplexSelector>)
    requires
        fits(s@),
    ensures
        match r {
            Some(c) => paren_selector_spec(s@) == Some(view_complex(c)),
            None => paren_selector_spec(s@) is None,
        },
    decreases s@.len(), 2int, 0int,
{
    proof {
        lemma_paren_content_shorter(s@);
    }
    let inner = find_paren_content(s)?;
    parse_chars(&inner)
}

/// The comma-separated selectors inside the parentheses at the start of `s`.
fn parse_paren_selector_list(s: &[char]) -> (r: Option<Vec<ComplexSelector>>)
    requires
        fits(s@),
    ensures
        match r {
            Some(v) => paren_list_spec(s@) == Some(view_complexes(v@)),
            None => paren_list_spec(s@) is None,
        },
    decreases s@.len(), 2int, 0int,
{
    proof {
        lemma_paren_content_shorter(s@);
    }
    let inner = find_paren_content(s)?;
    let pieces = split_chars(&inner, ',');
    let ghost ps = split(inner@, ',');
    proof {
        lemma_split_pieces_len(inner@, ',');
        assert(ps.skip(0) =~= ps);
    }
    let ghost n = s@.len() as int;
    let mut list: Vec<ComplexSelector> = Vec::new();
    let mut k: usize = 0;
    while k < pieces.len()
        invariant
            fits(s@),
            n == s@.len(),
            views(pieces@) == ps,
            k <= pieces@.len(),
            forall|i: int| 0 <= i < ps.len() ==> (#[trigger] ps[i]).len() < n,
            complex_list_spec(ps, n) == view_complexes(list@) + complex_list_spec(ps.skip(k as int), n),
        decreases pieces.len() - k,
    {
        assert(ps[k as int] == pieces@[k as int]@);
        let piece = trim_chars(&pieces[k]);
        proof {
            lemma_trim_len(pieces@[k as int]@);
            assert(ps.skip(k as int).drop_first() =~= ps.skip(k + 1));
            assert(ps.skip(k as int)[0] == ps[k as int]);
        }
        match parse_chars(&piece) {
            Some(c) => {
                proof {
                    lemma_view_complexes_push(list@, c);
                }
                list.push(c);
                assert(view_complexes(list@) + complex_list_spec(ps.skip(k + 1), n) =~= view_complexes(
                    list@.drop_last(),
                ) + (seq![view_complex(c)] + complex_list_spec(ps.skip(k + 1), n)));
            },
            None => {},
        }
        k += 1;
    }
    proof {
        assert(ps.skip(k as int) =~= Seq::<Seq<char>>::empty());
        assert(view_complexes(list@) + Seq::<ComplexV>::empty() =~= view_complexes(list@));
    }
    if list.len() == 0 {
        None
    } else {
        Some(list)
    }
}

/// Reads the compound selector at the start of `s`: its simple selectors, the
/// text after it, and its specificity.
#[verifier::rlimit(40)]
fn parse_compound_selector(s: &[char]) -> (r: (Vec<BasicSelector>, Vec<char>, Specificity))
    requires
        fits(s@),
    ensures
        compound_spec(s@) == (CompoundV { parts: view_parts(r.0@), rest: r.1@ }),
        r.2.triple() == weights(view_parts(r.0@)),
    decreases s@.len(), 4int, 0int,
{
    let mut parts: Vec<BasicSelector> = Vec::new();
    let mut remaining: Vec<char> = slice_of(s, 0, s.len());
    assert(remaining@ =~= s@);
    let mut ids: u32 = 0;
    let mut classes: u32 = 0;
    let mut tags: u32 = 0;
    proof {
        assert(view_parts(parts@) =~= Seq::<BasicSelectorV>::empty());
        assert(Seq::<BasicSelectorV>::empty() + compound_spec(s@).parts =~= compound_spec(s@).parts);
    }
    while remaining.len() > 0
        invariant
            fits(s@),
            remaining@.len() <= s@.len(),
            compound_spec(s@) == (CompoundV {
                parts: view_parts(parts@) + compound_spec(remaining@).parts,
                rest: compound_spec(remaining@).rest,
            }),
            (ids as int, classes as int, tags as int) == weights(view_parts(parts@)),
            parts@.len() <= s@.len() - remaining@.len(),
        ensures
            compound_spec(remaining@) == (CompoundV { parts: seq![], rest: remaining@ }),
        decreases remaining@.len(),
    {
        let ghost old_rem = remaining@;
        let ghost old_parts = parts@;
        proof {
            lemma_weights_bound(view_parts(parts@));
            lemma_view_parts_len(parts@);
        }
        let c = remaining[0];
        let b: BasicSelector;
        if c == '#' || c == '.' {
            let tail = suffix(&remaining, 1);
            assert(tail@ =~= remaining@.drop_first());
            proof {
                lemma_find_first_bounds(remaining@.drop_first(), delim_pred());
            }
            let end: usize = match find_delim(&tail) {
                Some(i) => i + 1,
                None => remaining.len(),
            };
            let name = slice_of(&remaining, 1, end);
            remaining = suffix(&remaining, end);
            if name.len() > 0 {
                if c == '#' {
                    b = BasicSelector::Id(string_of(&name));
                    ids = ids + 1;
                } else {
                    b = BasicSelector::Class(string_of(&name));
                    classes = classes + 1;
                }
            } else {
                continue;
            }
        } else if c == ':' {
            let dbl = remaining.len() >= 2 && remaining[1] == ':';
            let off: usize = if dbl { 2 } else { 1 };
            let t = suffix(&remaining, off);
            let ne: usize = match find_name_stop(&t) {
                Some(i) => i,
                None => t.len(),
            };
            proof {
                lemma_find_first_bounds(t@, name_stop_pred());
            }
            let name = slice_of(&t, 0, ne);
            assert(name@ =~= t@.take(ne as int));
            let after = suffix(&t, ne);
            if dbl {
                remaining = after;
                match parse_pseudo_element(&name) {
                    Some(pe) => {
                        b = BasicSelector::PseudoElement(pe);
                    },
                    None => {
                        continue;
                    },
                }
            } else {
                proof {
                    lemma_trim_len(after@);
                }
                proof {
                    lemma_paren_scan_bounds(after@, 1, 1);
                }
                let k = arg_end_exec(&after);
                let arg = slice_of(&after, 0, k);
                assert(arg@ =~= after@.take(k as int));
                remaining = suffix(&after, k);
                match parse_pseudo_class(&name, &arg) {
                    Some(pc) => {
                        b = BasicSelector::PseudoClass(pc);
                        classes = classes + 1;
                    },
                    None => {
                        continue;
                    },
                }
            }
        } else if c == '[' {
            match find_char_in(&remaining, ']') {
                Some(be) => {
                    proof {
                        lemma_find_first_bounds(remaining@, eq_pred(']'));
                    }
                    let content = slice_of(&remaining, 1, be);
                    match parse_attribute(&content) {
                        Some((name, op, value)) => {
                            b = BasicSelector::Attribute { name, op, value };
                        },
                        None => {
                            break;
                        },
                    }
                    classes = classes + 1;
                    remaining = suffix(&remaining, be + 1);
                },
                None => {
                    break;
                },
            }
        } else if c == '*' {
            b = BasicSelector::Universal;
            remaining = suffix(&remaining, 1);
            assert(remaining@ =~= old_rem.drop_first());
        } else if c == ' ' || c == '>' || c == '+' || c == '~' {
            break;
        } else {
            let end: usize = match find_delim(&remaining) {
                Some(i) => i,
                None => remaining.len(),
            };
            proof {
                lemma_find_first_bounds(remaining@, delim_pred());
            }
            let raw = slice_of(&remaining, 0, end);
            assert(raw@ =~= remaining@.take(end as int));
            let low = lowercase(&raw);
            b = BasicSelector::Tag(string_of(&low));
            tags = tags + 1;
            remaining = suffix(&remaining, end);
        }
        proof {
            lemma_view_parts_push(parts@, b);
            lemma_weights_push(view_parts(parts@), view_basic(b));
            assert(compound_spec(old_rem) == prepend(view_basic(b), compound_spec(remaining@)));
            assert(view_parts(old_parts.push(b)) + compound_spec(remaining@).parts =~= view_parts(
                old_parts,
            ) + (seq![view_basic(b)] + compound_spec(remaining@).parts));
        }
        parts.push(b);
    }
    (parts, remaining, Specificity(ids, classes, tags))
}

/// Reads a complex selector from characters.
fn parse_chars(s: &[char]) -> (r: Option<ComplexSelector>)
    requires
        fits(s@),
    ensures
        match r {
            Some(c) => complex_spec(s@) == Some(view_complex(c)),
            None => complex_spec(s@) is None,
        },
    decreases s@.len(), 6int, 0int,
{
    let t = trim_chars(s);
    proof {
        lemma_trim_len(s@);
    }
    if t.len() == 0 {
        return None;
    }
    let mut segments: Vec<SelectSegment> = Vec::new();
    let mut remaining: Vec<char> = slice_of(&t, 0, t.len());
    assert(remaining@ =~= t@);
    let mut ids: u32 = 0;
    let mut classes: u32 = 0;
    let mut tags: u32 = 0;
    proof {
        assert(view_segments(segments@) =~= Seq::<SegmentV>::empty());
        assert(Seq::<SegmentV>::empty() + complex_loop_spec(t@) =~= complex_loop_spec(t@));
    }
    while remaining.len() > 0
        invariant
            fits(s@),
            t@ == trim(s@),
            t@.len() <= s@.len(),
            remaining@.len() <= t@.len(),
            complex_loop_spec(t@) == view_segments(segments@) + complex_loop_spec(remaining@),
            (ids as int, classes as int, tags as int) == seg_weights(view_segments(segments@)),
            ids + classes + tags <= t@.len() - remaining@.len(),
        ensures
            complex_loop_spec(remaining@) == Seq::<SegmentV>::empty(),
        decreases remaining@.len(),
    {
        let ghost old_rem = remaining@;
        let r0 = trim_start_chars(&remaining);
        proof {
            lemma_trim_start_suffix(remaining@);
            lemma_leading_combinator_len(r0@);
        }
        if r0.len() == 0 {
            break;
        }
        let comb: Combinator;
        let r1: Vec<char>;
        if r0[0] == '>' {
            comb = Combinator::Child;
            r1 = trim_start_chars(&suffix(&r0, 1));
        } else if r0[0] == '+' {
            comb = Combinator::Adjacent;
            r1 = trim_start_chars(&suffix(&r0, 1));
        } else if r0[0] == '~' {
            comb = Combinator::Sibling;
            r1 = trim_start_chars(&suffix(&r0, 1));
        } else {
            comb = Combinator::Descendant;
            r1 = r0;
        }
        proof {
            assert(r0@.skip(1) =~= r0@.drop_first());
            assert(leading_combinator(r0@) == (comb, r1@));
        }
        let (parts, rest, sp) = parse_compound_selector(&r1);
        if parts.len() == 0 {
            proof {
                assert(view_parts(parts@) =~= Seq::<BasicSelectorV>::empty());
            }
            break;
        }
        proof {
            lemma_compound_facts(r1@);
            lemma_weights_bound(view_parts(parts@));
        }
        ids = ids + sp.0;
        classes = classes + sp.1;
        tags = tags + sp.2;
        let seg = SelectSegment { combinator: comb, parts };
        proof {
            lemma_view_segments_push(segments@, seg);
            lemma_seg_weights_push(view_segments(segments@), view_segment(seg));
            let g = SegmentV { combinator: comb, parts: view_parts(seg.parts@) };
            assert(complex_loop_spec(old_rem) == seq![g] + complex_loop_spec(rest@));
            assert(view_segments(segments@).push(g) + complex_loop_spec(rest@) =~= view_segments(
                segments@,
            ) + (seq![g] + complex_loop_spec(rest@)));
        }
        segments.push(seg);
        remaining = rest;
    }
    if segments.len() == 0 {
        proof {
            assert(view_segments(segments@) =~= Seq::<SegmentV>::empty());
            assert(complex_loop_spec(t@) =~= Seq::<SegmentV>::empty());
        }
        return None;
    }
    proof {
        assert(complex_loop_spec(t@) =~= view_segments(segments@));
    }
    Some(ComplexSelector { segments, specificity: Specificity(ids, classes, tags) })
}

impl ComplexSelector {
    /// Parses a selector such as `div#app.container > span:first-child`.
    /// `None` when the text is blank or holds no simple selector at its start.
    pub fn parse(selector: &str) -> (r: Option<Self>)
        requires
            fits(selector@),
        ensures
            match r {
                Some(c) => complex_spec(selector@) == Some(view_complex(c)),
                None => complex_spec(selector@) is None,
            },
    {
        let s = chars_of(selector);
        parse_chars(&s)
    }

    /// The rightmost segment, which rule indexing keys on.
    pub fn last_segment(&self) -> (r: Option<&SelectSegment>)
        ensures
            match r {
                Some(g) => self.segments@.len() > 0 && *g == self.segments@.last(),
                None => self.segments@.len() == 0,
            },
    {
        let n = self.segments.len();
        if n == 0 {
            None
        } else {
            Some(&self.segments[n - 1])
        }
    }
}

/// A parsed selector's recorded specificity is the one its parts give.
pub proof fn lemma_parse_specificity(s: Seq<char>)
    ensures
        match complex_spec(s) {
            Some(c) => specificity_consistent(c),
            None => true,
        },
{
}

} // verus!

verus! {

/// Whether position `pos` (counted from 1) is of the form `a*n + b` for
/// some `n >= 0`.
pub open spec fn nth_spec(pos: int, a: int, b: int) -> bool {
    if a == 0 {
        pos == b
    } else if pos < b {
        false
    } else {
        (pos - b) % (if a < 0 { -a } else { a }) == 0
    }
}

/// Whether position `pos` matches `an+b`.
pub fn matches_nth(pos: i32, a: i32, b: i32) -> (r: bool)
    requires
        pos - b <= i32::MAX,
    ensures
        r == nth_spec(pos as int, a as int, b as int),
{
    if a == 0 {
        return pos == b;
    }
    if pos < b {
        return false;
    }
    let d: i64 = (pos as i64) - (b as i64);
    let m: i64 = if a < 0 { -(a as i64) } else { a as i64 };
    d % m == 0
}

} // verus!
