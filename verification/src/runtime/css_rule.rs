//! A style rule: its selector text, the parsed selector and its declarations.
use vstd::prelude::*;

use super::select::Select;
use super::selector_match::{view_complex, ComplexSelector, ComplexV};
use crate::text::owned;

verus! {

/// A style rule (`CSSStyleRule`).
#[allow(non_snake_case)]
#[derive(Debug)]
pub struct CssRule {
    /// The selector as written, such as `.container h1`.
    pub selectorText: String,
    /// The parsed selector.
    pub selector: ComplexSelector,
    /// The declarations, `(property, value)`, in order.
    pub style: Vec<(String, String)>,
}

/// The declarations of a rule as character sequences.
pub open spec fn view_decls(s: Seq<(String, String)>) -> Seq<(Seq<char>, Seq<char>)> {
    s.map_values(|d: (String, String)| (d.0@, d.1@))
}

impl CssRule {
    /// The parsed selector, as a model.
    pub open spec fn selector_view(self) -> ComplexV {
        view_complex(self.selector)
    }

    /// A rule made from a selector builder, with an empty selector text and
    /// no declarations.
    pub fn on(select: Select) -> (r: Self)
        requires
            select.wf(),
        ensures
            r.selectorText@ == Seq::<char>::empty(),
            r.selector_view().segments == select.committed(),
            r.selector.specificity.triple() == select.counts(),
            r.style@.len() == 0,
    {
        Self { selectorText: String::new(), selector: select.done(), style: Vec::new() }
    }

    /// The rule with one more declaration at the end.
    pub fn decl(self, prop: &str, val: &str) -> (r: Self)
        ensures
            r.selectorText == self.selectorText,
            r.selector == self.selector,
            view_decls(r.style@) == view_decls(self.style@).push((prop@, val@)),
    {
        let mut s = self;
        let ghost old_style = s.style@;
        s.style.push((owned(prop), owned(val)));
        assert(view_decls(s.style@) =~= view_decls(old_style).push((prop@, val@)));
        s
    }
}

} // verus!
