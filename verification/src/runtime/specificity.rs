//! CSS selector specificity.
use vstd::prelude::*;

use super::selector_match::{BasicSelector, weights, view_parts, view_basic, lemma_weights_push};

verus! {

/// The specificity triple `(ids, classes, tags)`.
#[derive(Debug, Clone, Copy, PartialEq, Eq, PartialOrd, Ord)]
pub struct Specificity(pub u32, pub u32, pub u32);

impl Specificity {
    /// The triple as mathematical integers.
    pub open spec fn triple(self) -> (int, int, int) {
        (self.0 as int, self.1 as int, self.2 as int)
    }

    /// The specificity of a list of simple selectors: ids count in the first
    /// place; classes, attribute selectors and pseudo-classes in the second;
    /// tags in the third; `*` and pseudo-elements count nowhere.
    pub fn from_parts(parts: &[BasicSelector]) -> (r: Self)
        requires
            parts@.len() <= u32::MAX,
        ensures
            r.triple() == weights(view_parts(parts@)),
    {
        let mut id_count: u32 = 0;
        let mut class_count: u32 = 0;
        let mut tag_count: u32 = 0;
        let mut i: usize = 0;
        while i < parts.len()
            invariant
                i <= parts@.len() <= u32::MAX,
                (id_count as int, class_count as int, tag_count as int) == weights(
                    view_parts(parts@.take(i as int)),
                ),
                id_count + class_count + tag_count <= i,
            decreases parts.len() - i,
        {
            proof {
                assert(parts@.take(i + 1).drop_last() =~= parts@.take(i as int));
                assert(view_parts(parts@.take(i + 1)) == view_parts(parts@.take(i as int)).push(
                    view_basic(parts@[i as int]),
                ));
                lemma_weights_push(view_parts(parts@.take(i as int)), view_basic(parts@[i as int]));
            }
            match &parts[i] {
                BasicSelector::Id(_) => id_count += 1,
                BasicSelector::Class(_)
                | BasicSelector::Attribute { .. }
                | BasicSelector::PseudoClass(_) => class_count += 1,
                BasicSelector::Tag(_) => tag_count += 1,
                BasicSelector::Universal | BasicSelector::PseudoElement(_) => {},
            }
            i += 1;
        }
        assert(parts@.take(parts@.len() as int) =~= parts@);
        Self(id_count, class_count, tag_count)
    }

    /// The specificity of an inline style: above every selector.
    pub fn inline_style() -> (r: Self)
        ensures
            r == Specificity(u32::MAX, 0, 0),
    {
        Self(u32::MAX, 0, 0)
    }
}

} // verus!
