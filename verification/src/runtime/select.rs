//! A builder that assembles a selector part by part and keeps its
//! specificity as it goes.
use vstd::prelude::*;

use super::selector_match::{
    AttrOp, BasicSelector, BasicSelectorV, Combinator, ComplexSelector, PseudoClass,
    PseudoElement, SegmentV, SelectSegment, lemma_seg_weights_push, lemma_view_parts_push,
    lemma_view_segments_push, lemma_weights_push, seg_weights, view_basic, view_complex,
    view_parts, view_segment, view_segments, weights, weight, add3, specificity_consistent,
};
use super::specificity::Specificity;
use crate::text::owned;

verus! {

/// Selector builder: the segments committed so far, the simple selectors of
/// the segment being written, the combinator that will join the next
/// segment, and the running `(ids, classes, tags)` counts.
pub struct Select {
    segments: Vec<SelectSegment>,
    current: Vec<BasicSelector>,
    next_combinator: Combinator,
    specificity: (u32, u32, u32),
}

impl Select {
    /// The committed segments, as models.
    pub closed spec fn segments_view(self) -> Seq<SegmentV> {
        view_segments(self.segments@)
    }

    /// The simple selectors of the open segment, as models.
    pub closed spec fn current_view(self) -> Seq<BasicSelectorV> {
        view_parts(self.current@)
    }

    /// The combinator that will join the next committed segment.
    pub closed spec fn next_combinator_view(self) -> Combinator {
        self.next_combinator
    }

    /// The running counts.
    pub closed spec fn counts(self) -> (int, int, int) {
        (self.specificity.0 as int, self.specificity.1 as int, self.specificity.2 as int)
    }

    /// The segments the builder would produce now: the committed ones, and
    /// the open one when it holds anything (the first segment is always
    /// joined as a descendant).
    pub open spec fn committed(self) -> Seq<SegmentV> {
        if self.current_view().len() == 0 {
            self.segments_view()
        } else {
            self.segments_view().push(
                SegmentV {
                    combinator: if self.segments_view().len() == 0 {
                        Combinator::Descendant
                    } else {
                        self.next_combinator_view()
                    },
                    parts: self.current_view(),
                },
            )
        }
    }

    /// The builder's invariant: the running counts are the weights of every
    /// simple selector added so far, and no committed segment is empty.
    pub open spec fn wf(self) -> bool {
        &&& self.counts() == seg_weights(self.committed())
        &&& forall|i: int|
            0 <= i < self.segments_view().len() ==> #[trigger] self.segments_view()[i].parts.len()
                > 0
    }

    /// Whether one more simple selector of weight `w` keeps the counts
    /// within `u32`.
    pub open spec fn room_for(self, w: (int, int, int)) -> bool {
        &&& self.counts().0 + w.0 <= u32::MAX
        &&& self.counts().1 + w.1 <= u32::MAX
        &&& self.counts().2 + w.2 <= u32::MAX
    }

    fn empty() -> (r: Self)
        ensures
            r.wf(),
            r.segments_view() == Seq::<SegmentV>::empty(),
            r.current_view() == Seq::<BasicSelectorV>::empty(),
            r.next_combinator_view() == Combinator::Descendant,
    {
        let r = Self {
            segments: Vec::new(),
            current: Vec::new(),
            next_combinator: Combinator::Descendant,
            specificity: (0, 0, 0),
        };
        assert(r.segments_view() =~= Seq::<SegmentV>::empty());
        assert(r.current_view() =~= Seq::<BasicSelectorV>::empty());
        r
    }

    /// The segment that the open one becomes once `b` is added.
    pub open spec fn grown(self, b: BasicSelectorV) -> SegmentV {
        SegmentV {
            combinator: if self.segments_view().len() == 0 {
                Combinator::Descendant
            } else {
                self.next_combinator_view()
            },
            parts: self.current_view().push(b),
        }
    }

    proof fn lemma_add_part(self, b: BasicSelectorV)
        requires
            self.wf(),
        ensures
            seg_weights(self.segments_view().push(self.grown(b))) == add3(self.counts(), weight(b)),
    {
        let sv = self.segments_view();
        lemma_seg_weights_push(sv, self.grown(b));
        lemma_weights_push(self.current_view(), b);
        if self.current_view().len() == 0 {
            assert(self.committed() == sv);
            assert(self.current_view().push(b).drop_last() =~= self.current_view());
        } else {
            let g0 = SegmentV { combinator: self.grown(b).combinator, parts: self.current_view() };
            assert(self.committed() == sv.push(g0));
            lemma_seg_weights_push(sv, g0);
        }
    }

    /// Adds a simple selector to the open segment.
    fn add(&mut self, b: BasicSelector)
        requires
            old(self).wf(),
            old(self).room_for(weight(view_basic(b))),
        ensures
            final(self).wf(),
            final(self).segments_view() == old(self).segments_view(),
            final(self).current_view() == old(self).current_view().push(view_basic(b)),
            final(self).next_combinator_view() == old(self).next_combinator_view(),
    {
        proof {
            old(self).lemma_add_part(view_basic(b));
            lemma_view_parts_push(self.current@, b);
        }
        match &b {
            BasicSelector::Id(_) => self.specificity.0 = self.specificity.0 + 1,
            BasicSelector::Class(_)
            | BasicSelector::Attribute { .. }
            | BasicSelector::PseudoClass(_) => self.specificity.1 = self.specificity.1 + 1,
            BasicSelector::Tag(_) => self.specificity.2 = self.specificity.2 + 1,
            BasicSelector::Universal | BasicSelector::PseudoElement(_) => {},
        }
        self.current.push(b);
    }

    // ── entry points ──

    /// Starts a selector with a type selector.
    pub fn tag(tag: &str) -> (r: Self)
        ensures
            r.wf(),
            r.segments_view() == Seq::<SegmentV>::empty(),
            r.current_view() == seq![BasicSelectorV::Tag(tag@)],
            r.next_combinator_view() == Combinator::Descendant,
    {
        let mut s = Self::empty();
        s.add(BasicSelector::Tag(owned(tag)));
        s
    }

    /// Starts a selector with an id selector.
    pub fn id(id: &str) -> (r: Self)
        ensures
            r.wf(),
            r.segments_view() == Seq::<SegmentV>::empty(),
            r.current_view() == seq![BasicSelectorV::Id(id@)],
            r.next_combinator_view() == Combinator::Descendant,
    {
        let mut s = Self::empty();
        s.add(BasicSelector::Id(owned(id)));
        s
    }

    /// Starts a selector with a class selector.
    pub fn class(class: &str) -> (r: Self)
        ensures
            r.wf(),
            r.segments_view() == Seq::<SegmentV>::empty(),
            r.current_view() == seq![BasicSelectorV::Class(class@)],
            r.next_combinator_view() == Combinator::Descendant,
    {
        let mut s = Self::empty();
        s.add(BasicSelector::Class(owned(class)));
        s
    }

    // ── additions to the open segment ──

    /// Adds a type selector to the open segment.
    pub fn and_tag(self, tag: &str) -> (r: Self)
        requires
            self.wf(),
            self.counts().2 < u32::MAX,
        ensures
            r.wf(),
            r.segments_view() == self.segments_view(),
            r.current_view() == self.current_view().push(BasicSelectorV::Tag(tag@)),
            r.next_combinator_view() == self.next_combinator_view(),
    {
        let mut s = self;
        s.add(BasicSelector::Tag(owned(tag)));
        s
    }

    /// Adds a class selector to the open segment.
    pub fn and_class(self, class: &str) -> (r: Self)
        requires
            self.wf(),
            self.counts().1 < u32::MAX,
        ensures
            r.wf(),
            r.segments_view() == self.segments_view(),
            r.current_view() == self.current_view().push(BasicSelectorV::Class(class@)),
            r.next_combinator_view() == self.next_combinator_view(),
    {
        let mut s = self;
        s.add(BasicSelector::Class(owned(class)));
        s
    }

    /// Adds an id selector to the open segment.
    pub fn and_id(self, id: &str) -> (r: Self)
        requires
            self.wf(),
            self.counts().0 < u32::MAX,
        ensures
            r.wf(),
            r.segments_view() == self.segments_view(),
            r.current_view() == self.current_view().push(BasicSelectorV::Id(id@)),
            r.next_combinator_view() == self.next_combinator_view(),
    {
        let mut s = self;
        s.add(BasicSelector::Id(owned(id)));
        s
    }

    /// Adds a pseudo-class to the open segment.
    pub fn and_pseudo(self, pc: PseudoClass) -> (r: Self)
        requires
            self.wf(),
            self.counts().1 < u32::MAX,
        ensures
            r.wf(),
            r.segments_view() == self.segments_view(),
            r.current_view() == self.current_view().push(
                view_basic(BasicSelector::PseudoClass(pc)),
            ),
            r.next_combinator_view() == self.next_combinator_view(),
    {
        let mut s = self;
        s.add(BasicSelector::PseudoClass(pc));
        s
    }

    /// Adds a pseudo-element to the open segment; it adds no specificity.
    pub fn and_pseudo_element(self, pe: PseudoElement) -> (r: Self)
        requires
            self.wf(),
        ensures
            r.wf(),
            r.segments_view() == self.segments_view(),
            r.current_view() == self.current_view().push(BasicSelectorV::PseudoElement(pe)),
            r.next_combinator_view() == self.next_combinator_view(),
    {
        let mut s = self;
        s.add(BasicSelector::PseudoElement(pe));
        s
    }

    /// Adds an attribute selector to the open segment.
    pub fn and_attr(self, name: &str, op: AttrOp, value: &str) -> (r: Self)
        requires
            self.wf(),
            self.counts().1 < u32::MAX,
        ensures
            r.wf(),
            r.segments_view() == self.segments_view(),
            r.current_view() == self.current_view().push(
                BasicSelectorV::Attribute { name: name@, op, value: value@ },
            ),
            r.next_combinator_view() == self.next_combinator_view(),
    {
        let mut s = self;
        s.add(BasicSelector::Attribute { name: owned(name), op, value: owned(value) });
        s
    }

    // ── combinators: commit the open segment and set the next join ──

    fn join(self, c: Combinator) -> (r: Self)
        requires
            self.wf(),
        ensures
            r.wf(),
            r.segments_view() == self.committed(),
            r.current_view() == Seq::<BasicSelectorV>::empty(),
            r.next_combinator_view() == c,
            r.counts() == self.counts(),
    {
        let mut s = self;
        s.commit_segment();
        s.next_combinator = c;
        s
    }

    /// Closes the open segment; the next one is a child of it.
    pub fn child(self) -> (r: Self)
        requires
            self.wf(),
        ensures
            r.wf(),
            r.segments_view() == self.committed(),
            r.current_view() == Seq::<BasicSelectorV>::empty(),
            r.next_combinator_view() == Combinator::Child,
    {
        self.join(Combinator::Child)
    }

    /// Closes the open segment; the next one is a descendant of it.
    pub fn descendant(self) -> (r: Self)
        requires
            self.wf(),
        ensures
            r.wf(),
            r.segments_view() == self.committed(),
            r.current_view() == Seq::<BasicSelectorV>::empty(),
            r.next_combinator_view() == Combinator::Descendant,
    {
        self.join(Combinator::Descendant)
    }

    /// Closes the open segment; the next one directly follows it.
    pub fn adjacent(self) -> (r: Self)
        requires
            self.wf(),
        ensures
            r.wf(),
            r.segments_view() == self.committed(),
            r.current_view() == Seq::<BasicSelectorV>::empty(),
            r.next_combinator_view() == Combinator::Adjacent,
    {
        self.join(Combinator::Adjacent)
    }

    /// Closes the open segment; the next one is a later sibling of it.
    pub fn sibling(self) -> (r: Self)
        requires
            self.wf(),
        ensures
            r.wf(),
            r.segments_view() == self.committed(),
            r.current_view() == Seq::<BasicSelectorV>::empty(),
            r.next_combinator_view() == Combinator::Sibling,
    {
        self.join(Combinator::Sibling)
    }

    // ── result ──

    /// Finishes the selector: the committed segments, with the running
    /// counts as its specificity.
    pub fn done(self) -> (r: ComplexSelector)
        requires
            self.wf(),
        ensures
            view_complex(r).segments == self.committed(),
            r.specificity.triple() == self.counts(),
            specificity_consistent(view_complex(r)),
    {
        let mut s = self;
        s.commit_segment();
        ComplexSelector {
            segments: s.segments,
            specificity: Specificity(s.specificity.0, s.specificity.1, s.specificity.2),
        }
    }

    /// Moves the open segment, when it holds anything, to the committed ones.
    fn commit_segment(&mut self)
        requires
            old(self).wf(),
        ensures
            final(self).wf(),
            final(self).segments_view() == old(self).committed(),
            final(self).current_view() == Seq::<BasicSelectorV>::empty(),
            final(self).next_combinator_view() == old(self).next_combinator_view(),
            final(self).counts() == old(self).counts(),
    {
        if self.current.len() == 0 {
            assert(self.current_view() =~= Seq::<BasicSelectorV>::empty());
            return;
        }
        proof {
            super::selector_match::lemma_view_parts_len(self.current@);
            super::selector_match::lemma_view_segments_len(self.segments@);
        }
        let combinator = if self.segments.len() == 0 {
            Combinator::Descendant
        } else {
            self.next_combinator
        };
        let mut parts: Vec<BasicSelector> = Vec::new();
        std::mem::swap(&mut parts, &mut self.current);
        let seg = SelectSegment { combinator, parts };
        proof {
            lemma_view_segments_push(self.segments@, seg);
        }
        self.segments.push(seg);
        assert(self.current_view() =~= Seq::<BasicSelectorV>::empty());
    }
}

} // verus!
