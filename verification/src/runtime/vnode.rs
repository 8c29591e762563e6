//! Virtual DOM nodes: what a view declares, before it becomes live nodes.
use vstd::prelude::*;

use crate::text::owned;

verus! {

/// A virtual node.
#[derive(Debug)]
pub enum VNode {
    /// An element.
    Element(VElementVNode),
    /// A text node.
    Text(String),
}

/// A virtual element.
#[allow(non_snake_case)]
#[derive(Debug)]
pub struct VElementVNode {
    /// The tag name, in lower case, such as `div`.
    pub tagName: String,
    /// The `id` attribute.
    pub id: Option<String>,
    /// The classes.
    pub classList: Vec<String>,
    /// The inline style, as written.
    pub style: String,
    /// The other attributes, `(name, value)`.
    pub attrs: Vec<(String, String)>,
    /// The children.
    pub childNodes: Vec<VNode>,
    /// The key that a later diff would reuse nodes by.
    pub diffKey: Option<String>,
}

/// The characters of each string, in order.
pub open spec fn strings_view(s: Seq<String>) -> Seq<Seq<char>> {
    s.map_values(|x: String| x@)
}

impl VElementVNode {
    /// Whether the element has only its tag: no id, classes, style,
    /// attributes, children or key.
    pub open spec fn is_bare(self) -> bool {
        &&& self.id is None
        &&& self.classList@.len() == 0
        &&& self.style@ == Seq::<char>::empty()
        &&& self.attrs@.len() == 0
        &&& self.childNodes@.len() == 0
        &&& self.diffKey is None
    }

    /// An element with the tag `tag` and nothing else.
    pub fn new(tag: &str) -> (r: Self)
        ensures
            r.tagName@ == tag@,
            r.is_bare(),
    {
        Self { tagName: owned(tag), ..Default::default() }
    }

    /// The element with one more child at the end.
    pub fn with_child(self, child: VNode) -> (r: Self)
        ensures
            r.childNodes@ == self.childNodes@.push(child),
            r.tagName == self.tagName,
            r.id == self.id,
            r.classList == self.classList,
            r.style == self.style,
            r.attrs == self.attrs,
            r.diffKey == self.diffKey,
    {
        let mut s = self;
        s.childNodes.push(child);
        s
    }

    /// The element with `children` appended to its children.
    pub fn with_children(self, children: Vec<VNode>) -> (r: Self)
        ensures
            r.childNodes@ == self.childNodes@ + children@,
            r.tagName == self.tagName,
            r.id == self.id,
            r.classList == self.classList,
            r.style == self.style,
            r.attrs == self.attrs,
            r.diffKey == self.diffKey,
    {
        let mut s = self;
        let mut c = children;
        s.childNodes.append(&mut c);
        s
    }

    /// The element with its id set.
    pub fn with_id(self, id: &str) -> (r: Self)
        ensures
            r.id matches Some(i) && i@ == id@,
            r.tagName == self.tagName,
            r.classList == self.classList,
            r.style == self.style,
            r.attrs == self.attrs,
            r.childNodes == self.childNodes,
            r.diffKey == self.diffKey,
    {
        let mut s = self;
        s.id = Some(owned(id));
        s
    }

    /// The element with one more class at the end.
    pub fn with_class(self, class: &str) -> (r: Self)
        ensures
            strings_view(r.classList@) == strings_view(self.classList@).push(class@),
            r.tagName == self.tagName,
            r.id == self.id,
            r.style == self.style,
            r.attrs == self.attrs,
            r.childNodes == self.childNodes,
            r.diffKey == self.diffKey,
    {
        let mut s = self;
        let ghost old_list = s.classList@;
        s.classList.push(owned(class));
        assert(strings_view(s.classList@) =~= strings_view(old_list).push(class@));
        s
    }

    /// The element with its classes replaced by `classes`.
    pub fn with_classes(self, classes: &[&str]) -> (r: Self)
        ensures
            r.classList@.len() == classes@.len(),
            forall|i: int| 0 <= i < classes@.len() ==> r.classList@[i]@ == classes@[i]@,
            r.tagName == self.tagName,
            r.id == self.id,
            r.style == self.style,
            r.attrs == self.attrs,
            r.childNodes == self.childNodes,
            r.diffKey == self.diffKey,
    {
        let mut s = self;
        let mut list: Vec<String> = Vec::new();
        let mut i: usize = 0;
        while i < classes.len()
            invariant
                i <= classes@.len(),
                list@.len() == i,
                forall|j: int| 0 <= j < i ==> list@[j]@ == classes@[j]@,
            decreases classes.len() - i,
        {
            list.push(owned(classes[i]));
            i += 1;
        }
        s.classList = list;
        s
    }

    /// The element with its inline style set.
    pub fn with_style(self, style: &str) -> (r: Self)
        ensures
            r.style@ == style@,
            r.tagName == self.tagName,
            r.id == self.id,
            r.classList == self.classList,
            r.attrs == self.attrs,
            r.childNodes == self.childNodes,
            r.diffKey == self.diffKey,
    {
        let mut s = self;
        s.style = owned(style);
        s
    }

    /// The element with one more attribute at the end.
    pub fn with_attr(self, key: &str, val: &str) -> (r: Self)
        ensures
            r.attrs@.len() == self.attrs@.len() + 1,
            forall|i: int| 0 <= i < self.attrs@.len() ==> r.attrs@[i] == self.attrs@[i],
            r.attrs@.last().0@ == key@,
            r.attrs@.last().1@ == val@,
            r.tagName == self.tagName,
            r.id == self.id,
            r.classList == self.classList,
            r.style == self.style,
            r.childNodes == self.childNodes,
            r.diffKey == self.diffKey,
    {
        let mut s = self;
        s.attrs.push((owned(key), owned(val)));
        s
    }
}

impl Default for VElementVNode {
    fn default() -> (r: Self)
        ensures
            r.tagName@ == Seq::<char>::empty(),
            r.is_bare(),
    {
        Self {
            tagName: String::new(),
            id: None,
            classList: Vec::new(),
            style: String::new(),
            attrs: Vec::new(),
            childNodes: Vec::new(),
            diffKey: None,
        }
    }
}

impl VNode {
    /// A text node.
    pub fn text(s: &str) -> (r: Self)
        ensures
            r matches VNode::Text(t) && t@ == s@,
    {
        VNode::Text(owned(s))
    }

    /// An element with the tag `tag` and nothing else.
    pub fn element(tag: &str) -> (r: VElementVNode)
        ensures
            r.tagName@ == tag@,
            r.is_bare(),
    {
        VElementVNode::new(tag)
    }
}

impl From<VElementVNode> for VNode {
    fn from(elem: VElementVNode) -> (r: Self) {
        VNode::Element(elem)
    }
}

impl vstd::std_specs::convert::FromSpecImpl<VElementVNode> for VNode {
    open spec fn obeys_from_spec() -> bool {
        true
    }

    open spec fn from_spec(elem: VElementVNode) -> Self {
        VNode::Element(elem)
    }
}

} // verus!
