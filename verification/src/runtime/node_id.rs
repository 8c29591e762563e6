//! Node identifiers and events.
use vstd::prelude::*;

verus! {

/// The identifier of a DOM node: a number handed out in increasing order.
#[derive(Debug, Clone, Copy, PartialEq, Eq, Hash, Structural)]
pub struct NodeId(pub u64);

impl NodeId {
    /// The identifier with number `id`.
    pub fn new(id: u64) -> (r: Self)
        ensures
            r.0 == id,
    {
        Self(id)
    }

    /// The identifier's number.
    pub fn value(self) -> (r: u64)
        ensures
            r == self.0,
    {
        self.0
    }

    /// The identifier as text: `#` and the number.
    pub fn to_text(self) -> (r: String)
        ensures
            r@ == seq!['#'] + crate::text::decimal(self.0 as nat),
    {
        let mut s = crate::text::owned("#");
        let d = crate::text::u64_to_decimal(self.0);
        proof {
            reveal_strlit("#");
        }
        let r = crate::text::concat(&s, &d);
        r
    }
}

/// An event handed to a listener.
#[allow(non_snake_case)]
#[derive(Debug, Clone)]
pub struct Event {
    /// The event's type, such as `click` or `input`.
    pub eventType: String,
}

} // verus!
