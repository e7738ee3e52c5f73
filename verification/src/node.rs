use vstd::prelude::*;

verus! {

/// A list element: an application payload together with the keys of its two
/// neighbours. `None` in a link field means "no neighbour in that direction",
/// so the node is the head (no `prev`) or the tail (no `next`).
///
/// The link fields are private and can only be rewritten from inside this
/// crate, so callers may freely read or replace the payload without being
/// able to corrupt the chain that `KeyNodeList` maintains.
#[derive(Clone, Copy, Debug, PartialEq, Eq, Hash)]
pub struct ValueNode<V> {
    value: V,
    prev: Option<u64>,
    next: Option<u64>,
}

impl<V> ValueNode<V> {
    /// The payload of this node.
    pub closed spec fn spec_value(self) -> V {
        self.value
    }

    /// The key of the previous node, if any.
    pub closed spec fn spec_prev(self) -> Option<u64> {
        self.prev
    }

    /// The key of the next node, if any.
    pub closed spec fn spec_next(self) -> Option<u64> {
        self.next
    }

    /// Creates a new unlinked node holding `value`.
    pub fn new(value: V) -> (node: Self)
        ensures
            node.spec_value() == value,
            node.spec_prev() == None::<u64>,
            node.spec_next() == None::<u64>,
    {
        Self { value, prev: None, next: None }
    }

    /// Consumes this node, returning the payload.
    pub fn into_value(self) -> (value: V)
        ensures
            value == self.spec_value(),
    {
        self.value
    }

    /// Returns a reference to the payload.
    pub fn value(&self) -> (value: &V)
        ensures
            *value == self.spec_value(),
    {
        &self.value
    }

    /// Returns a mutable reference to the payload; the links are unaffected
    /// by whatever the caller writes through it.
    pub fn value_mut(&mut self) -> (value: &mut V)
        ensures
            *value == old(self).spec_value(),
            final(self).spec_value() == *final(value),
            final(self).spec_prev() == old(self).spec_prev(),
            final(self).spec_next() == old(self).spec_next(),
    {
        &mut self.value
    }

    /// Returns the key of the previous node, or `None` if this node is the
    /// first one in its list.
    pub fn prev(&self) -> (key: Option<u64>)
        ensures
            key == self.spec_prev(),
    {
        self.prev
    }

    /// Returns the key of the next node, or `None` if this node is the last
    /// one in its list.
    pub fn next(&self) -> (key: Option<u64>)
        ensures
            key == self.spec_next(),
    {
        self.next
    }

    /// Rewrites the `prev` link. Restricted to the list internals.
    pub(crate) fn set_prev(&mut self, prev: Option<u64>)
        ensures
            final(self).spec_value() == old(self).spec_value(),
            final(self).spec_prev() == prev,
            final(self).spec_next() == old(self).spec_next(),
    {
        self.prev = prev;
    }

    /// Rewrites the `next` link. Restricted to the list internals.
    pub(crate) fn set_next(&mut self, next: Option<u64>)
        ensures
            final(self).spec_value() == old(self).spec_value(),
            final(self).spec_prev() == old(self).spec_prev(),
            final(self).spec_next() == next,
    {
        self.next = next;
    }
}

} // verus!
