use vstd::prelude::*;
use crate::list::KeyNodeList;
use crate::node::ValueNode;

verus! {

/// A borrowing traversal over the key-node pairs of a [`KeyNodeList`], in
/// list order. Each call of [`Iter::next`] yields one pair; the traversal is
/// finite and a fresh one can be started at any time with
/// [`KeyNodeList::iter`].
pub struct Iter<'a, V> {
    list: &'a KeyNodeList<V>,
    key: Option<u64>,
    pos: Ghost<int>,
}

impl<'a, V> Iter<'a, V> {
    /// The list being traversed.
    pub closed spec fn spec_list(self) -> KeyNodeList<V> {
        *self.list
    }

    /// How many pairs have been yielded so far.
    pub closed spec fn spec_pos(self) -> int {
        self.pos@
    }

    /// The key the traversal will yield next, `None` when it is finished.
    pub closed spec fn spec_key(self) -> Option<u64> {
        self.key
    }

    /// The traversal's list is well-formed, and its cursor key is the key
    /// at the position it has reached, or `None` past the end.
    pub open spec fn wf(self) -> bool {
        &&& self.spec_list().wf()
        &&& 0 <= self.spec_pos() <= self.spec_list().key_seq().len()
        &&& self.spec_key() == (if self.spec_pos() == self.spec_list().key_seq().len() {
            None::<u64>
        } else {
            Some(self.spec_list().key_seq()[self.spec_pos()])
        })
    }

    /// Creates a traversal that starts at the front of the list.
    /// Restricted to the list internals.
    pub(crate) fn at_front(list: &'a KeyNodeList<V>) -> (iter: Self)
        requires
            list.wf(),
        ensures
            iter.wf(),
            iter.spec_list() == *list,
            iter.spec_pos() == 0,
    {
        let key = list.front_key();
        Self { list, key, pos: Ghost(0) }
    }

    /// Yields the next key-node pair, or `None` once every pair has been
    /// yielded.
    pub fn next(&mut self) -> (item: Option<(u64, &'a ValueNode<V>)>)
        requires
            old(self).wf(),
        ensures
            final(self).wf(),
            final(self).spec_list() == old(self).spec_list(),
            match item {
                Some(pair) => {
                    &&& old(self).spec_pos() < old(self).spec_list()@.len()
                    &&& pair.0 == old(self).spec_list()@[old(self).spec_pos()].0
                    &&& *pair.1 == old(self).spec_list().node_map()[pair.0]
                    &&& pair.1.spec_value() == old(self).spec_list()@[old(self).spec_pos()].1
                    &&& final(self).spec_pos() == old(self).spec_pos() + 1
                },
                None => {
                    &&& old(self).spec_pos() == old(self).spec_list()@.len()
                    &&& *final(self) == *old(self)
                },
            },
    {
        proof {
            self.spec_list().lemma_view();
        }
        match self.key {
            None => None,
            Some(k) => {
                let ghost s = self.spec_list().key_seq();
                proof {
                    assert(s.contains(s[self.pos@]));
                    self.spec_list().lemma_key_seq_is_dom();
                    self.spec_list().lemma_index_of(k);
                    assert(s.index_of(k) == self.pos@);
                }
                let node = self.list.node(k).unwrap();
                self.key = node.next();
                self.pos = Ghost(self.pos@ + 1);
                Some((k, node))
            },
        }
    }
}

/// A borrowing traversal over the keys of a [`KeyNodeList`], in list order.
pub struct Keys<'a, V> {
    iter: Iter<'a, V>,
}

impl<'a, V> Keys<'a, V> {
    /// The list being traversed.
    pub open spec fn spec_list(self) -> KeyNodeList<V> {
        self.spec_iter().spec_list()
    }

    /// How many keys have been yielded so far.
    pub open spec fn spec_pos(self) -> int {
        self.spec_iter().spec_pos()
    }

    /// The underlying pair traversal.
    pub closed spec fn spec_iter(self) -> Iter<'a, V> {
        self.iter
    }

    /// The traversal is over a well-formed list at a valid position.
    pub open spec fn wf(self) -> bool {
        self.spec_iter().wf()
    }

    /// Creates a key traversal that starts at the front of the list.
    /// Restricted to the list internals.
    pub(crate) fn at_front(list: &'a KeyNodeList<V>) -> (keys: Self)
        requires
            list.wf(),
        ensures
            keys.wf(),
            keys.spec_list() == *list,
            keys.spec_pos() == 0,
    {
        Self { iter: Iter::at_front(list) }
    }

    /// Yields the next key, or `None` once every key has been yielded.
    pub fn next(&mut self) -> (item: Option<u64>)
        requires
            old(self).wf(),
        ensures
            final(self).wf(),
            final(self).spec_list() == old(self).spec_list(),
            match item {
                Some(key) => {
                    &&& old(self).spec_pos() < old(self).spec_list()@.len()
                    &&& key == old(self).spec_list()@[old(self).spec_pos()].0
                    &&& final(self).spec_pos() == old(self).spec_pos() + 1
                },
                None => {
                    &&& old(self).spec_pos() == old(self).spec_list()@.len()
                    &&& *final(self) == *old(self)
                },
            },
    {
        match self.iter.next() {
            Some(pair) => Some(pair.0),
            None => None,
        }
    }
}

/// A borrowing traversal over the nodes of a [`KeyNodeList`], in list order.
pub struct Nodes<'a, V> {
    iter: Iter<'a, V>,
}

impl<'a, V> Nodes<'a, V> {
    /// The list being traversed.
    pub open spec fn spec_list(self) -> KeyNodeList<V> {
        self.spec_iter().spec_list()
    }

    /// How many nodes have been yielded so far.
    pub open spec fn spec_pos(self) -> int {
        self.spec_iter().spec_pos()
    }

    /// The underlying pair traversal.
    pub closed spec fn spec_iter(self) -> Iter<'a, V> {
        self.iter
    }

    /// The traversal is over a well-formed list at a valid position.
    pub open spec fn wf(self) -> bool {
        self.spec_iter().wf()
    }

    /// Creates a node traversal that starts at the front of the list.
    /// Restricted to the list internals.
    pub(crate) fn at_front(list: &'a KeyNodeList<V>) -> (nodes: Self)
        requires
            list.wf(),
        ensures
            nodes.wf(),
            nodes.spec_list() == *list,
            nodes.spec_pos() == 0,
    {
        Self { iter: Iter::at_front(list) }
    }

    /// Yields the next node, or `None` once every node has been yielded.
    pub fn next(&mut self) -> (item: Option<&'a ValueNode<V>>)
        requires
            old(self).wf(),
        ensures
            final(self).wf(),
            final(self).spec_list() == old(self).spec_list(),
            match item {
                Some(node) => {
                    &&& old(self).spec_pos() < old(self).spec_list()@.len()
                    &&& node.spec_value() == old(self).spec_list()@[old(self).spec_pos()].1
                    &&& final(self).spec_pos() == old(self).spec_pos() + 1
                },
                None => {
                    &&& old(self).spec_pos() == old(self).spec_list()@.len()
                    &&& *final(self) == *old(self)
                },
            },
    {
        match self.iter.next() {
            Some(pair) => Some(pair.1),
            None => None,
        }
    }
}

/// A consuming traversal over the key-node pairs of a [`KeyNodeList`], in
/// list order. Each call of [`IntoIter::next`] removes and yields the front
/// pair, so the list is empty once the traversal is finished.
pub struct IntoIter<V> {
    list: KeyNodeList<V>,
}

impl<V> IntoIter<V> {
    /// The pairs not yet yielded, in list order.
    pub closed spec fn spec_list(self) -> KeyNodeList<V> {
        self.list
    }

    /// The remaining list is well-formed.
    pub open spec fn wf(self) -> bool {
        self.spec_list().wf()
    }

    /// Creates a consuming traversal over the whole list. Restricted to the
    /// list internals.
    pub(crate) fn of(list: KeyNodeList<V>) -> (iter: Self)
        requires
            list.wf(),
        ensures
            iter.wf(),
            iter.spec_list() == list,
    {
        Self { list }
    }

    /// Removes and yields the next key-node pair, or `None` once the list
    /// has been consumed entirely.
    pub fn next(&mut self) -> (item: Option<(u64, ValueNode<V>)>)
        requires
            old(self).wf(),
        ensures
            final(self).wf(),
            match item {
                Some(pair) => {
                    &&& old(self).spec_list()@.len() > 0
                    &&& pair.0 == old(self).spec_list()@[0].0
                    &&& pair.1.spec_value() == old(self).spec_list()@[0].1
                    &&& final(self).spec_list()@ == old(self).spec_list()@.drop_first()
                },
                None => {
                    &&& old(self).spec_list()@.len() == 0
                    &&& *final(self) == *old(self)
                },
            },
    {
        self.list.pop_front()
    }
}

/// A consuming traversal over the keys of a [`KeyNodeList`], in list order.
pub struct IntoKeys<V> {
    iter: IntoIter<V>,
}

impl<V> IntoKeys<V> {
    /// The underlying consuming traversal.
    pub closed spec fn spec_iter(self) -> IntoIter<V> {
        self.iter
    }

    /// The pairs not yet yielded, in list order.
    pub open spec fn spec_list(self) -> KeyNodeList<V> {
        self.spec_iter().spec_list()
    }

    /// The remaining list is well-formed.
    pub open spec fn wf(self) -> bool {
        self.spec_iter().wf()
    }

    /// Creates a consuming key traversal over the whole list. Restricted to
    /// the list internals.
    pub(crate) fn of(list: KeyNodeList<V>) -> (keys: Self)
        requires
            list.wf(),
        ensures
            keys.wf(),
            keys.spec_list() == list,
    {
        Self { iter: IntoIter::of(list) }
    }

    /// Removes and yields the next key, or `None` once the list has been
    /// consumed entirely.
    pub fn next(&mut self) -> (item: Option<u64>)
        requires
            old(self).wf(),
        ensures
            final(self).wf(),
            match item {
                Some(key) => {
                    &&& old(self).spec_list()@.len() > 0
                    &&& key == old(self).spec_list()@[0].0
                    &&& final(self).spec_list()@ == old(self).spec_list()@.drop_first()
                },
                None => {
                    &&& old(self).spec_list()@.len() == 0
                    &&& *final(self) == *old(self)
                },
            },
    {
        match self.iter.next() {
            Some(pair) => Some(pair.0),
            None => None,
        }
    }
}

/// A consuming traversal over the nodes of a [`KeyNodeList`], in list order.
pub struct IntoNodes<V> {
    iter: IntoIter<V>,
}

impl<V> IntoNodes<V> {
    /// The underlying consuming traversal.
    pub closed spec fn spec_iter(self) -> IntoIter<V> {
        self.iter
    }

    /// The pairs not yet yielded, in list order.
    pub open spec fn spec_list(self) -> KeyNodeList<V> {
        self.spec_iter().spec_list()
    }

    /// The remaining list is well-formed.
    pub open spec fn wf(self) -> bool {
        self.spec_iter().wf()
    }

    /// Creates a consuming node traversal over the whole list. Restricted
    /// to the list internals.
    pub(crate) fn of(list: KeyNodeList<V>) -> (nodes: Self)
        requires
            list.wf(),
        ensures
            nodes.wf(),
            nodes.spec_list() == list,
    {
        Self { iter: IntoIter::of(list) }
    }

    /// Removes and yields the next node, or `None` once the list has been
    /// consumed entirely.
    pub fn next(&mut self) -> (item: Option<ValueNode<V>>)
        requires
            old(self).wf(),
        ensures
            final(self).wf(),
            match item {
                Some(node) => {
                    &&& old(self).spec_list()@.len() > 0
                    &&& node.spec_value() == old(self).spec_list()@[0].1
                    &&& final(self).spec_list()@ == old(self).spec_list()@.drop_first()
                },
                None => {
                    &&& old(self).spec_list()@.len() == 0
                    &&& *final(self) == *old(self)
                },
            },
    {
        match self.iter.next() {
            Some(pair) => Some(pair.1),
            None => None,
        }
    }
}

impl<V> KeyNodeList<V> {
    /// Returns a traversal over all key-node pairs, in list order.
    pub fn iter(&self) -> (iter: Iter<V>)
        requires
            self.wf(),
        ensures
            iter.wf(),
            iter.spec_list() == *self,
            iter.spec_pos() == 0,
    {
        Iter::at_front(self)
    }

    /// Returns a traversal over all keys, in list order.
    pub fn keys(&self) -> (keys: Keys<V>)
        requires
            self.wf(),
        ensures
            keys.wf(),
            keys.spec_list() == *self,
            keys.spec_pos() == 0,
    {
        Keys::at_front(self)
    }

    /// Returns a traversal over all nodes, in list order.
    pub fn nodes(&self) -> (nodes: Nodes<V>)
        requires
            self.wf(),
        ensures
            nodes.wf(),
            nodes.spec_list() == *self,
            nodes.spec_pos() == 0,
    {
        Nodes::at_front(self)
    }

    /// Consumes the list into a traversal that removes and yields every
    /// key-node pair, front to back.
    pub fn into_iter(self) -> (iter: IntoIter<V>)
        requires
            self.wf(),
        ensures
            iter.wf(),
            iter.spec_list() == self,
    {
        IntoIter::of(self)
    }

    /// Consumes the list into a traversal that removes and yields every
    /// key, front to back.
    pub fn into_keys(self) -> (keys: IntoKeys<V>)
        requires
            self.wf(),
        ensures
            keys.wf(),
            keys.spec_list() == self,
    {
        IntoKeys::of(self)
    }

    /// Consumes the list into a traversal that removes and yields every
    /// node, front to back.
    pub fn into_nodes(self) -> (nodes: IntoNodes<V>)
        requires
            self.wf(),
        ensures
            nodes.wf(),
            nodes.spec_list() == self,
    {
        IntoNodes::of(self)
    }
}

} // verus!
