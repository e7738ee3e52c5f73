use vstd::prelude::*;
use crate::list::KeyNodeList;
use crate::list::head_of;
use crate::list::link_after;
use crate::list::link_before;
use crate::list::pos_after;
use crate::list::pos_before;
use crate::list::tail_of;
use crate::node::ValueNode;

verus! {

/// The position one step forward from `cur` in the key sequence `s`: from
/// the null position to the first key, from the last key back to the null
/// position, and otherwise to the following key.
pub open spec fn advance(s: Seq<u64>, cur: Option<u64>) -> Option<u64> {
    match cur {
        None => head_of(s),
        Some(k) => link_after(s, s.index_of(k)),
    }
}

/// The position one step backward from `cur` in the key sequence `s`: from
/// the null position to the last key, from the first key back to the null
/// position, and otherwise to the preceding key.
pub open spec fn retreat(s: Seq<u64>, cur: Option<u64>) -> Option<u64> {
    match cur {
        None => tail_of(s),
        Some(k) => link_before(s, s.index_of(k)),
    }
}

/// The position reached from `cur` by `n` forward steps over the key
/// sequence `s`.
pub open spec fn advance_n(s: Seq<u64>, cur: Option<u64>, n: nat) -> Option<u64>
    decreases n,
{
    if n == 0 {
        cur
    } else {
        advance_n(s, advance(s, cur), (n - 1) as nat)
    }
}

/// In a sequence without repeats, the key at position `j` is found back at
/// position `j`.
proof fn lemma_index_of_at(s: Seq<u64>, j: int)
    requires
        s.no_duplicates(),
        0 <= j < s.len(),
    ensures
        s.index_of(s[j]) == j,
{
    assert(s.contains(s[j]));
    let i = s.index_of(s[j]);
    assert(0 <= i < s.len() && s[i] == s[j]);
}

/// Taking `n + 1` forward steps is one step more than taking `n`.
proof fn lemma_advance_n_unfold(s: Seq<u64>, cur: Option<u64>, n: nat)
    ensures
        advance_n(s, cur, n + 1) == advance(s, advance_n(s, cur, n)),
    decreases n,
{
    if n > 0 {
        lemma_advance_n_unfold(s, advance(s, cur), (n - 1) as nat);
        assert(advance_n(s, cur, n + 1) == advance_n(s, advance(s, cur), n));
        assert(advance_n(s, cur, n) == advance_n(s, advance(s, cur), (n - 1) as nat));
    } else {
        assert(advance_n(s, cur, 1) == advance_n(s, advance(s, cur), 0));
    }
}

/// Forward steps compose: `a + b` steps are `a` steps followed by `b`.
proof fn lemma_advance_n_compose(s: Seq<u64>, cur: Option<u64>, a: nat, b: nat)
    ensures
        advance_n(s, cur, a + b) == advance_n(s, advance_n(s, cur, a), b),
    decreases a,
{
    if a > 0 {
        lemma_advance_n_compose(s, advance(s, cur), (a - 1) as nat, b);
    }
}

/// Stepping a cursor forward over a list whose key sequence is `s` never
/// fails and cycles: starting from the null position, step `j` lands on the
/// `j`-th key, one more step past the last key comes back to the null
/// position, and from there the same round repeats for ever.
pub proof fn lemma_null_boundary_cycling(s: Seq<u64>, n: nat)
    requires
        s.no_duplicates(),
    ensures
        forall|j: int|
            1 <= j <= s.len() ==> #[trigger] advance_n(s, None, j as nat) == Some(s[j - 1]),
        advance_n(s, None, (s.len() + 1) as nat) == None::<u64>,
        advance_n(s, None, n + s.len() + 1) == advance_n(s, None, n),
    decreases s.len(),
{
    assert forall|j: int| 1 <= j <= s.len() implies #[trigger] advance_n(s, None, j as nat) == Some(
        s[j - 1],
    ) by {
        lemma_advance_steps(s, j);
    }
    if s.len() == 0 {
        lemma_advance_n_unfold(s, None, 0);
        assert(advance_n(s, None, 1) == advance(s, advance_n(s, None, 0)));
    } else {
        lemma_advance_steps(s, s.len() as int);
        lemma_advance_n_unfold(s, None, s.len() as nat);
        lemma_index_of_at(s, s.len() - 1);
        assert(advance(s, Some(s[s.len() - 1])) == link_after(s, s.len() - 1));
    }
    lemma_advance_n_compose(s, None, (s.len() + 1) as nat, n);
}

/// Starting from the null position, step `j` lands on the `j`-th key.
proof fn lemma_advance_steps(s: Seq<u64>, j: int)
    requires
        s.no_duplicates(),
        1 <= j <= s.len(),
    ensures
        advance_n(s, None, j as nat) == Some(s[j - 1]),
    decreases j,
{
    if j == 1 {
        assert(advance_n(s, None, 1) == advance_n(s, head_of(s), 0));
    } else {
        lemma_advance_steps(s, j - 1);
        lemma_advance_n_unfold(s, None, (j - 1) as nat);
        lemma_index_of_at(s, j - 2);
        assert(advance(s, Some(s[j - 2])) == link_after(s, j - 2));
    }
}

/// A read-only cursor over a [`KeyNodeList`].
///
/// A cursor is either at the null position (the single boundary that sits
/// both before the first pair and after the last one) or at a key that the
/// list contains.
#[derive(Clone)]
pub struct Cursor<'a, V> {
    list: &'a KeyNodeList<V>,
    key: Option<u64>,
}

impl<'a, V> Cursor<'a, V> {
    /// The list under the cursor.
    pub closed spec fn spec_list(self) -> KeyNodeList<V> {
        *self.list
    }

    /// The position of the cursor: a key of the list, or `None` for the
    /// null position.
    pub closed spec fn spec_key(self) -> Option<u64> {
        self.key
    }

    /// The cursor's list is well-formed and its position, unless null, is a
    /// key the list contains.
    pub open spec fn wf(self) -> bool {
        &&& self.spec_list().wf()
        &&& (self.spec_key() matches Some(k) ==> self.spec_list().key_seq().contains(k))
    }

    /// Creates a cursor at the given position. Restricted to the list
    /// internals.
    pub(crate) fn at(list: &'a KeyNodeList<V>, key: Option<u64>) -> (cursor: Self)
        requires
            list.wf(),
            key matches Some(k) ==> list.key_seq().contains(k),
        ensures
            cursor.wf(),
            cursor.spec_list() == *list,
            cursor.spec_key() == key,
    {
        Self { list, key }
    }

    /// Returns `true` if the cursor is at the null position.
    pub fn is_null(&self) -> (null: bool)
        ensures
            null == (self.spec_key() is None),
    {
        self.key.is_none()
    }

    /// Returns the key the cursor is at, or `None` at the null position.
    pub fn key(&self) -> (key: Option<u64>)
        ensures
            key == self.spec_key(),
    {
        self.key
    }

    /// Returns the front key of the cursor's list, or `None` if the list is
    /// empty.
    pub fn front_key(&self) -> (key: Option<u64>)
        requires
            self.wf(),
        ensures
            key == head_of(self.spec_list().key_seq()),
    {
        self.list.front_key()
    }

    /// Returns the back key of the cursor's list, or `None` if the list is
    /// empty.
    pub fn back_key(&self) -> (key: Option<u64>)
        requires
            self.wf(),
        ensures
            key == tail_of(self.spec_list().key_seq()),
    {
        self.list.back_key()
    }

    /// Returns the node the cursor is at, or `None` at the null position.
    pub fn node(&self) -> (node: Option<&'a ValueNode<V>>)
        requires
            self.wf(),
        ensures
            match self.spec_key() {
                Some(k) => node == Some(&self.spec_list().node_map()[k]),
                None => node is None,
            },
    {
        match self.key {
            Some(k) => self.list.node(k),
            None => None,
        }
    }

    /// Returns the front node of the cursor's list, or `None` if the list
    /// is empty.
    pub fn front_node(&self) -> (node: Option<&'a ValueNode<V>>)
        requires
            self.wf(),
        ensures
            match head_of(self.spec_list().key_seq()) {
                Some(k) => node == Some(&self.spec_list().node_map()[k]),
                None => node is None,
            },
    {
        proof {
            let s = self.spec_list().key_seq();
            if s.len() > 0 {
                assert(s.contains(s[0]));
            }
        }
        match self.list.front_key() {
            Some(k) => self.list.node(k),
            None => None,
        }
    }

    /// Returns the back node of the cursor's list, or `None` if the list is
    /// empty.
    pub fn back_node(&self) -> (node: Option<&'a ValueNode<V>>)
        requires
            self.wf(),
        ensures
            match tail_of(self.spec_list().key_seq()) {
                Some(k) => node == Some(&self.spec_list().node_map()[k]),
                None => node is None,
            },
    {
        proof {
            let s = self.spec_list().key_seq();
            if s.len() > 0 {
                assert(s.contains(s[s.len() - 1]));
            }
        }
        match self.list.back_key() {
            Some(k) => self.list.node(k),
            None => None,
        }
    }

    /// Returns the key one step forward: the first key when the cursor is
    /// at the null position, `None` when it is at the last key.
    pub fn next_key(&self) -> (key: Option<u64>)
        requires
            self.wf(),
        ensures
            key == advance(self.spec_list().key_seq(), self.spec_key()),
    {
        match self.key {
            Some(k) => {
                proof {
                    self.spec_list().lemma_index_of(k);
                }
                self.list.node(k).unwrap().next()
            },
            None => self.list.front_key(),
        }
    }

    /// Returns the key one step backward: the last key when the cursor is
    /// at the null position, `None` when it is at the first key.
    pub fn prev_key(&self) -> (key: Option<u64>)
        requires
            self.wf(),
        ensures
            key == retreat(self.spec_list().key_seq(), self.spec_key()),
    {
        match self.key {
            Some(k) => {
                proof {
                    self.spec_list().lemma_index_of(k);
                }
                self.list.node(k).unwrap().prev()
            },
            None => self.list.back_key(),
        }
    }

    /// Returns the node one step forward, or `None` when there is none.
    pub fn next_node(&self) -> (node: Option<&'a ValueNode<V>>)
        requires
            self.wf(),
        ensures
            match advance(self.spec_list().key_seq(), self.spec_key()) {
                Some(k) => node == Some(&self.spec_list().node_map()[k]),
                None => node is None,
            },
    {
        proof {
            self.lemma_advance_in_list();
        }
        match self.next_key() {
            Some(k) => self.list.node(k),
            None => None,
        }
    }

    /// Returns the node one step backward, or `None` when there is none.
    pub fn prev_node(&self) -> (node: Option<&'a ValueNode<V>>)
        requires
            self.wf(),
        ensures
            match retreat(self.spec_list().key_seq(), self.spec_key()) {
                Some(k) => node == Some(&self.spec_list().node_map()[k]),
                None => node is None,
            },
    {
        proof {
            self.lemma_retreat_in_list();
        }
        match self.prev_key() {
            Some(k) => self.list.node(k),
            None => None,
        }
    }

    /// The position one step forward is null or a key of the list.
    pub proof fn lemma_advance_in_list(self)
        requires
            self.wf(),
        ensures
            advance(self.spec_list().key_seq(), self.spec_key()) matches Some(k) ==> self.spec_list(
            ).key_seq().contains(k),
    {
        let s = self.spec_list().key_seq();
        match self.spec_key() {
            None => {
                if s.len() > 0 {
                    assert(s.contains(s[0]));
                }
            },
            Some(k) => {
                self.spec_list().lemma_index_of(k);
                let i = s.index_of(k);
                if i < s.len() - 1 {
                    assert(s.contains(s[i + 1]));
                }
            },
        }
    }

    /// The position one step backward is null or a key of the list.
    pub proof fn lemma_retreat_in_list(self)
        requires
            self.wf(),
        ensures
            retreat(self.spec_list().key_seq(), self.spec_key()) matches Some(k) ==> self.spec_list(
            ).key_seq().contains(k),
    {
        let s = self.spec_list().key_seq();
        match self.spec_key() {
            None => {
                if s.len() > 0 {
                    assert(s.contains(s[s.len() - 1]));
                }
            },
            Some(k) => {
                self.spec_list().lemma_index_of(k);
                let i = s.index_of(k);
                if i > 0 {
                    assert(s.contains(s[i - 1]));
                }
            },
        }
    }

    /// Moves the cursor one step forward: from the null position to the
    /// first key, from the last key to the null position, and otherwise to
    /// the following key.
    pub fn move_next(&mut self)
        requires
            old(self).wf(),
        ensures
            final(self).wf(),
            final(self).spec_list() == old(self).spec_list(),
            final(self).spec_key() == advance(
                old(self).spec_list().key_seq(),
                old(self).spec_key(),
            ),
    {
        proof {
            self.lemma_advance_in_list();
        }
        self.key = self.next_key();
    }

    /// Moves the cursor one step backward: from the null position to the
    /// last key, from the first key to the null position, and otherwise to
    /// the preceding key.
    pub fn move_prev(&mut self)
        requires
            old(self).wf(),
        ensures
            final(self).wf(),
            final(self).spec_list() == old(self).spec_list(),
            final(self).spec_key() == retreat(
                old(self).spec_list().key_seq(),
                old(self).spec_key(),
            ),
    {
        proof {
            self.lemma_retreat_in_list();
        }
        self.key = self.prev_key();
    }
}

/// A cursor over a [`KeyNodeList`] with editing operations.
///
/// The mutable cursor takes the list over while it is being edited;
/// [`CursorMut::into_list`] hands the list back.
pub struct CursorMut<V> {
    list: KeyNodeList<V>,
    key: Option<u64>,
}

impl<V> CursorMut<V> {
    /// The list under the cursor.
    pub closed spec fn spec_list(self) -> KeyNodeList<V> {
        self.list
    }

    /// The position of the cursor: a key of the list, or `None` for the
    /// null position.
    pub closed spec fn spec_key(self) -> Option<u64> {
        self.key
    }

    /// The cursor's list is well-formed and its position, unless null, is a
    /// key the list contains.
    pub open spec fn wf(self) -> bool {
        &&& self.spec_list().wf()
        &&& (self.spec_key() matches Some(k) ==> self.spec_list().key_seq().contains(k))
    }

    /// Creates a mutable cursor at the given position. Restricted to the
    /// list internals.
    pub(crate) fn at(list: KeyNodeList<V>, key: Option<u64>) -> (cursor: Self)
        requires
            list.wf(),
            key matches Some(k) ==> list.key_seq().contains(k),
        ensures
            cursor.wf(),
            cursor.spec_list() == list,
            cursor.spec_key() == key,
    {
        Self { list, key }
    }

    /// Consumes the cursor, handing its list back.
    pub fn into_list(self) -> (list: KeyNodeList<V>)
        ensures
            list == self.spec_list(),
    {
        self.list
    }

    /// Returns a read-only cursor at the same position, borrowing this
    /// cursor's list for as long as it lives.
    pub fn as_cursor(&self) -> (cursor: Cursor<V>)
        requires
            self.wf(),
        ensures
            cursor.wf(),
            cursor.spec_list() == self.spec_list(),
            cursor.spec_key() == self.spec_key(),
    {
        Cursor::at(&self.list, self.key)
    }

    /// Returns `true` if the cursor is at the null position.
    pub fn is_null(&self) -> (null: bool)
        ensures
            null == (self.spec_key() is None),
    {
        self.key.is_none()
    }

    /// Returns the key the cursor is at, or `None` at the null position.
    pub fn key(&self) -> (key: Option<u64>)
        ensures
            key == self.spec_key(),
    {
        self.key
    }

    /// Returns the front key of the cursor's list, or `None` if the list is
    /// empty.
    pub fn front_key(&self) -> (key: Option<u64>)
        requires
            self.wf(),
        ensures
            key == head_of(self.spec_list().key_seq()),
    {
        self.list.front_key()
    }

    /// Returns the back key of the cursor's list, or `None` if the list is
    /// empty.
    pub fn back_key(&self) -> (key: Option<u64>)
        requires
            self.wf(),
        ensures
            key == tail_of(self.spec_list().key_seq()),
    {
        self.list.back_key()
    }

    /// Returns the node the cursor is at, or `None` at the null position.
    pub fn node(&self) -> (node: Option<&ValueNode<V>>)
        requires
            self.wf(),
        ensures
            match self.spec_key() {
                Some(k) => node == Some(&self.spec_list().node_map()[k]),
                None => node is None,
            },
    {
        match self.key {
            Some(k) => self.list.node(k),
            None => None,
        }
    }

    /// Returns the front node of the cursor's list, or `None` if the list
    /// is empty.
    pub fn front_node(&self) -> (node: Option<&ValueNode<V>>)
        requires
            self.wf(),
        ensures
            match head_of(self.spec_list().key_seq()) {
                Some(k) => node == Some(&self.spec_list().node_map()[k]),
                None => node is None,
            },
    {
        proof {
            self.spec_list().lemma_view();
        }
        self.list.front_node()
    }

    /// Returns the back node of the cursor's list, or `None` if the list is
    /// empty.
    pub fn back_node(&self) -> (node: Option<&ValueNode<V>>)
        requires
            self.wf(),
        ensures
            match tail_of(self.spec_list().key_seq()) {
                Some(k) => node == Some(&self.spec_list().node_map()[k]),
                None => node is None,
            },
    {
        proof {
            self.spec_list().lemma_view();
        }
        self.list.back_node()
    }

    /// Returns the key one step forward: the first key when the cursor is
    /// at the null position, `None` when it is at the last key.
    pub fn next_key(&self) -> (key: Option<u64>)
        requires
            self.wf(),
        ensures
            key == advance(self.spec_list().key_seq(), self.spec_key()),
    {
        self.as_cursor().next_key()
    }

    /// Returns the key one step backward: the last key when the cursor is
    /// at the null position, `None` when it is at the first key.
    pub fn prev_key(&self) -> (key: Option<u64>)
        requires
            self.wf(),
        ensures
            key == retreat(self.spec_list().key_seq(), self.spec_key()),
    {
        self.as_cursor().prev_key()
    }

    /// Returns the node one step forward, or `None` when there is none.
    pub fn next_node(&self) -> (node: Option<&ValueNode<V>>)
        requires
            self.wf(),
        ensures
            match advance(self.spec_list().key_seq(), self.spec_key()) {
                Some(k) => node == Some(&self.spec_list().node_map()[k]),
                None => node is None,
            },
    {
        self.as_cursor().next_node()
    }

    /// Returns the node one step backward, or `None` when there is none.
    pub fn prev_node(&self) -> (node: Option<&ValueNode<V>>)
        requires
            self.wf(),
        ensures
            match retreat(self.spec_list().key_seq(), self.spec_key()) {
                Some(k) => node == Some(&self.spec_list().node_map()[k]),
                None => node is None,
            },
    {
        self.as_cursor().prev_node()
    }

    /// Moves the cursor one step forward: from the null position to the
    /// first key, from the last key to the null position, and otherwise to
    /// the following key.
    pub fn move_next(&mut self)
        requires
            old(self).wf(),
        ensures
            final(self).wf(),
            final(self).spec_list() == old(self).spec_list(),
            final(self).spec_key() == advance(
                old(self).spec_list().key_seq(),
                old(self).spec_key(),
            ),
    {
        proof {
            self.lemma_advance_in_list();
        }
        self.key = self.next_key();
    }

    /// Moves the cursor one step backward: from the null position to the
    /// last key, from the first key to the null position, and otherwise to
    /// the preceding key.
    pub fn move_prev(&mut self)
        requires
            old(self).wf(),
        ensures
            final(self).wf(),
            final(self).spec_list() == old(self).spec_list(),
            final(self).spec_key() == retreat(
                old(self).spec_list().key_seq(),
                old(self).spec_key(),
            ),
    {
        proof {
            self.lemma_retreat_in_list();
        }
        self.key = self.prev_key();
    }

    /// The position one step forward is null or a key of the list.
    proof fn lemma_advance_in_list(self)
        requires
            self.wf(),
        ensures
            advance(self.spec_list().key_seq(), self.spec_key()) matches Some(k) ==> self.spec_list(
            ).key_seq().contains(k),
    {
        let s = self.spec_list().key_seq();
        match self.spec_key() {
            None => {
                if s.len() > 0 {
                    assert(s.contains(s[0]));
                }
            },
            Some(k) => {
                self.spec_list().lemma_index_of(k);
                let i = s.index_of(k);
                if i < s.len() - 1 {
                    assert(s.contains(s[i + 1]));
                }
            },
        }
    }

    /// Returns a mutable reference to the node the cursor is at, or `None`
    /// at the null position.
    ///
    /// The caller can change the payload freely; the links of the node are
    /// private, so they keep their values unless the whole node is replaced.
    pub fn node_mut(&mut self) -> (node: Option<&mut ValueNode<V>>)
        requires
            old(self).wf(),
        ensures
            match node {
                Some(n) => {
                    &&& old(self).spec_key() matches Some(k)
                    &&& ({
                        let k = old(self).spec_key().unwrap();
                        &&& *n == old(self).spec_list().node_map()[k]
                        &&& final(self).spec_key() == old(self).spec_key()
                        &&& final(self).spec_list().key_seq() == old(self).spec_list().key_seq()
                        &&& final(self).spec_list().spec_front_key() == old(
                            self,
                        ).spec_list().spec_front_key()
                        &&& final(self).spec_list().spec_back_key() == old(
                            self,
                        ).spec_list().spec_back_key()
                        &&& final(self).spec_list().node_map() == old(
                            self,
                        ).spec_list().node_map().insert(k, *final(n))
                    })
                },
                None => {
                    &&& old(self).spec_key() is None
                    &&& *final(self) == *old(self)
                },
            },
    {
        match self.key {
            Some(k) => self.list.node_mut(k),
            None => None,
        }
    }

    /// Returns a mutable reference to the front node of the cursor's list,
    /// or `None` if the list is empty.
    pub fn front_node_mut(&mut self) -> (node: Option<&mut ValueNode<V>>)
        requires
            old(self).wf(),
        ensures
            match node {
                Some(n) => {
                    &&& old(self).spec_list()@.len() > 0
                    &&& *n == old(self).spec_list().node_map()[old(self).spec_list().key_seq()[0]]
                    &&& final(self).spec_key() == old(self).spec_key()
                    &&& final(self).spec_list().key_seq() == old(self).spec_list().key_seq()
                    &&& final(self).spec_list().spec_front_key() == old(
                        self,
                    ).spec_list().spec_front_key()
                    &&& final(self).spec_list().spec_back_key() == old(
                        self,
                    ).spec_list().spec_back_key()
                    &&& final(self).spec_list().node_map() == old(
                        self,
                    ).spec_list().node_map().insert(old(self).spec_list().key_seq()[0], *final(n))
                },
                None => {
                    &&& old(self).spec_list()@.len() == 0
                    &&& *final(self) == *old(self)
                },
            },
    {
        self.list.front_node_mut()
    }

    /// Returns a mutable reference to the back node of the cursor's list,
    /// or `None` if the list is empty.
    pub fn back_node_mut(&mut self) -> (node: Option<&mut ValueNode<V>>)
        requires
            old(self).wf(),
        ensures
            match node {
                Some(n) => {
                    &&& old(self).spec_list()@.len() > 0
                    &&& *n == old(self).spec_list().node_map()[old(self).spec_list().key_seq()[old(
                        self,
                    ).spec_list()@.len() - 1]]
                    &&& final(self).spec_key() == old(self).spec_key()
                    &&& final(self).spec_list().key_seq() == old(self).spec_list().key_seq()
                    &&& final(self).spec_list().spec_front_key() == old(
                        self,
                    ).spec_list().spec_front_key()
                    &&& final(self).spec_list().spec_back_key() == old(
                        self,
                    ).spec_list().spec_back_key()
                    &&& final(self).spec_list().node_map() == old(
                        self,
                    ).spec_list().node_map().insert(
                        old(self).spec_list().key_seq()[old(self).spec_list()@.len() - 1],
                        *final(n),
                    )
                },
                None => {
                    &&& old(self).spec_list()@.len() == 0
                    &&& *final(self) == *old(self)
                },
            },
    {
        self.list.back_node_mut()
    }

    /// Inserts a new key-value pair directly after the cursor's position,
    /// or at the front of the list when the cursor is at the null position.
    /// The cursor's own position is unchanged.
    ///
    /// If `key` already exists, nothing changes and the rejected key and
    /// value are handed back unchanged.
    pub fn insert_after(&mut self, key: u64, value: V) -> (result: Result<(), (u64, V)>)
        requires
            old(self).wf(),
        ensures
            final(self).wf(),
            final(self).spec_key() == old(self).spec_key(),
            match result {
                Ok(()) => {
                    &&& !old(self).spec_list().key_seq().contains(key)
                    &&& final(self).spec_list()@ == old(self).spec_list()@.insert(
                        pos_after(old(self).spec_list().key_seq(), old(self).spec_key()),
                        (key, value),
                    )
                    &&& final(self).spec_list().key_seq() == old(self).spec_list().key_seq().insert(
                        pos_after(old(self).spec_list().key_seq(), old(self).spec_key()),
                        key,
                    )
                },
                Err(rejected) => {
                    &&& old(self).spec_list().key_seq().contains(key)
                    &&& rejected == (key, value)
                    &&& final(self).spec_list() == old(self).spec_list()
                },
            },
    {
        let ghost s = self.list.key_seq();
        let anchor = self.key;
        let result = self.list.splice_after(anchor, key, value);
        proof {
            if result is Ok {
                match anchor {
                    Some(k0) => {
                        let i = pos_after(s, anchor);
                        s.insert_ensures(i, key);
                        old(self).spec_list().lemma_index_of(k0);
                        assert(self.list.key_seq()[i - 1] == k0);
                        assert(self.list.key_seq().contains(k0));
                    },
                    None => {},
                }
            }
        }
        result
    }

    /// Inserts a new key-value pair directly before the cursor's position,
    /// or at the back of the list when the cursor is at the null position.
    /// The cursor's own position is unchanged.
    ///
    /// If `key` already exists, nothing changes and the rejected key and
    /// value are handed back unchanged.
    pub fn insert_before(&mut self, key: u64, value: V) -> (result: Result<(), (u64, V)>)
        requires
            old(self).wf(),
        ensures
            final(self).wf(),
            final(self).spec_key() == old(self).spec_key(),
            match result {
                Ok(()) => {
                    &&& !old(self).spec_list().key_seq().contains(key)
                    &&& final(self).spec_list()@ == old(self).spec_list()@.insert(
                        pos_before(old(self).spec_list().key_seq(), old(self).spec_key()),
                        (key, value),
                    )
                    &&& final(self).spec_list().key_seq() == old(self).spec_list().key_seq().insert(
                        pos_before(old(self).spec_list().key_seq(), old(self).spec_key()),
                        key,
                    )
                },
                Err(rejected) => {
                    &&& old(self).spec_list().key_seq().contains(key)
                    &&& rejected == (key, value)
                    &&& final(self).spec_list() == old(self).spec_list()
                },
            },
    {
        let ghost s = self.list.key_seq();
        let anchor = self.key;
        let result = self.list.splice_before(anchor, key, value);
        proof {
            if result is Ok {
                match anchor {
                    Some(k0) => {
                        let i = pos_before(s, anchor);
                        s.insert_ensures(i, key);
                        old(self).spec_list().lemma_index_of(k0);
                        assert(self.list.key_seq()[i + 1] == k0);
                        assert(self.list.key_seq().contains(k0));
                    },
                    None => {},
                }
            }
        }
        result
    }

    /// Removes the pair at the cursor's position and returns it; the cursor
    /// then moves to the pair that followed it, or to the null position if
    /// the removed pair was the last one.
    ///
    /// If the cursor is at the null position, nothing is removed and `None`
    /// is returned.
    pub fn remove_current(&mut self) -> (result: Option<(u64, ValueNode<V>)>)
        requires
            old(self).wf(),
        ensures
            final(self).wf(),
            match result {
                Some(pair) => {
                    &&& old(self).spec_key() == Some(pair.0)
                    &&& old(self).spec_list().key_seq().contains(pair.0)
                    &&& pair.1 == old(self).spec_list().node_map()[pair.0]
                    &&& ({
                        let s = old(self).spec_list().key_seq();
                        let i = s.index_of(pair.0);
                        &&& pair.1.spec_value() == old(self).spec_list()@[i].1
                        &&& final(self).spec_list()@ == old(self).spec_list()@.remove(i)
                        &&& final(self).spec_list().key_seq() == s.remove(i)
                        &&& final(self).spec_key() == link_after(s, i)
                    })
                },
                None => {
                    &&& old(self).spec_key() is None
                    &&& *final(self) == *old(self)
                },
            },
    {
        let k = match self.key {
            Some(k) => k,
            None => {
                return None;
            },
        };
        let ghost s = self.list.key_seq();
        let ghost i = s.index_of(k);
        proof {
            self.spec_list().lemma_index_of(k);
        }
        let pair = match self.list.remove(k) {
            Some(pair) => pair,
            None => {
                proof {
                    assert(false);
                }
                return None;
            },
        };
        self.key = pair.1.next();
        proof {
            s.remove_ensures(i);
            if i + 1 < s.len() {
                assert(self.list.key_seq()[i] == s[i + 1]);
                assert(self.list.key_seq().contains(s[i + 1]));
            }
        }
        Some(pair)
    }

    /// Adds a pair at the front of the cursor's list. The cursor's own
    /// position is unchanged, even at the null position.
    ///
    /// If `key` already exists, nothing changes and the rejected key and
    /// value are handed back unchanged.
    ///
    /// This operation computes in *O*(1) time on average.
    pub fn push_front(&mut self, key: u64, value: V) -> (result: Result<(), (u64, V)>)
        requires
            old(self).wf(),
        ensures
            final(self).wf(),
            final(self).spec_key() == old(self).spec_key(),
            match result {
                Ok(()) => {
                    &&& !old(self).spec_list().key_seq().contains(key)
                    &&& final(self).spec_list()@ == seq![(key, value)] + old(self).spec_list()@
                    &&& final(self).spec_list().key_seq() == seq![key] + old(
                        self,
                    ).spec_list().key_seq()
                },
                Err(rejected) => {
                    &&& old(self).spec_list().key_seq().contains(key)
                    &&& rejected == (key, value)
                    &&& final(self).spec_list() == old(self).spec_list()
                },
            },
    {
        let ghost s = self.list.key_seq();
        let result = self.list.push_front(key, value);
        proof {
            if result is Ok {
                match old(self).spec_key() {
                    Some(k0) => {
                        let j = choose|j: int| 0 <= j < s.len() && s[j] == k0;
                        assert(self.list.key_seq()[j + 1] == k0);
                        assert(self.list.key_seq().contains(k0));
                    },
                    None => {},
                }
            }
        }
        result
    }

    /// Adds a pair at the back of the cursor's list. The cursor's own
    /// position is unchanged, even at the null position.
    ///
    /// If `key` already exists, nothing changes and the rejected key and
    /// value are handed back unchanged.
    ///
    /// This operation computes in *O*(1) time on average.
    pub fn push_back(&mut self, key: u64, value: V) -> (result: Result<(), (u64, V)>)
        requires
            old(self).wf(),
        ensures
            final(self).wf(),
            final(self).spec_key() == old(self).spec_key(),
            match result {
                Ok(()) => {
                    &&& !old(self).spec_list().key_seq().contains(key)
                    &&& final(self).spec_list()@ == old(self).spec_list()@.push((key, value))
                    &&& final(self).spec_list().key_seq() == old(
                        self,
                    ).spec_list().key_seq().push(key)
                },
                Err(rejected) => {
                    &&& old(self).spec_list().key_seq().contains(key)
                    &&& rejected == (key, value)
                    &&& final(self).spec_list() == old(self).spec_list()
                },
            },
    {
        let ghost s = self.list.key_seq();
        let result = self.list.push_back(key, value);
        proof {
            if result is Ok {
                match old(self).spec_key() {
                    Some(k0) => {
                        let j = choose|j: int| 0 <= j < s.len() && s[j] == k0;
                        assert(self.list.key_seq()[j] == k0);
                        assert(self.list.key_seq().contains(k0));
                    },
                    None => {},
                }
            }
        }
        result
    }

    /// Removes and returns the first pair of the cursor's list, or `None`
    /// if the list is empty. The cursor keeps its position, unless it was
    /// at the front pair: then it moves one step forward, so it never stays
    /// on a removed key.
    ///
    /// This operation computes in *O*(1) time on average.
    pub fn pop_front(&mut self) -> (result: Option<(u64, ValueNode<V>)>)
        requires
            old(self).wf(),
        ensures
            final(self).wf(),
            final(self).spec_key() == (if old(self).spec_key() == head_of(
                old(self).spec_list().key_seq(),
            ) {
                advance(old(self).spec_list().key_seq(), old(self).spec_key())
            } else {
                old(self).spec_key()
            }),
            match result {
                Some(pair) => {
                    &&& old(self).spec_list()@.len() > 0
                    &&& pair.0 == old(self).spec_list()@[0].0
                    &&& pair.1 == old(self).spec_list().node_map()[pair.0]
                    &&& pair.1.spec_value() == old(self).spec_list()@[0].1
                    &&& final(self).spec_list()@ == old(self).spec_list()@.drop_first()
                    &&& final(self).spec_list().key_seq() == old(
                        self,
                    ).spec_list().key_seq().drop_first()
                },
                None => {
                    &&& old(self).spec_list()@.len() == 0
                    &&& *final(self) == *old(self)
                },
            },
    {
        let ghost s = self.list.key_seq();
        let front = self.list.front_key();
        let same = match (front, self.key) {
            (Some(a), Some(b)) => a == b,
            (None, None) => true,
            _ => false,
        };
        proof {
            self.spec_list().lemma_key_seq_is_dom();
            match self.spec_key() {
                Some(k0) => {
                    if same {
                        assert(s[0] == k0);
                        assert(s.index_of(k0) == 0);
                    }
                },
                None => {},
            }
        }
        if same {
            self.move_next();
        }
        let result = self.list.pop_front();
        proof {
            if s.len() > 0 {
                if !same {
                    match old(self).spec_key() {
                        Some(k0) => {
                            assert(s.contains(k0));
                            let j = choose|j: int| 0 <= j < s.len() && s[j] == k0;
                            assert(j != 0);
                            assert(self.list.key_seq()[j - 1] == k0);
                            assert(self.list.key_seq().contains(k0));
                        },
                        None => {},
                    }
                } else {
                    if s.len() > 1 {
                        assert(self.list.key_seq()[0] == s[1]);
                        assert(advance(s, Some(s[0])) == Some(s[1]));
                        assert(self.list.key_seq().contains(s[1]));
                    }
                }
            }
        }
        result
    }

    /// Removes and returns the last pair of the cursor's list, or `None` if
    /// the list is empty. The cursor keeps its position, unless it was at
    /// the back pair: then it moves to the null position, so it never stays
    /// on a removed key.
    ///
    /// This operation computes in *O*(1) time on average.
    pub fn pop_back(&mut self) -> (result: Option<(u64, ValueNode<V>)>)
        requires
            old(self).wf(),
        ensures
            final(self).wf(),
            final(self).spec_key() == (if old(self).spec_key() == tail_of(
                old(self).spec_list().key_seq(),
            ) {
                None::<u64>
            } else {
                old(self).spec_key()
            }),
            match result {
                Some(pair) => {
                    &&& old(self).spec_list()@.len() > 0
                    &&& pair.0 == old(self).spec_list()@[old(self).spec_list()@.len() - 1].0
                    &&& pair.1 == old(self).spec_list().node_map()[pair.0]
                    &&& pair.1.spec_value() == old(self).spec_list()@[old(self).spec_list()@.len()
                        - 1].1
                    &&& final(self).spec_list()@ == old(self).spec_list()@.drop_last()
                    &&& final(self).spec_list().key_seq() == old(
                        self,
                    ).spec_list().key_seq().drop_last()
                },
                None => {
                    &&& old(self).spec_list()@.len() == 0
                    &&& *final(self) == *old(self)
                },
            },
    {
        let ghost s = self.list.key_seq();
        let back = self.list.back_key();
        let same = match (back, self.key) {
            (Some(a), Some(b)) => a == b,
            (None, None) => true,
            _ => false,
        };
        proof {
            self.spec_list().lemma_key_seq_is_dom();
        }
        if same {
            self.key = None;
        }
        let result = self.list.pop_back();
        proof {
            if s.len() > 0 && !same {
                match old(self).spec_key() {
                    Some(k0) => {
                        assert(s.contains(k0));
                        let j = choose|j: int| 0 <= j < s.len() && s[j] == k0;
                        assert(j != s.len() - 1);
                        assert(self.list.key_seq()[j] == k0);
                        assert(self.list.key_seq().contains(k0));
                    },
                    None => {},
                }
            }
        }
        result
    }

    /// The position one step backward is null or a key of the list.
    proof fn lemma_retreat_in_list(self)
        requires
            self.wf(),
        ensures
            retreat(self.spec_list().key_seq(), self.spec_key()) matches Some(k) ==> self.spec_list(
            ).key_seq().contains(k),
    {
        let s = self.spec_list().key_seq();
        match self.spec_key() {
            None => {
                if s.len() > 0 {
                    assert(s.contains(s[s.len() - 1]));
                }
            },
            Some(k) => {
                self.spec_list().lemma_index_of(k);
                let i = s.index_of(k);
                if i > 0 {
                    assert(s.contains(s[i - 1]));
                }
            },
        }
    }
}

impl CursorMut<()> {
    /// Inserts a bare key directly after the cursor's position, or at the
    /// front of the list when the cursor is at the null position. The
    /// cursor's own position is unchanged.
    ///
    /// If `key` already exists, nothing changes and the rejected key is
    /// handed back.
    pub fn insert_key_after(&mut self, key: u64) -> (result: Result<(), u64>)
        requires
            old(self).wf(),
        ensures
            final(self).wf(),
            final(self).spec_key() == old(self).spec_key(),
            match result {
                Ok(()) => {
                    &&& !old(self).spec_list().key_seq().contains(key)
                    &&& final(self).spec_list()@ == old(self).spec_list()@.insert(
                        pos_after(old(self).spec_list().key_seq(), old(self).spec_key()),
                        (key, ()),
                    )
                    &&& final(self).spec_list().key_seq() == old(self).spec_list().key_seq().insert(
                        pos_after(old(self).spec_list().key_seq(), old(self).spec_key()),
                        key,
                    )
                },
                Err(rejected) => {
                    &&& old(self).spec_list().key_seq().contains(key)
                    &&& rejected == key
                    &&& final(self).spec_list() == old(self).spec_list()
                },
            },
    {
        match self.insert_after(key, ()) {
            Ok(()) => Ok(()),
            Err((k, _)) => Err(k),
        }
    }

    /// Inserts a bare key directly before the cursor's position, or at the
    /// back of the list when the cursor is at the null position. The
    /// cursor's own position is unchanged.
    ///
    /// If `key` already exists, nothing changes and the rejected key is
    /// handed back.
    pub fn insert_key_before(&mut self, key: u64) -> (result: Result<(), u64>)
        requires
            old(self).wf(),
        ensures
            final(self).wf(),
            final(self).spec_key() == old(self).spec_key(),
            match result {
                Ok(()) => {
                    &&& !old(self).spec_list().key_seq().contains(key)
                    &&& final(self).spec_list()@ == old(self).spec_list()@.insert(
                        pos_before(old(self).spec_list().key_seq(), old(self).spec_key()),
                        (key, ()),
                    )
                    &&& final(self).spec_list().key_seq() == old(self).spec_list().key_seq().insert(
                        pos_before(old(self).spec_list().key_seq(), old(self).spec_key()),
                        key,
                    )
                },
                Err(rejected) => {
                    &&& old(self).spec_list().key_seq().contains(key)
                    &&& rejected == key
                    &&& final(self).spec_list() == old(self).spec_list()
                },
            },
    {
        match self.insert_before(key, ()) {
            Ok(()) => Ok(()),
            Err((k, _)) => Err(k),
        }
    }
}

impl<V> KeyNodeList<V> {
    /// Provides a cursor at the given key, or at the null position if the
    /// key does not exist.
    pub fn cursor(&self, key: u64) -> (cursor: Cursor<V>)
        requires
            self.wf(),
        ensures
            cursor.wf(),
            cursor.spec_list() == *self,
            cursor.spec_key() == (if self.key_seq().contains(key) {
                Some(key)
            } else {
                None::<u64>
            }),
    {
        let position = if self.contains_key(key) {
            Some(key)
        } else {
            None
        };
        Cursor::at(self, position)
    }

    /// Provides a cursor at the front pair, or at the null position if the
    /// list is empty.
    pub fn cursor_front(&self) -> (cursor: Cursor<V>)
        requires
            self.wf(),
        ensures
            cursor.wf(),
            cursor.spec_list() == *self,
            cursor.spec_key() == head_of(self.key_seq()),
    {
        proof {
            if self.key_seq().len() > 0 {
                assert(self.key_seq().contains(self.key_seq()[0]));
            }
        }
        Cursor::at(self, self.front_key())
    }

    /// Provides a cursor at the back pair, or at the null position if the
    /// list is empty.
    pub fn cursor_back(&self) -> (cursor: Cursor<V>)
        requires
            self.wf(),
        ensures
            cursor.wf(),
            cursor.spec_list() == *self,
            cursor.spec_key() == tail_of(self.key_seq()),
    {
        proof {
            if self.key_seq().len() > 0 {
                assert(self.key_seq().contains(self.key_seq()[self.key_seq().len() - 1]));
            }
        }
        Cursor::at(self, self.back_key())
    }

    /// Takes the list over into a mutable cursor at the given key, or at
    /// the null position if the key does not exist.
    pub fn cursor_mut(self, key: u64) -> (cursor: CursorMut<V>)
        requires
            self.wf(),
        ensures
            cursor.wf(),
            cursor.spec_list() == self,
            cursor.spec_key() == (if self.key_seq().contains(key) {
                Some(key)
            } else {
                None::<u64>
            }),
    {
        let position = if self.contains_key(key) {
            Some(key)
        } else {
            None
        };
        CursorMut::at(self, position)
    }

    /// Takes the list over into a mutable cursor at the front pair, or at
    /// the null position if the list is empty.
    pub fn cursor_front_mut(self) -> (cursor: CursorMut<V>)
        requires
            self.wf(),
        ensures
            cursor.wf(),
            cursor.spec_list() == self,
            cursor.spec_key() == head_of(self.key_seq()),
    {
        proof {
            if self.key_seq().len() > 0 {
                assert(self.key_seq().contains(self.key_seq()[0]));
            }
        }
        let position = self.front_key();
        CursorMut::at(self, position)
    }

    /// Takes the list over into a mutable cursor at the back pair, or at
    /// the null position if the list is empty.
    pub fn cursor_back_mut(self) -> (cursor: CursorMut<V>)
        requires
            self.wf(),
        ensures
            cursor.wf(),
            cursor.spec_list() == self,
            cursor.spec_key() == tail_of(self.key_seq()),
    {
        proof {
            if self.key_seq().len() > 0 {
                assert(self.key_seq().contains(self.key_seq()[self.key_seq().len() - 1]));
            }
        }
        let position = self.back_key();
        CursorMut::at(self, position)
    }
}

} // verus!
