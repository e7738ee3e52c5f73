use vstd::prelude::*;
use std::collections::HashMap;
use std::collections::hash_map::Entry;
use crate::node::ValueNode;

verus! {

broadcast use vstd::std_specs::hash::group_hash_axioms;

/// The key linked before position `i` of the key sequence `s`: `None` at the
/// front, otherwise the key at `i - 1`.
pub open spec fn link_before(s: Seq<u64>, i: int) -> Option<u64> {
    if i == 0 {
        None
    } else {
        Some(s[i - 1])
    }
}

/// The key linked after position `i` of the key sequence `s`: `None` at the
/// back, otherwise the key at `i + 1`.
pub open spec fn link_after(s: Seq<u64>, i: int) -> Option<u64> {
    if i == s.len() - 1 {
        None
    } else {
        Some(s[i + 1])
    }
}

/// The first key of the key sequence `s`, `None` when `s` is empty.
pub open spec fn head_of(s: Seq<u64>) -> Option<u64> {
    if s.len() == 0 {
        None
    } else {
        Some(s[0])
    }
}

/// The last key of the key sequence `s`, `None` when `s` is empty.
pub open spec fn tail_of(s: Seq<u64>) -> Option<u64> {
    if s.len() == 0 {
        None
    } else {
        Some(s[s.len() - 1])
    }
}

/// The position directly after the key `anchor` in the key sequence `s`;
/// position `0` when `anchor` is `None`.
pub open spec fn pos_after(s: Seq<u64>, anchor: Option<u64>) -> int {
    match anchor {
        None => 0,
        Some(a) => s.index_of(a) + 1,
    }
}

/// The position directly before the key `anchor` in the key sequence `s`;
/// the position past the end when `anchor` is `None`.
pub open spec fn pos_before(s: Seq<u64>, anchor: Option<u64>) -> int {
    match anchor {
        None => s.len() as int,
        Some(a) => s.index_of(a),
    }
}

/// The node map `m` realizes exactly the chain described by the key sequence
/// `s`: the sequence has no repeats, it lists exactly the keys of the map,
/// and every node's two links point at the keys on either side of its
/// position.
spec fn chain_ok<V>(s: Seq<u64>, m: Map<u64, ValueNode<V>>) -> bool {
    &&& s.no_duplicates()
    &&& forall|k: u64| #[trigger] m.contains_key(k) ==> s.contains(k)
    &&& forall|i: int|
        #![trigger m[s[i]]]
        0 <= i < s.len() ==> {
            &&& m.contains_key(s[i])
            &&& m[s[i]].spec_prev() == link_before(s, i)
            &&& m[s[i]].spec_next() == link_after(s, i)
        }
}

/// The key-value pairs named by the key sequence `s`, in sequence order.
spec fn pairs_of<V>(s: Seq<u64>, m: Map<u64, ValueNode<V>>) -> Seq<(u64, V)> {
    Seq::new(s.len(), |i: int| (s[i], m[s[i]].spec_value()))
}

/// The per-position content of `chain_ok`, instantiated at one index.
proof fn lemma_chain_at<V>(s: Seq<u64>, m: Map<u64, ValueNode<V>>, i: int)
    requires
        chain_ok(s, m),
        0 <= i < s.len(),
    ensures
        m.contains_key(s[i]),
        m[s[i]].spec_prev() == link_before(s, i),
        m[s[i]].spec_next() == link_after(s, i),
{
}

/// Unsplicing position `i` out of a well-linked chain leaves a well-linked
/// chain: `m2` is `m` without the key at `i`, with the two neighbours of
/// that key re-linked to each other and everything else unchanged.
#[verifier::rlimit(100)]
proof fn lemma_chain_remove<V>(s: Seq<u64>, m: Map<u64, ValueNode<V>>, m2: Map<
    u64,
    ValueNode<V>,
>, i: int)
    requires
        chain_ok(s, m),
        0 <= i < s.len(),
        forall|k: u64| #[trigger] m2.contains_key(k) <==> (m.contains_key(k) && k != s[i]),
        i > 0 ==> m2[s[i - 1]].spec_prev() == m[s[i - 1]].spec_prev() && m2[s[i
            - 1]].spec_next() == link_after(s, i) && m2[s[i - 1]].spec_value() == m[s[i
            - 1]].spec_value(),
        i + 1 < s.len() ==> m2[s[i + 1]].spec_next() == m[s[i + 1]].spec_next() && m2[s[i
            + 1]].spec_prev() == link_before(s, i) && m2[s[i + 1]].spec_value() == m[s[i
            + 1]].spec_value(),
        forall|k: u64|
            (#[trigger] m2.contains_key(k) && (i == 0 || k != s[i - 1]) && (i + 1 == s.len() || k
                != s[i + 1])) ==> m2[k] == m[k],
    ensures
        chain_ok(s.remove(i), m2),
        pairs_of(s.remove(i), m2) == pairs_of(s, m).remove(i),
{
    let s2 = s.remove(i);
    s.remove_ensures(i);
    assert forall|j1: int, j2: int| 0 <= j1 < j2 < s2.len() implies s2[j1] != s2[j2] by {
        let j1o = if j1 < i {
            j1
        } else {
            j1 + 1
        };
        let j2o = if j2 < i {
            j2
        } else {
            j2 + 1
        };
        assert(s2[j1] == s[j1o] && s2[j2] == s[j2o]);
    }
    assert forall|k: u64| #[trigger] m2.contains_key(k) implies s2.contains(k) by {
        let j = choose|j: int| 0 <= j < s.len() && s[j] == k;
        assert(j != i);
        if j < i {
            assert(s2[j] == k);
        } else {
            assert(s2[j - 1] == k);
        }
    }
    assert forall|j: int| 0 <= j < s2.len() implies {
        &&& m2.contains_key(#[trigger] s2[j])
        &&& m2[s2[j]].spec_prev() == link_before(s2, j)
        &&& m2[s2[j]].spec_next() == link_after(s2, j)
    } by {
        let j0 = if j < i {
            j
        } else {
            j + 1
        };
        lemma_chain_at(s, m, j0);
        assert(s2[j] == s[j0]);
        assert(s[j0] != s[i]);
        assert(m2.contains_key(s[j0]));
        if 0 <= j - 1 {
            assert(s2[j - 1] == s[if j - 1 < i {
                j - 1
            } else {
                j
            }]);
        }
        if j + 1 < s2.len() {
            assert(s2[j + 1] == s[if j + 1 < i {
                j + 1
            } else {
                j + 2
            }]);
        }
        if j0 == i - 1 {
            assert(m2[s2[j]].spec_prev() == m[s[i - 1]].spec_prev());
            assert(m2[s2[j]].spec_next() == link_after(s, i));
        } else if j0 == i + 1 {
            assert(m2[s2[j]].spec_prev() == link_before(s, i));
            assert(m2[s2[j]].spec_next() == m[s[i + 1]].spec_next());
        } else {
            assert(i == 0 || s[j0] != s[i - 1]);
            assert(i + 1 == s.len() || s[j0] != s[i + 1]);
            assert(m2[s[j0]] == m[s[j0]]);
        }
    }
    pairs_of(s, m).remove_ensures(i);
    assert forall|j: int| 0 <= j < s2.len() implies pairs_of(s2, m2)[j] == pairs_of(s, m).remove(
        i,
    )[j] by {
        let j0 = if j < i {
            j
        } else {
            j + 1
        };
        lemma_chain_at(s, m, j0);
        assert(s2[j] == s[j0]);
        assert(m2[s[j0]].spec_value() == m[s[j0]].spec_value());
    }
    assert(pairs_of(s2, m2) =~= pairs_of(s, m).remove(i));
}

/// Splicing a fresh key into a well-linked chain at position `i` leaves a
/// well-linked chain: in `m2` the new node's links point at the old
/// neighbours of the position, the two neighbours point at the new key, and
/// everything else is unchanged.
#[verifier::rlimit(100)]
proof fn lemma_chain_insert<V>(
    s: Seq<u64>,
    m: Map<u64, ValueNode<V>>,
    m2: Map<u64, ValueNode<V>>,
    i: int,
    key: u64,
)
    requires
        chain_ok(s, m),
        0 <= i <= s.len(),
        !m.contains_key(key),
        forall|k: u64| #[trigger] m2.contains_key(k) <==> (m.contains_key(k) || k == key),
        m2[key].spec_prev() == link_before(s, i),
        m2[key].spec_next() == (if i == s.len() {
            None::<u64>
        } else {
            Some(s[i])
        }),
        i > 0 ==> m2[s[i - 1]].spec_prev() == m[s[i - 1]].spec_prev() && m2[s[i
            - 1]].spec_next() == Some(key) && m2[s[i - 1]].spec_value() == m[s[i
            - 1]].spec_value(),
        i < s.len() ==> m2[s[i]].spec_next() == m[s[i]].spec_next() && m2[s[i]].spec_prev()
            == Some(key) && m2[s[i]].spec_value() == m[s[i]].spec_value(),
        forall|k: u64|
            (#[trigger] m.contains_key(k) && (i == 0 || k != s[i - 1]) && (i == s.len() || k
                != s[i])) ==> m2[k] == m[k],
    ensures
        chain_ok(s.insert(i, key), m2),
        pairs_of(s.insert(i, key), m2) == pairs_of(s, m).insert(
            i,
            (key, m2[key].spec_value()),
        ),
{
    let s2 = s.insert(i, key);
    s.insert_ensures(i, key);
    assert forall|j1: int, j2: int| 0 <= j1 < j2 < s2.len() implies s2[j1] != s2[j2] by {
        if j1 != i && j2 != i {
            let j1o = if j1 < i {
                j1
            } else {
                j1 - 1
            };
            let j2o = if j2 < i {
                j2
            } else {
                j2 - 1
            };
            assert(s2[j1] == s[j1o] && s2[j2] == s[j2o]);
            assert(s[j1o] != s[j2o]);
        } else {
            let jo = if j1 == i {
                if j2 < i {
                    j2
                } else {
                    j2 - 1
                }
            } else {
                if j1 < i {
                    j1
                } else {
                    j1 - 1
                }
            };
            lemma_chain_at(s, m, jo);
            assert(s.contains(s[jo]));
            assert(s[jo] != key);
        }
    }
    assert forall|k: u64| #[trigger] m2.contains_key(k) implies s2.contains(k) by {
        if k == key {
            assert(s2[i] == k);
        } else {
            let j = choose|j: int| 0 <= j < s.len() && s[j] == k;
            if j < i {
                assert(s2[j] == k);
            } else {
                assert(s2[j + 1] == k);
            }
        }
    }
    assert forall|j: int| 0 <= j < s2.len() implies {
        &&& m2.contains_key(#[trigger] s2[j])
        &&& m2[s2[j]].spec_prev() == link_before(s2, j)
        &&& m2[s2[j]].spec_next() == link_after(s2, j)
    } by {
        if 0 <= j - 1 && j - 1 != i {
            assert(s2[j - 1] == s[if j - 1 < i {
                j - 1
            } else {
                j - 2
            }]);
        }
        if j + 1 < s2.len() && j + 1 != i {
            assert(s2[j + 1] == s[if j + 1 < i {
                j + 1
            } else {
                j
            }]);
        }
        if j != i {
            let j0 = if j < i {
                j
            } else {
                j - 1
            };
            lemma_chain_at(s, m, j0);
            assert(s2[j] == s[j0]);
            assert(m.contains_key(s[j0]));
            assert(s[j0] != key);
        }
    }
    pairs_of(s, m).insert_ensures(i, (key, m2[key].spec_value()));
    assert forall|j: int| 0 <= j < s2.len() implies pairs_of(s2, m2)[j] == pairs_of(s, m).insert(
        i,
        (key, m2[key].spec_value()),
    )[j] by {
        if j != i {
            let j0 = if j < i {
                j
            } else {
                j - 1
            };
            lemma_chain_at(s, m, j0);
            assert(s2[j] == s[j0]);
            assert(m.contains_key(s[j0]));
            assert(s[j0] != key);
            assert(m2[s[j0]].spec_value() == m[s[j0]].spec_value());
        }
    }
    assert(pairs_of(s2, m2) =~= pairs_of(s, m).insert(i, (key, m2[key].spec_value())));
}

/// The keys visited by following `next` links from the position `cur`,
/// collecting at most `fuel` keys: empty at the null position, and otherwise
/// the key at `cur` followed by the walk from its `next` link.
pub open spec fn walk_next<V>(m: Map<u64, ValueNode<V>>, cur: Option<u64>, fuel: nat) -> Seq<u64>
    decreases fuel,
{
    match cur {
        None => Seq::empty(),
        Some(k) => if fuel == 0 || !m.contains_key(k) {
            Seq::empty()
        } else {
            seq![k] + walk_next(m, m[k].spec_next(), (fuel - 1) as nat)
        },
    }
}

/// The keys visited by following `prev` links from the position `cur`,
/// collecting at most `fuel` keys: empty at the null position, and otherwise
/// the key at `cur` followed by the walk from its `prev` link.
pub open spec fn walk_prev<V>(m: Map<u64, ValueNode<V>>, cur: Option<u64>, fuel: nat) -> Seq<u64>
    decreases fuel,
{
    match cur {
        None => Seq::empty(),
        Some(k) => if fuel == 0 || !m.contains_key(k) {
            Seq::empty()
        } else {
            seq![k] + walk_prev(m, m[k].spec_prev(), (fuel - 1) as nat)
        },
    }
}

/// Walking forward from position `j` of a well-linked chain visits exactly
/// the keys from `j` on, in order.
proof fn lemma_walk_next_from<V>(s: Seq<u64>, m: Map<u64, ValueNode<V>>, j: int)
    requires
        chain_ok(s, m),
        0 <= j <= s.len(),
    ensures
        walk_next(
            m,
            if j == s.len() {
                None
            } else {
                Some(s[j])
            },
            (s.len() - j) as nat,
        ) == s.subrange(j, s.len() as int),
    decreases s.len() - j,
{
    if j == s.len() {
        assert(Seq::<u64>::empty() =~= s.subrange(j, s.len() as int));
    } else {
        lemma_chain_at(s, m, j);
        lemma_walk_next_from(s, m, j + 1);
        assert(seq![s[j]] + s.subrange(j + 1, s.len() as int) =~= s.subrange(j, s.len() as int));
    }
}

/// Walking backward from position `j` of a well-linked chain visits exactly
/// the keys up to `j`, in reverse order.
proof fn lemma_walk_prev_from<V>(s: Seq<u64>, m: Map<u64, ValueNode<V>>, j: int)
    requires
        chain_ok(s, m),
        -1 <= j < s.len(),
    ensures
        walk_prev(
            m,
            if j == -1 {
                None
            } else {
                Some(s[j])
            },
            (j + 1) as nat,
        ) == s.subrange(0, j + 1).reverse(),
    decreases j + 1,
{
    if j == -1 {
        assert(Seq::<u64>::empty() =~= s.subrange(0, 0).reverse());
    } else {
        lemma_chain_at(s, m, j);
        lemma_walk_prev_from(s, m, j - 1);
        assert(seq![s[j]] + s.subrange(0, j).reverse() =~= s.subrange(0, j + 1).reverse());
    }
}

/// A doubly-linked list that stores key-node pairs.
///
/// The pairs live in a hash map from key to [`ValueNode`]; the order of the
/// list is carried by the `prev`/`next` keys recorded in the nodes themselves,
/// together with the keys of the first and last pair.
#[derive(Clone)]
pub struct KeyNodeList<V> {
    nodes: HashMap<u64, ValueNode<V>>,
    head: Option<u64>,
    tail: Option<u64>,
    order: Ghost<Seq<u64>>,
}

impl<V> KeyNodeList<V> {
    /// The keys of the list, first to last.
    pub closed spec fn key_seq(self) -> Seq<u64> {
        self.order@
    }

    /// The key-to-node map backing the list.
    pub closed spec fn node_map(self) -> Map<u64, ValueNode<V>> {
        self.nodes@
    }

    /// The key of the first pair, `None` when the list is empty.
    pub closed spec fn spec_front_key(self) -> Option<u64> {
        self.head
    }

    /// The key of the last pair, `None` when the list is empty.
    pub closed spec fn spec_back_key(self) -> Option<u64> {
        self.tail
    }

    /// Structural well-formedness: the key sequence has no repeats, it lists
    /// exactly the keys of the map, every node's two links agree with its
    /// position in the sequence, and the head and tail keys are the first and
    /// last entries of the sequence.
    pub closed spec fn wf(self) -> bool {
        &&& chain_ok(self.order@, self.nodes@)
        &&& self.head == head_of(self.order@)
        &&& self.tail == tail_of(self.order@)
    }

    /// The key sequence lists exactly the domain of the node map, so the two
    /// have the same size.
    pub proof fn lemma_key_seq_is_dom(self)
        requires
            self.wf(),
        ensures
            self.node_map().dom() =~= self.key_seq().to_set(),
            self.node_map().len() == self.key_seq().len(),
            forall|k: u64|
                self.node_map().contains_key(k) <==> #[trigger] self.key_seq().contains(k),
            self.key_seq().no_duplicates(),
    {
        let s = self.order@;
        let m = self.nodes@;
        assert forall|k: u64| #[trigger] s.contains(k) implies m.contains_key(k) by {
            let i = choose|i: int| 0 <= i < s.len() && s[i] == k;
            lemma_chain_at(s, m, i);
        }
        broadcast use vstd::seq_lib::group_seq_properties;

        assert(m.dom() =~= s.to_set());
        s.unique_seq_to_set();
    }

    /// The structural invariants of a well-formed list.
    ///
    /// The front and back keys are `None` exactly when the list is empty;
    /// the front node has no `prev` link and the back node has no `next`
    /// link; the chain is mutually consistent in both directions (whenever
    /// one node names a `next`, that node exists and names it back as
    /// `prev`, and the other way round); and the keys of the list are
    /// unique.
    pub proof fn lemma_invariants(self)
        requires
            self.wf(),
        ensures
            self.spec_front_key() is None <==> self.node_map().len() == 0,
            self.spec_back_key() is None <==> self.node_map().len() == 0,
            self.spec_front_key() == head_of(self.key_seq()),
            self.spec_back_key() == tail_of(self.key_seq()),
            self.spec_front_key() matches Some(h) ==> self.node_map().contains_key(h)
                && self.node_map()[h].spec_prev() is None,
            self.spec_back_key() matches Some(b) ==> self.node_map().contains_key(b)
                && self.node_map()[b].spec_next() is None,
            forall|k: u64|
                #[trigger] self.node_map().contains_key(k) && self.node_map()[k].spec_next()
                    is Some ==> self.node_map().contains_key(
                    self.node_map()[k].spec_next()->Some_0,
                ) && self.node_map()[self.node_map()[k].spec_next()->Some_0].spec_prev() == Some(
                    k,
                ),
            forall|k: u64|
                #[trigger] self.node_map().contains_key(k) && self.node_map()[k].spec_prev()
                    is Some ==> self.node_map().contains_key(
                    self.node_map()[k].spec_prev()->Some_0,
                ) && self.node_map()[self.node_map()[k].spec_prev()->Some_0].spec_next() == Some(
                    k,
                ),
            self.key_seq().no_duplicates(),
            self.node_map().dom() =~= self.key_seq().to_set(),
    {
        let s = self.order@;
        let m = self.nodes@;
        self.lemma_key_seq_is_dom();
        if s.len() > 0 {
            lemma_chain_at(s, m, 0);
            lemma_chain_at(s, m, s.len() - 1);
        }
        assert forall|k: u64|
            #[trigger] m.contains_key(k) && m[k].spec_next() is Some implies m.contains_key(
            m[k].spec_next()->Some_0,
        ) && m[m[k].spec_next()->Some_0].spec_prev() == Some(k) by {
            let i = choose|i: int| 0 <= i < s.len() && s[i] == k;
            lemma_chain_at(s, m, i);
            assert(i < s.len() - 1);
            lemma_chain_at(s, m, i + 1);
        }
        assert forall|k: u64|
            #[trigger] m.contains_key(k) && m[k].spec_prev() is Some implies m.contains_key(
            m[k].spec_prev()->Some_0,
        ) && m[m[k].spec_prev()->Some_0].spec_next() == Some(k) by {
            let i = choose|i: int| 0 <= i < s.len() && s[i] == k;
            lemma_chain_at(s, m, i);
            assert(i > 0);
            lemma_chain_at(s, m, i - 1);
        }
    }

    /// Walking forward from the front key by `next` links visits every key
    /// of the list exactly once, in list order, and stops after the back
    /// key.
    pub proof fn lemma_forward_walk(self)
        requires
            self.wf(),
        ensures
            walk_next(self.node_map(), self.spec_front_key(), self.key_seq().len() as nat)
                == self.key_seq(),
    {
        lemma_walk_next_from(self.order@, self.nodes@, 0);
        assert(self.order@.subrange(0, self.order@.len() as int) =~= self.order@);
    }

    /// Walking backward from the back key by `prev` links visits every key
    /// of the list exactly once, in the exact reverse of list order, and
    /// stops after the front key.
    pub proof fn lemma_backward_walk(self)
        requires
            self.wf(),
        ensures
            walk_prev(self.node_map(), self.spec_back_key(), self.key_seq().len() as nat)
                == self.key_seq().reverse(),
    {
        lemma_walk_prev_from(self.order@, self.nodes@, self.order@.len() - 1);
        assert(self.order@.subrange(0, self.order@.len() as int) =~= self.order@);
    }
}

impl<V> View for KeyNodeList<V> {
    type V = Seq<(u64, V)>;

    /// The list as the sequence of its key-value pairs, first to last.
    closed spec fn view(&self) -> Seq<(u64, V)> {
        pairs_of(self.order@, self.nodes@)
    }
}

impl<V> KeyNodeList<V> {
    /// Creates an empty linked list.
    pub fn new() -> (list: Self)
        ensures
            list.wf(),
            list@ == Seq::<(u64, V)>::empty(),
            list.key_seq() == Seq::<u64>::empty(),
            list.spec_front_key() is None,
            list.spec_back_key() is None,
    {
        let list = Self { nodes: HashMap::new(), head: None, tail: None, order: Ghost(Seq::empty()) };
        proof {
            assert(list@ =~= Seq::<(u64, V)>::empty());
        }
        list
    }

    /// Creates a linked list that will store its pairs in the given (still
    /// empty) hash map.
    pub fn with_map(map: HashMap<u64, ValueNode<V>>) -> (list: Self)
        requires
            map@ == Map::<u64, ValueNode<V>>::empty(),
        ensures
            list.wf(),
            list@ == Seq::<(u64, V)>::empty(),
            list.key_seq() == Seq::<u64>::empty(),
            list.spec_front_key() is None,
            list.spec_back_key() is None,
    {
        let list = Self { nodes: map, head: None, tail: None, order: Ghost(Seq::empty()) };
        proof {
            assert(list@ =~= Seq::<(u64, V)>::empty());
        }
        list
    }

    /// Returns the front key, or `None` if the list is empty.
    ///
    /// This operation computes in *O*(1) time.
    pub fn front_key(&self) -> (key: Option<u64>)
        requires
            self.wf(),
        ensures
            key == self.spec_front_key(),
            key == head_of(self.key_seq()),
            key matches Some(k) ==> self@.len() > 0 && k == self@[0].0,
            key is None ==> self@.len() == 0,
    {
        self.head
    }

    /// Returns the back key, or `None` if the list is empty.
    ///
    /// This operation computes in *O*(1) time.
    pub fn back_key(&self) -> (key: Option<u64>)
        requires
            self.wf(),
        ensures
            key == self.spec_back_key(),
            key == tail_of(self.key_seq()),
            key matches Some(k) ==> self@.len() > 0 && k == self@[self@.len() - 1].0,
            key is None ==> self@.len() == 0,
    {
        self.tail
    }

    /// Returns the number of key-node pairs in the list.
    ///
    /// This operation computes in *O*(1) time.
    pub fn len(&self) -> (len: usize)
        requires
            self.wf(),
        ensures
            len == self@.len(),
    {
        proof {
            self.lemma_key_seq_is_dom();
        }
        self.nodes.len()
    }

    /// Returns `true` if the list contains no key-node pairs.
    ///
    /// This operation computes in *O*(1) time.
    pub fn is_empty(&self) -> (empty: bool)
        requires
            self.wf(),
        ensures
            empty == (self@.len() == 0),
    {
        proof {
            self.lemma_key_seq_is_dom();
        }
        self.nodes.is_empty()
    }

    /// Removes all key-node pairs from the list.
    pub fn clear(&mut self)
        ensures
            final(self).wf(),
            final(self)@ == Seq::<(u64, V)>::empty(),
            final(self).key_seq() == Seq::<u64>::empty(),
            final(self).spec_front_key() is None,
            final(self).spec_back_key() is None,
    {
        self.nodes.clear();
        self.head = None;
        self.tail = None;
        self.order = Ghost(Seq::empty());
        proof {
            assert(self@ =~= Seq::<(u64, V)>::empty());
        }
    }

    /// Rewrites the `prev` link of the node stored at `key`, leaving every
    /// other part of the list untouched.
    fn set_node_prev(&mut self, key: u64, prev: Option<u64>)
        requires
            old(self).nodes@.contains_key(key),
        ensures
            final(self).nodes@.dom() == old(self).nodes@.dom(),
            final(self).nodes@[key].spec_value() == old(self).nodes@[key].spec_value(),
            final(self).nodes@[key].spec_prev() == prev,
            final(self).nodes@[key].spec_next() == old(self).nodes@[key].spec_next(),
            forall|k2: u64|
                k2 != key && old(self).nodes@.contains_key(k2) ==> final(self).nodes@[k2]
                    == old(self).nodes@[k2],
            final(self).head == old(self).head,
            final(self).tail == old(self).tail,
            final(self).order == old(self).order,
    {
        let mut node = self.nodes.remove(&key).unwrap();
        node.set_prev(prev);
        self.nodes.insert(key, node);
        proof {
            assert(self.nodes@.dom() =~= old(self).nodes@.dom());
        }
    }

    /// Rewrites the `next` link of the node stored at `key`, leaving every
    /// other part of the list untouched.
    fn set_node_next(&mut self, key: u64, next: Option<u64>)
        requires
            old(self).nodes@.contains_key(key),
        ensures
            final(self).nodes@.dom() == old(self).nodes@.dom(),
            final(self).nodes@[key].spec_value() == old(self).nodes@[key].spec_value(),
            final(self).nodes@[key].spec_prev() == old(self).nodes@[key].spec_prev(),
            final(self).nodes@[key].spec_next() == next,
            forall|k2: u64|
                k2 != key && old(self).nodes@.contains_key(k2) ==> final(self).nodes@[k2]
                    == old(self).nodes@[k2],
            final(self).head == old(self).head,
            final(self).tail == old(self).tail,
            final(self).order == old(self).order,
    {
        let mut node = self.nodes.remove(&key).unwrap();
        node.set_next(next);
        self.nodes.insert(key, node);
        proof {
            assert(self.nodes@.dom() =~= old(self).nodes@.dom());
        }
    }

    /// Adds a key-node pair at the back of the list.
    ///
    /// If `key` already exists, nothing changes and the rejected key and
    /// value are handed back unchanged.
    ///
    /// This operation computes in *O*(1) time on average.
    pub fn push_back(&mut self, key: u64, value: V) -> (result: Result<(), (u64, V)>)
        requires
            old(self).wf(),
        ensures
            final(self).wf(),
            match result {
                Ok(()) => {
                    &&& !old(self).key_seq().contains(key)
                    &&& final(self)@ == old(self)@.push((key, value))
                    &&& final(self).key_seq() == old(self).key_seq().push(key)
                },
                Err(rejected) => {
                    &&& old(self).key_seq().contains(key)
                    &&& rejected == (key, value)
                    &&& *final(self) == *old(self)
                },
            },
    {
        proof {
            self.lemma_key_seq_is_dom();
        }
        if self.nodes.contains_key(&key) {
            return Err((key, value));
        }
        let ghost s = self.order@;
        let mut node = ValueNode::new(value);
        match self.tail {
            Some(t) => {
                node.set_prev(Some(t));
                self.set_node_next(t, Some(key));
            },
            None => {
                self.head = Some(key);
            },
        }
        self.nodes.insert(key, node);
        self.tail = Some(key);
        self.order = Ghost(self.order@.push(key));
        proof {
            let s2 = self.order@;
            assert forall|i: int, j: int| 0 <= i < j < s2.len() implies s2[i] != s2[j] by {
                if j < s.len() {
                    assert(s[i] != s[j]);
                } else {
                    assert(s.contains(s[i]));
                }
            }
            assert forall|k: u64| #[trigger] self.nodes@.contains_key(k) implies s2.contains(
                k,
            ) by {
                if k == key {
                    assert(s2[s2.len() - 1] == k);
                } else {
                    let i = choose|i: int| 0 <= i < s.len() && s[i] == k;
                    assert(s2[i] == k);
                }
            }
            assert forall|i: int| 0 <= i < s2.len() implies {
                &&& self.nodes@.contains_key(#[trigger] s2[i])
                &&& self.nodes@[s2[i]].spec_prev() == link_before(s2, i)
                &&& self.nodes@[s2[i]].spec_next() == link_after(s2, i)
            } by {
                if i < s.len() {
                    assert(s.contains(s[i]));
                    assert(s2[i] == s[i]);
                    if i < s.len() - 1 {
                        assert(old(self).nodes@[s[i]] == self.nodes@[s2[i]]);
                    }
                }
            }
            assert(self@ =~= old(self)@.push((key, value)));
        }
        Ok(())
    }

    /// Adds a key-node pair at the front of the list.
    ///
    /// If `key` already exists, nothing changes and the rejected key and
    /// value are handed back unchanged.
    ///
    /// This operation computes in *O*(1) time on average.
    pub fn push_front(&mut self, key: u64, value: V) -> (result: Result<(), (u64, V)>)
        requires
            old(self).wf(),
        ensures
            final(self).wf(),
            match result {
                Ok(()) => {
                    &&& !old(self).key_seq().contains(key)
                    &&& final(self)@ == seq![(key, value)] + old(self)@
                    &&& final(self).key_seq() == seq![key] + old(self).key_seq()
                },
                Err(rejected) => {
                    &&& old(self).key_seq().contains(key)
                    &&& rejected == (key, value)
                    &&& *final(self) == *old(self)
                },
            },
    {
        proof {
            self.lemma_key_seq_is_dom();
        }
        if self.nodes.contains_key(&key) {
            return Err((key, value));
        }
        let ghost s = self.order@;
        let mut node = ValueNode::new(value);
        match self.head {
            Some(h) => {
                node.set_next(Some(h));
                self.set_node_prev(h, Some(key));
            },
            None => {
                self.tail = Some(key);
            },
        }
        self.nodes.insert(key, node);
        self.head = Some(key);
        self.order = Ghost(seq![key] + self.order@);
        proof {
            let s2 = self.order@;
            assert forall|i: int, j: int| 0 <= i < j < s2.len() implies s2[i] != s2[j] by {
                if i > 0 {
                    assert(s[i - 1] != s[j - 1]);
                } else {
                    assert(s.contains(s[j - 1]));
                }
            }
            assert forall|k: u64| #[trigger] self.nodes@.contains_key(k) implies s2.contains(
                k,
            ) by {
                if k == key {
                    assert(s2[0] == k);
                } else {
                    let i = choose|i: int| 0 <= i < s.len() && s[i] == k;
                    assert(s2[i + 1] == k);
                }
            }
            assert forall|i: int| 0 <= i < s2.len() implies {
                &&& self.nodes@.contains_key(#[trigger] s2[i])
                &&& self.nodes@[s2[i]].spec_prev() == link_before(s2, i)
                &&& self.nodes@[s2[i]].spec_next() == link_after(s2, i)
            } by {
                if i >= 1 {
                    assert(s.contains(s[i - 1]));
                    assert(s2[i] == s[i - 1]);
                    if i > 1 {
                        assert(old(self).nodes@[s[i - 1]] == self.nodes@[s2[i]]);
                    }
                }
            }
            assert(self@ =~= seq![(key, value)] + old(self)@);
        }
        Ok(())
    }

    /// Removes the first key-node pair and returns it, or `None` if the list
    /// is empty.
    ///
    /// This operation computes in *O*(1) time on average.
    pub fn pop_front(&mut self) -> (result: Option<(u64, ValueNode<V>)>)
        requires
            old(self).wf(),
        ensures
            final(self).wf(),
            match result {
                Some(pair) => {
                    &&& old(self)@.len() > 0
                    &&& pair.0 == old(self)@[0].0
                    &&& pair.1 == old(self).node_map()[pair.0]
                    &&& pair.1.spec_value() == old(self)@[0].1
                    &&& final(self)@ == old(self)@.drop_first()
                    &&& final(self).key_seq() == old(self).key_seq().drop_first()
                },
                None => {
                    &&& old(self)@.len() == 0
                    &&& *final(self) == *old(self)
                },
            },
    {
        let ghost s = self.order@;
        let ghost m = self.nodes@;
        match self.head {
            None => None,
            Some(k) => {
                proof {
                    lemma_chain_at(s, m, 0);
                    if s.len() > 1 {
                        lemma_chain_at(s, m, 1);
                    }
                }
                let node = self.nodes.remove(&k).unwrap();
                self.head = node.next();
                match self.head {
                    Some(h) => self.set_node_prev(h, None),
                    None => self.tail = None,
                }
                self.order = Ghost(self.order@.drop_first());
                proof {
                    let s2 = self.order@;
                    let m2 = self.nodes@;
                    assert(s2 =~= s.remove(0));
                    assert forall|k2: u64| #[trigger] m2.contains_key(k2) <==> (m.contains_key(k2)
                        && k2 != s[0]) by {}
                    lemma_chain_remove(s, m, m2, 0);
                    s.remove_ensures(0);
                    assert(self.head == head_of(s2));
                    assert(self.tail == tail_of(s2)) by {
                        if s2.len() > 0 {
                            assert(s2[s2.len() - 1] == s[s.len() - 1]);
                        }
                    }
                    assert(old(self)@.remove(0) =~= old(self)@.drop_first());
                    assert(self@ == old(self)@.drop_first());
                }
                Some((k, node))
            },
        }
    }

    /// Removes the last key-node pair and returns it, or `None` if the list
    /// is empty.
    ///
    /// This operation computes in *O*(1) time on average.
    pub fn pop_back(&mut self) -> (result: Option<(u64, ValueNode<V>)>)
        requires
            old(self).wf(),
        ensures
            final(self).wf(),
            match result {
                Some(pair) => {
                    &&& old(self)@.len() > 0
                    &&& pair.0 == old(self)@[old(self)@.len() - 1].0
                    &&& pair.1 == old(self).node_map()[pair.0]
                    &&& pair.1.spec_value() == old(self)@[old(self)@.len() - 1].1
                    &&& final(self)@ == old(self)@.drop_last()
                    &&& final(self).key_seq() == old(self).key_seq().drop_last()
                },
                None => {
                    &&& old(self)@.len() == 0
                    &&& *final(self) == *old(self)
                },
            },
    {
        let ghost s = self.order@;
        let ghost m = self.nodes@;
        match self.tail {
            None => None,
            Some(k) => {
                proof {
                    lemma_chain_at(s, m, s.len() - 1);
                    if s.len() > 1 {
                        lemma_chain_at(s, m, s.len() - 2);
                    }
                }
                let node = self.nodes.remove(&k).unwrap();
                self.tail = node.prev();
                match self.tail {
                    Some(t) => self.set_node_next(t, None),
                    None => self.head = None,
                }
                self.order = Ghost(self.order@.drop_last());
                proof {
                    let s2 = self.order@;
                    let m2 = self.nodes@;
                    let ghost i = s.len() - 1;
                    assert(s2 =~= s.remove(i));
                    assert forall|k2: u64| #[trigger] m2.contains_key(k2) <==> (m.contains_key(k2)
                        && k2 != s[i]) by {}
                    lemma_chain_remove(s, m, m2, i);
                    s.remove_ensures(i);
                    assert(self.head == head_of(s2)) by {
                        if s2.len() > 0 {
                            assert(s2[0] == s[0]);
                        }
                    }
                    assert(self.tail == tail_of(s2)) by {
                        if s2.len() > 0 {
                            assert(s2[s2.len() - 1] == s[s.len() - 2]);
                        }
                    }
                    assert(old(self)@.remove(i) =~= old(self)@.drop_last());
                    assert(self@ == old(self)@.drop_last());
                }
                Some((k, node))
            },
        }
    }

    /// Removes the key-node pair at the given key and returns it, or `None`
    /// if `key` does not exist. The two neighbours of the removed pair, if
    /// any, are re-linked to each other.
    ///
    /// This operation computes in *O*(1) time on average.
    #[verifier::rlimit(100)]
    pub fn remove(&mut self, key: u64) -> (result: Option<(u64, ValueNode<V>)>)
        requires
            old(self).wf(),
        ensures
            final(self).wf(),
            match result {
                Some(pair) => {
                    &&& old(self).key_seq().contains(key)
                    &&& pair.0 == key
                    &&& pair.1 == old(self).node_map()[key]
                    &&& ({
                        let i = old(self).key_seq().index_of(key);
                        &&& old(self).key_seq()[i] == key
                        &&& 0 <= i < old(self)@.len()
                        &&& pair.1.spec_value() == old(self)@[i].1
                        &&& final(self)@ == old(self)@.remove(i)
                        &&& final(self).key_seq() == old(self).key_seq().remove(i)
                    })
                },
                None => {
                    &&& !old(self).key_seq().contains(key)
                    &&& *final(self) == *old(self)
                },
            },
    {
        proof {
            self.lemma_key_seq_is_dom();
        }
        if !self.nodes.contains_key(&key) {
            return None;
        }
        let ghost s = self.order@;
        let ghost i = s.index_of(key);
        proof {
            assert(exists|j: int| 0 <= j < s.len() && s[j] == key);
            assert(0 <= i < s.len() && s[i] == key);
        }
        let ghost m = self.nodes@;
        let node = self.nodes.remove(&key).unwrap();
        match node.prev() {
            Some(p) => self.set_node_next(p, node.next()),
            None => self.head = node.next(),
        }
        match node.next() {
            Some(n) => self.set_node_prev(n, node.prev()),
            None => self.tail = node.prev(),
        }
        self.order = Ghost(self.order@.remove(i));
        proof {
            let s2 = self.order@;
            let m2 = self.nodes@;
            s.remove_ensures(i);
            assert forall|k2: u64| #[trigger] m2.contains_key(k2) <==> (m.contains_key(k2) && k2
                != key) by {}
            lemma_chain_remove(s, m, m2, i);
            assert(self.head == head_of(s2)) by {
                if s2.len() > 0 && i == 0 {
                    assert(s2[0] == s[1]);
                }
            }
            assert(self.tail == tail_of(s2)) by {
                if s2.len() > 0 && i == s.len() - 1 {
                    assert(s2[s2.len() - 1] == s[s.len() - 2]);
                }
            }
        }
        Some((key, node))
    }

    /// Inserts `key`/`value` directly after the position that holds `anchor`,
    /// or at the front of the list when `anchor` is `None`.
    ///
    /// If `key` already exists, nothing changes and the rejected key and
    /// value are handed back unchanged.
    pub(crate) fn splice_after(&mut self, anchor: Option<u64>, key: u64, value: V) -> (result:
        Result<(), (u64, V)>)
        requires
            old(self).wf(),
            anchor matches Some(a) ==> old(self).key_seq().contains(a),
        ensures
            final(self).wf(),
            match result {
                Ok(()) => {
                    &&& !old(self).key_seq().contains(key)
                    &&& final(self)@ == old(self)@.insert(
                        pos_after(old(self).key_seq(), anchor),
                        (key, value),
                    )
                    &&& final(self).key_seq() == old(self).key_seq().insert(
                        pos_after(old(self).key_seq(), anchor),
                        key,
                    )
                },
                Err(rejected) => {
                    &&& old(self).key_seq().contains(key)
                    &&& rejected == (key, value)
                    &&& *final(self) == *old(self)
                },
            },
    {
        proof {
            self.lemma_key_seq_is_dom();
        }
        if self.nodes.contains_key(&key) {
            return Err((key, value));
        }
        let ghost s = self.order@;
        let ghost m = self.nodes@;
        let ghost i = pos_after(s, anchor);
        let mut node = ValueNode::new(value);
        let next: Option<u64> = match anchor {
            Some(a) => {
                proof {
                    self.lemma_index_of(a);
                }
                self.node(a).unwrap().next()
            },
            None => self.head,
        };
        proof {
            assert(0 <= i <= s.len());
            assert(next == (if i == s.len() {
                None::<u64>
            } else {
                Some(s[i])
            }));
        }
        node.set_prev(anchor);
        node.set_next(next);
        match anchor {
            Some(a) => self.set_node_next(a, Some(key)),
            None => self.head = Some(key),
        }
        match next {
            Some(n) => self.set_node_prev(n, Some(key)),
            None => self.tail = Some(key),
        }
        self.nodes.insert(key, node);
        self.order = Ghost(s.insert(i, key));
        proof {
            let s2 = self.order@;
            let m2 = self.nodes@;
            s.insert_ensures(i, key);
            assert forall|k2: u64| #[trigger] m2.contains_key(k2) <==> (m.contains_key(k2) || k2
                == key) by {}
            lemma_chain_insert(s, m, m2, i, key);
            assert(self.head == head_of(s2)) by {
                if i > 0 {
                    assert(s2[0] == s[0]);
                }
            }
            assert(self.tail == tail_of(s2)) by {
                if i < s.len() {
                    assert(s2[s2.len() - 1] == s[s.len() - 1]);
                }
            }
        }
        Ok(())
    }

    /// Inserts `key`/`value` directly before the position that holds
    /// `anchor`, or at the back of the list when `anchor` is `None`.
    ///
    /// If `key` already exists, nothing changes and the rejected key and
    /// value are handed back unchanged.
    pub(crate) fn splice_before(&mut self, anchor: Option<u64>, key: u64, value: V) -> (result:
        Result<(), (u64, V)>)
        requires
            old(self).wf(),
            anchor matches Some(a) ==> old(self).key_seq().contains(a),
        ensures
            final(self).wf(),
            match result {
                Ok(()) => {
                    &&& !old(self).key_seq().contains(key)
                    &&& final(self)@ == old(self)@.insert(
                        pos_before(old(self).key_seq(), anchor),
                        (key, value),
                    )
                    &&& final(self).key_seq() == old(self).key_seq().insert(
                        pos_before(old(self).key_seq(), anchor),
                        key,
                    )
                },
                Err(rejected) => {
                    &&& old(self).key_seq().contains(key)
                    &&& rejected == (key, value)
                    &&& *final(self) == *old(self)
                },
            },
    {
        proof {
            self.lemma_key_seq_is_dom();
        }
        if self.nodes.contains_key(&key) {
            return Err((key, value));
        }
        let ghost s = self.order@;
        let ghost m = self.nodes@;
        let ghost i = pos_before(s, anchor);
        let mut node = ValueNode::new(value);
        let prev: Option<u64> = match anchor {
            Some(a) => {
                proof {
                    self.lemma_index_of(a);
                }
                self.node(a).unwrap().prev()
            },
            None => self.tail,
        };
        proof {
            assert(0 <= i <= s.len());
            assert(prev == link_before(s, i));
        }
        node.set_prev(prev);
        node.set_next(anchor);
        match prev {
            Some(p) => self.set_node_next(p, Some(key)),
            None => self.head = Some(key),
        }
        match anchor {
            Some(a) => self.set_node_prev(a, Some(key)),
            None => self.tail = Some(key),
        }
        self.nodes.insert(key, node);
        self.order = Ghost(s.insert(i, key));
        proof {
            let s2 = self.order@;
            let m2 = self.nodes@;
            s.insert_ensures(i, key);
            assert forall|k2: u64| #[trigger] m2.contains_key(k2) <==> (m.contains_key(k2) || k2
                == key) by {}
            lemma_chain_insert(s, m, m2, i, key);
            assert(self.head == head_of(s2)) by {
                if i > 0 {
                    assert(s2[0] == s[0]);
                }
            }
            assert(self.tail == tail_of(s2)) by {
                if i < s.len() {
                    assert(s2[s2.len() - 1] == s[s.len() - 1]);
                }
            }
        }
        Ok(())
    }

    /// A key that the list contains sits at its `index_of` position in the
    /// key sequence, and the links of its node point at the preceding and
    /// following keys.
    pub proof fn lemma_index_of(self, key: u64)
        requires
            self.wf(),
            self.key_seq().contains(key),
        ensures
            ({
                let i = self.key_seq().index_of(key);
                &&& 0 <= i < self.key_seq().len()
                &&& self.key_seq()[i] == key
                &&& self.key_seq().len() == self@.len()
                &&& self.node_map().contains_key(key)
                &&& self.node_map()[key].spec_prev() == link_before(self.key_seq(), i)
                &&& self.node_map()[key].spec_next() == link_after(self.key_seq(), i)
                &&& self.node_map()[key].spec_value() == self@[i].1
                &&& self@[i].0 == key
            }),
    {
        let s = self.key_seq();
        assert(exists|j: int| 0 <= j < s.len() && s[j] == key);
        let i = s.index_of(key);
        assert(0 <= i < s.len() && s[i] == key);
    }

    /// Returns a reference to the node at the given key, or `None` if the
    /// key does not exist.
    ///
    /// This operation computes in *O*(1) time on average.
    pub fn node(&self, key: u64) -> (node: Option<&ValueNode<V>>)
        requires
            self.wf(),
        ensures
            match node {
                Some(n) => {
                    &&& self.key_seq().contains(key)
                    &&& *n == self.node_map()[key]
                },
                None => !self.key_seq().contains(key),
            },
    {
        proof {
            self.lemma_key_seq_is_dom();
        }
        self.nodes.get(&key)
    }

    /// The view is determined position by position by the key sequence and
    /// the node map: entry `i` pairs the `i`-th key with the payload of its
    /// node.
    pub proof fn lemma_view(self)
        ensures
            self@.len() == self.key_seq().len(),
            forall|i: int|
                0 <= i < self.key_seq().len() ==> #[trigger] self@[i] == (
                self.key_seq()[i],
                self.node_map()[self.key_seq()[i]].spec_value(),
            ),
    {
    }

    /// Replacing the node of a present key with one that carries the same
    /// two links keeps the list well-formed, and changes the view only at
    /// that key's position.
    pub proof fn lemma_node_update(pre: Self, post: Self, key: u64, node: ValueNode<V>)
        requires
            pre.wf(),
            pre.key_seq().contains(key),
            post.node_map() == pre.node_map().insert(key, node),
            node.spec_prev() == pre.node_map()[key].spec_prev(),
            node.spec_next() == pre.node_map()[key].spec_next(),
            post.key_seq() == pre.key_seq(),
            post.spec_front_key() == pre.spec_front_key(),
            post.spec_back_key() == pre.spec_back_key(),
        ensures
            post.wf(),
            post@ == pre@.update(pre.key_seq().index_of(key), (key, node.spec_value())),
    {
        pre.lemma_index_of(key);
        let s = pre.key_seq();
        let i = s.index_of(key);
        assert forall|j: int| 0 <= j < s.len() implies {
            &&& post.nodes@.contains_key(#[trigger] s[j])
            &&& post.nodes@[s[j]].spec_prev() == link_before(s, j)
            &&& post.nodes@[s[j]].spec_next() == link_after(s, j)
        } by {
            assert(pre.nodes@.contains_key(s[j]));
        }
        assert(post@ =~= pre@.update(i, (key, node.spec_value())));
    }

    /// Returns a mutable reference to the node at the given key, or `None`
    /// if the key does not exist.
    ///
    /// The caller can change the payload freely; the links of the node are
    /// private, so they keep their values unless the whole node is replaced.
    /// [`KeyNodeList::lemma_node_update`] recovers well-formedness when they
    /// are kept.
    ///
    /// This operation computes in *O*(1) time on average.
    pub fn node_mut(&mut self, key: u64) -> (node: Option<&mut ValueNode<V>>)
        requires
            old(self).wf(),
        ensures
            match node {
                Some(n) => {
                    &&& old(self).key_seq().contains(key)
                    &&& *n == old(self).node_map()[key]
                    &&& final(self).key_seq() == old(self).key_seq()
                    &&& final(self).spec_front_key() == old(self).spec_front_key()
                    &&& final(self).spec_back_key() == old(self).spec_back_key()
                    &&& final(self).node_map() == old(self).node_map().insert(key, *final(n))
                },
                None => {
                    &&& !old(self).key_seq().contains(key)
                    &&& *final(self) == *old(self)
                },
            },
    {
        proof {
            self.lemma_key_seq_is_dom();
        }
        if !self.nodes.contains_key(&key) {
            return None;
        }
        match self.nodes.entry(key) {
            Entry::Occupied(occ) => Some(occ.into_mut()),
            Entry::Vacant(_) => {
                proof {
                    assert(false);
                }
                None
            },
        }
    }

    /// Returns a reference to the front node, or `None` if the list is
    /// empty.
    ///
    /// This operation computes in *O*(1) time on average.
    pub fn front_node(&self) -> (node: Option<&ValueNode<V>>)
        requires
            self.wf(),
        ensures
            match node {
                Some(n) => {
                    &&& self@.len() > 0
                    &&& *n == self.node_map()[self.key_seq()[0]]
                    &&& n.spec_value() == self@[0].1
                },
                None => self@.len() == 0,
            },
    {
        proof {
            if self.order@.len() > 0 {
                assert(self.key_seq().contains(self.key_seq()[0]));
            }
        }
        match self.head {
            Some(k) => self.node(k),
            None => None,
        }
    }

    /// Returns a reference to the back node, or `None` if the list is
    /// empty.
    ///
    /// This operation computes in *O*(1) time on average.
    pub fn back_node(&self) -> (node: Option<&ValueNode<V>>)
        requires
            self.wf(),
        ensures
            match node {
                Some(n) => {
                    &&& self@.len() > 0
                    &&& *n == self.node_map()[self.key_seq()[self@.len() - 1]]
                    &&& n.spec_value() == self@[self@.len() - 1].1
                },
                None => self@.len() == 0,
            },
    {
        proof {
            if self.order@.len() > 0 {
                assert(self.key_seq().contains(self.key_seq()[self.key_seq().len() - 1]));
            }
        }
        match self.tail {
            Some(k) => self.node(k),
            None => None,
        }
    }

    /// Returns a mutable reference to the front node, or `None` if the list
    /// is empty.
    ///
    /// This operation computes in *O*(1) time on average.
    pub fn front_node_mut(&mut self) -> (node: Option<&mut ValueNode<V>>)
        requires
            old(self).wf(),
        ensures
            match node {
                Some(n) => {
                    &&& old(self)@.len() > 0
                    &&& *n == old(self).node_map()[old(self).key_seq()[0]]
                    &&& final(self).key_seq() == old(self).key_seq()
                    &&& final(self).spec_front_key() == old(self).spec_front_key()
                    &&& final(self).spec_back_key() == old(self).spec_back_key()
                    &&& final(self).node_map() == old(self).node_map().insert(
                        old(self).key_seq()[0],
                        *final(n),
                    )
                },
                None => {
                    &&& old(self)@.len() == 0
                    &&& *final(self) == *old(self)
                },
            },
    {
        let k = match self.head {
            Some(k) => k,
            None => {
                return None;
            },
        };
        proof {
            assert(self.key_seq().contains(self.key_seq()[0]));
        }
        self.node_mut(k)
    }

    /// Returns a mutable reference to the back node, or `None` if the list
    /// is empty.
    ///
    /// This operation computes in *O*(1) time on average.
    pub fn back_node_mut(&mut self) -> (node: Option<&mut ValueNode<V>>)
        requires
            old(self).wf(),
        ensures
            match node {
                Some(n) => {
                    &&& old(self)@.len() > 0
                    &&& *n == old(self).node_map()[old(self).key_seq()[old(self)@.len() - 1]]
                    &&& final(self).key_seq() == old(self).key_seq()
                    &&& final(self).spec_front_key() == old(self).spec_front_key()
                    &&& final(self).spec_back_key() == old(self).spec_back_key()
                    &&& final(self).node_map() == old(self).node_map().insert(
                        old(self).key_seq()[old(self)@.len() - 1],
                        *final(n),
                    )
                },
                None => {
                    &&& old(self)@.len() == 0
                    &&& *final(self) == *old(self)
                },
            },
    {
        let k = match self.tail {
            Some(k) => k,
            None => {
                return None;
            },
        };
        proof {
            assert(self.key_seq().contains(self.key_seq()[self.key_seq().len() - 1]));
        }
        self.node_mut(k)
    }

    /// Returns `true` if the list contains a node for the given key.
    ///
    /// This operation computes in *O*(1) time on average.
    pub fn contains_key(&self, key: u64) -> (present: bool)
        requires
            self.wf(),
        ensures
            present == self.key_seq().contains(key),
    {
        proof {
            self.lemma_key_seq_is_dom();
        }
        self.nodes.contains_key(&key)
    }
}

impl<V> Default for KeyNodeList<V> {
    /// The default list is the empty list.
    fn default() -> (list: Self)
        ensures
            list.wf(),
            list@ == Seq::<(u64, V)>::empty(),
            list.key_seq() == Seq::<u64>::empty(),
            list.spec_front_key() is None,
            list.spec_back_key() is None,
    {
        Self::new()
    }
}

impl<V: PartialEq> PartialEq for KeyNodeList<V> {
    /// Two lists are equal when they hold the same keys in the same order
    /// with equal payloads. The comparison walks both chains and never runs
    /// longer than the stored number of pairs.
    fn eq(&self, other: &KeyNodeList<V>) -> bool {
        let mut remaining = self.nodes.len();
        if remaining != other.nodes.len() {
            return false;
        }
        let mut k1 = self.head;
        let mut k2 = other.head;
        while remaining > 0
            decreases remaining,
        {
            match (k1, k2) {
                (Some(a), Some(b)) => {
                    if a != b {
                        return false;
                    }
                    let n1 = match self.nodes.get(&a) {
                        Some(n) => n,
                        None => {
                            return false;
                        },
                    };
                    let n2 = match other.nodes.get(&b) {
                        Some(n) => n,
                        None => {
                            return false;
                        },
                    };
                    if !(n1.value() == n2.value()) {
                        return false;
                    }
                    k1 = n1.next();
                    k2 = n2.next();
                },
                _ => {
                    return false;
                },
            }
            remaining = remaining - 1;
        }
        match (k1, k2) {
            (None, None) => true,
            _ => false,
        }
    }
}

impl<V: PartialEq> vstd::std_specs::cmp::PartialEqSpecImpl for KeyNodeList<V> {
    open spec fn obeys_eq_spec() -> bool {
        false
    }

    open spec fn eq_spec(&self, other: &KeyNodeList<V>) -> bool {
        self@ == other@
    }
}

impl KeyNodeList<()> {
    /// Adds a bare key at the front of a list whose nodes carry no payload.
    ///
    /// If `key` already exists, nothing changes and the rejected key is
    /// handed back.
    ///
    /// This operation computes in *O*(1) time on average.
    pub fn push_key_front(&mut self, key: u64) -> (result: Result<(), u64>)
        requires
            old(self).wf(),
        ensures
            final(self).wf(),
            match result {
                Ok(()) => {
                    &&& !old(self).key_seq().contains(key)
                    &&& final(self)@ == seq![(key, ())] + old(self)@
                    &&& final(self).key_seq() == seq![key] + old(self).key_seq()
                },
                Err(rejected) => {
                    &&& old(self).key_seq().contains(key)
                    &&& rejected == key
                    &&& *final(self) == *old(self)
                },
            },
    {
        match self.push_front(key, ()) {
            Ok(()) => Ok(()),
            Err((k, _)) => Err(k),
        }
    }

    /// Adds a bare key at the back of a list whose nodes carry no payload.
    ///
    /// If `key` already exists, nothing changes and the rejected key is
    /// handed back.
    ///
    /// This operation computes in *O*(1) time on average.
    pub fn push_key_back(&mut self, key: u64) -> (result: Result<(), u64>)
        requires
            old(self).wf(),
        ensures
            final(self).wf(),
            match result {
                Ok(()) => {
                    &&& !old(self).key_seq().contains(key)
                    &&& final(self)@ == old(self)@.push((key, ()))
                    &&& final(self).key_seq() == old(self).key_seq().push(key)
                },
                Err(rejected) => {
                    &&& old(self).key_seq().contains(key)
                    &&& rejected == key
                    &&& *final(self) == *old(self)
                },
            },
    {
        match self.push_back(key, ()) {
            Ok(()) => Ok(()),
            Err((k, _)) => Err(k),
        }
    }
}

} // verus!
