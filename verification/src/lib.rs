//! A doubly-linked list whose nodes are addressed by stable, caller-chosen
//! keys instead of pointers.
//!
//! [`KeyNodeList`] keeps a hash map from keys to nodes and records, inside
//! each node, the keys of its two neighbours. Pushing, popping, keyed removal
//! and keyed lookup all run in amortized constant time, and a cursor
//! interface allows ordered traversal and in-place editing.

mod cursor;
mod iter;
mod list;
mod node;

pub use iter::IntoIter;
pub use iter::IntoKeys;
pub use iter::IntoNodes;
pub use iter::Iter;
pub use iter::Keys;
pub use iter::Nodes;
pub use cursor::advance;
pub use cursor::advance_n;
pub use cursor::lemma_null_boundary_cycling;
pub use cursor::retreat;
pub use cursor::Cursor;
pub use cursor::CursorMut;
pub use list::head_of;
pub use list::link_after;
pub use list::link_before;
pub use list::pos_after;
pub use list::pos_before;
pub use list::tail_of;
pub use list::walk_next;
pub use list::walk_prev;
pub use list::KeyNodeList;
pub use node::ValueNode;
