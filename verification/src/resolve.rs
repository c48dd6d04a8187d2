//! From references to the model: what a subtree is once every reference in it
//! has been followed through the context's store.

use crate::api::{Node, NodeRef, NodeStore, TreeContext};
use crate::shape::Shape;
use crate::store::StoreError;
use std::sync::Arc;
use vstd::prelude::*;

verus! {

/// What the store holds for a hash.
pub enum Stored<K, V> {
    /// No record under the hash.
    Absent,
    /// Bytes that are no record, or a key or value that the marshaller rejects.
    Corrupt,
    /// A record, with its key and value read back.
    Record { key: K, value: V, height: u32, rank: u64, left: Seq<u8>, right: Seq<u8> },
}

/// The store key of a node's record: the prefix byte, then the node's hash.
pub open spec fn node_key(hash: Seq<u8>) -> Seq<u8> {
    seq![crate::hash_serialize::NODE_HASH_NODE_PREFIX] + hash
}

/// Above every height a node can record.
pub open spec fn top() -> nat {
    0x1_0000_0000
}

impl<K: View, V: View> NodeStore<K, V> {
    /// What the store holds for `hash`.
    pub open spec fn stored(&self, hash: Seq<u8>) -> Stored<K::V, V::V> {
        let raw = self.store.contents();
        if !raw.contains_key(node_key(hash)) {
            Stored::Absent
        } else {
            match crate::codec::decoding(raw[node_key(hash)]) {
                None => Stored::Corrupt,
                Some(rec) => match (
                    self.key_marshaller.parse(rec.key),
                    self.value_marshaller.parse(rec.value),
                ) {
                    (Some(key), Some(value)) => Stored::Record {
                        key,
                        value,
                        height: rec.height,
                        rank: rec.rank,
                        left: rec.left,
                        right: rec.right,
                    },
                    _ => Stored::Corrupt,
                },
            }
        }
    }
}

/// The reference `r` stands for the stored child hash `h`: no reference for the
/// empty hash, else a reference by that hash.
pub open spec fn ref_is<K, V>(r: NodeRef<K, V>, h: Seq<u8>) -> bool {
    if h.len() == 0 {
        r is NoRef
    } else {
        r matches NodeRef::HashRef(v) && v@ == h
    }
}

/// The node `n` is the record `st` as it is read from under `hash`.
pub open spec fn node_is<K: View, V: View>(
    n: Node<K, V>,
    st: Stored<K::V, V::V>,
    hash: Seq<u8>,
) -> bool {
    &&& st is Record
    &&& n.data.key@ == st->key
    &&& n.data.value@ == st->value
    &&& n.data.height == st->height
    &&& n.data.rank == st->rank
    &&& ref_is(n.left, st->left)
    &&& ref_is(n.right, st->right)
    &&& if hash.len() == 0 {
        n.hash is None
    } else {
        n.hash matches Some(h) && h@ == hash
    }
}

impl<K: View, V: View> TreeContext<K, V> {
    /// The order that the comparator follows.
    pub open spec fn order(&self) -> spec_fn(K::V, K::V) -> bool {
        |a: K::V, b: K::V| self.comparator.le(a, b)
    }

    /// The subtree under the hash `h`, below a node of height `bound`. A record
    /// that is missing counts as no subtree. A node as high as `bound` or
    /// higher breaks the tree's invariant.
    pub open spec fn resolve_hash(&self, h: Seq<u8>, bound: nat) -> Shape<K::V, V::V>
        decreases bound, 0nat,
    {
        match self.store {
            None => Shape::Fault(StoreError::MissingStore),
            Some(ns) => match ns.stored(h) {
                Stored::Absent => Shape::Empty,
                Stored::Corrupt => Shape::Fault(StoreError::EncodingError),
                Stored::Record { key, value, height, rank, left, right } => {
                    if height >= bound {
                        Shape::Fault(StoreError::InvariantViolation)
                    } else {
                        Shape::Fork {
                            left: Box::new(self.resolve_child(left, height as nat)),
                            key,
                            value,
                            height,
                            rank,
                            right: Box::new(self.resolve_child(right, height as nat)),
                        }
                    }
                },
            },
        }
    }

    /// The subtree that a stored child hash stands for: none for the empty hash.
    pub open spec fn resolve_child(&self, h: Seq<u8>, bound: nat) -> Shape<K::V, V::V>
        decreases bound, 1nat,
    {
        if h.len() == 0 {
            Shape::Empty
        } else {
            self.resolve_hash(h, bound)
        }
    }

    /// The subtree that `r` stands for, below a node of height `bound`.
    pub open spec fn resolve(&self, r: NodeRef<K, V>, bound: nat) -> Shape<K::V, V::V>
        decreases bound,
    {
        match r {
            NodeRef::NoRef => Shape::Empty,
            NodeRef::HashRef(h) => self.resolve_hash(h@, bound),
            NodeRef::MemRef(n) => {
                if n.data.height >= bound {
                    Shape::Fault(StoreError::InvariantViolation)
                } else {
                    Shape::Fork {
                        left: Box::new(self.resolve(n.left, n.data.height as nat)),
                        key: n.data.key@,
                        value: n.data.value@,
                        height: n.data.height,
                        rank: n.data.rank,
                        right: Box::new(self.resolve(n.right, n.data.height as nat)),
                    }
                }
            },
        }
    }

    /// The tree that `r` stands for.
    pub open spec fn shape_of(&self, r: NodeRef<K, V>) -> Shape<K::V, V::V> {
        self.resolve(r, top())
    }

    /// The tree below the node `n`.
    pub open spec fn node_shape(&self, n: Node<K, V>) -> Shape<K::V, V::V> {
        Shape::Fork {
            left: Box::new(self.resolve(n.left, n.data.height as nat)),
            key: n.data.key@,
            value: n.data.value@,
            height: n.data.height,
            rank: n.data.rank,
            right: Box::new(self.resolve(n.right, n.data.height as nat)),
        }
    }

    /// The tree below a node that may be absent.
    pub open spec fn opt_shape(&self, n: Option<Arc<Node<K, V>>>) -> Shape<K::V, V::V> {
        match n {
            None => Shape::Empty,
            Some(n) => self.node_shape(*n),
        }
    }

    /// From below a node of height `bound`, a subtree is what it is from the
    /// top, unless its root is too high.
    pub proof fn lemma_resolve_below(&self, r: NodeRef<K, V>, bound: nat)
        ensures
            self.resolve(r, bound) == self.shape_of(r).below(bound),
    {
        match r {
            NodeRef::HashRef(h) => {
                assert(self.resolve_hash(h@, bound) == self.resolve_hash(h@, top()).below(bound));
            },
            _ => {},
        }
    }
}

/// Nothing below `r` is known by its hash only: the whole subtree is in memory.
pub open spec fn resident<K, V>(r: NodeRef<K, V>) -> bool
    decreases r,
{
    match r {
        NodeRef::NoRef => true,
        NodeRef::HashRef(_) => false,
        NodeRef::MemRef(n) => resident(n.left) && resident(n.right),
    }
}

/// The whole subtree is in memory and none of its nodes carries a hash yet.
pub open spec fn fresh<K, V>(r: NodeRef<K, V>) -> bool
    decreases r,
{
    match r {
        NodeRef::NoRef => true,
        NodeRef::HashRef(_) => false,
        NodeRef::MemRef(n) => n.hash is None && fresh(n.left) && fresh(n.right),
    }
}

/// How many nodes of the subtree have no record in the store contents `s`
/// yet: the nodes in memory but for those that carry a hash with a record. A
/// reference by the empty hash counts as one such node.
pub open spec fn unsaved<K, V>(r: NodeRef<K, V>, s: Map<Seq<u8>, Seq<u8>>) -> nat
    decreases r,
{
    match r {
        NodeRef::NoRef => 0,
        NodeRef::HashRef(h) => if h@.len() == 0 {
            1
        } else {
            0
        },
        NodeRef::MemRef(n) => (if n.hash matches Some(h) && s.contains_key(node_key(h@)) {
            0nat
        } else {
            1nat
        }) + unsaved(n.left, s) + unsaved(n.right, s),
    }
}

} // verus!
