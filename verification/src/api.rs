//! The types of the tree and the interfaces its context is assembled from.
//!
//! The interfaces speak of their implementations through spec functions such
//! as `parse` or `digest`. Each comes with a body that says nothing; an
//! implementation puts its own meaning in its place.

use crate::store::{MutableMap, StoreError};
use std::cmp::Ordering;
use std::sync::Arc;
use vstd::prelude::*;

verus! {

/// Turns bytes back into a value. `parse` says which value a buffer stands for.
pub trait Reader<T: View> {
    open spec fn parse(&self, buf: Seq<u8>) -> Option<T::V> {
        arbitrary()
    }

    /// The value that the buffer stands for, or an error where it stands for
    /// none.
    fn read(&self, buf: &[u8]) -> (r: Result<T, StoreError>)
        ensures
            match r {
                Ok(t) => self.parse(buf@) == Some(t@),
                Err(_) => self.parse(buf@) is None,
            },
    ;
}

/// Turns a value into bytes. The bytes depend on the value's view alone, so
/// equal values always give identical bytes.
pub trait Writer<T: View> {
    open spec fn bytes_of(&self, v: T::V) -> Seq<u8> {
        arbitrary()
    }

    /// The bytes of the value.
    fn write(&self, k: &T) -> (out: Vec<u8>)
        ensures
            out@ == self.bytes_of(k@),
    ;
}

/// A reader and a writer in one. They are meant to undo each other; where that
/// is needed it is asked for as [`NodeStore::round_trips`].
pub trait Marshaller<T: View>: Reader<T> + Writer<T> {

}

/// An incremental hash function. `absorbed` is the input taken in so far and
/// `digest` the function from a whole input to its hash.
pub trait Hasher {
    open spec fn absorbed(&self) -> Seq<u8> {
        arbitrary()
    }

    open spec fn digest(&self, data: Seq<u8>) -> Seq<u8> {
        arbitrary()
    }

    open spec fn output_len(&self) -> nat {
        arbitrary()
    }

    /// Takes in more input.
    fn input(&mut self, bytes: &[u8])
        ensures
            final(self).absorbed() == old(self).absorbed() + bytes@,
            final(self).output_len() == old(self).output_len(),
            forall|d: Seq<u8>| #[trigger] final(self).digest(d) == old(self).digest(d),
    ;

    /// The hash of all the input taken in.
    fn result(&self) -> (out: Vec<u8>)
        ensures
            out@ == self.digest(self.absorbed()),
            out@.len() == self.output_len(),
    ;

    /// How many bytes a hash has.
    fn output_size(&self) -> (n: usize)
        ensures
            n == self.output_len(),
    ;
}

/// A hasher that has taken in nothing yet, as a factory hands it out.
pub struct Digest {
    pub hasher: Box<dyn Hasher>,
}

/// Makes fresh hashers, all of them computing the same function `digest`.
pub trait DigestFactory {
    open spec fn digest(&self, data: Seq<u8>) -> Seq<u8> {
        arbitrary()
    }

    /// A hasher that has taken in nothing.
    fn new_digest(&self) -> (d: Digest)
        ensures
            d.hasher.absorbed() == Seq::<u8>::empty(),
            forall|data: Seq<u8>| #[trigger] d.hasher.digest(data) == self.digest(data),
    ;
}

/// Compares keys. `le` is the relation on the keys' views that the comparison
/// follows; the tree asks it to be a total order, so two keys compare equal
/// exactly when their views are the same.
pub trait Comparator<K: View> {
    open spec fn le(&self, a: K::V, b: K::V) -> bool {
        arbitrary()
    }

    /// Where `a` stands to `b` in the order.
    fn compare(&self, a: &K, b: &K) -> (o: Ordering)
        ensures
            match o {
                Ordering::Less => self.le(a@, b@) && a@ != b@,
                Ordering::Equal => a@ == b@,
                Ordering::Greater => !self.le(a@, b@) && a@ != b@,
            },
    ;
}

/// What the tree needs to do its work: how keys and values become canonical
/// bytes, how to hash, how to order keys, and where records are kept.
#[verifier::reject_recursive_types(K)]
#[verifier::reject_recursive_types(V)]
pub struct TreeContext<K: View, V: View> {
    pub key_to_canonical_bytes: Box<dyn Writer<K>>,
    pub value_to_canonical_bytes: Box<dyn Writer<V>>,
    pub new_digest: Box<dyn DigestFactory>,
    pub store: Option<Box<NodeStore<K, V>>>,
    pub comparator: Box<dyn Comparator<K>>,
}

/// Node records in a byte store, each under the hash of its node.
#[verifier::reject_recursive_types(K)]
#[verifier::reject_recursive_types(V)]
pub struct NodeStore<K: View, V: View> {
    pub store: Box<dyn MutableMap<Vec<u8>, Vec<u8>>>,
    pub key_marshaller: Box<dyn Marshaller<K>>,
    pub value_marshaller: Box<dyn Marshaller<V>>,
}

/// One entry with the height and the node count of the subtree below it.
#[derive(Clone)]
pub struct NodeData<K, V> {
    pub key: K,
    pub value: V,
    pub height: u32,
    pub rank: u64,
}

/// A node of the tree. It is never changed once it is built; `hash` is filled
/// in when the node is hashed.
#[derive(Clone)]
pub struct Node<K, V> {
    pub data: Arc<NodeData<K, V>>,
    pub left: NodeRef<K, V>,
    pub right: NodeRef<K, V>,
    pub hash: Option<Vec<u8>>,
}

impl<K, V> Node<K, V> {
    /// The reference to the left subtree.
    pub open spec fn left_ref(&self) -> NodeRef<K, V> {
        self.left
    }

    /// The reference to the right subtree.
    pub open spec fn right_ref(&self) -> NodeRef<K, V> {
        self.right
    }

    /// The node carries a hash.
    pub open spec fn is_hashed(&self) -> bool {
        self.hash is Some
    }

    /// The recorded height.
    pub open spec fn recorded_height(&self) -> nat {
        self.data.height as nat
    }
}

/// A subtree: known by its hash only, held in memory, or empty.
pub enum NodeRef<K, V> {
    HashRef(Vec<u8>),
    MemRef(Arc<Node<K, V>>),
    NoRef,
}

/// A node that is being edited: not yet part of any version.
pub struct EditNode<K, V> {
    pub key: K,
    pub value: V,
    pub left: EditNodeRef<K, V>,
    pub right: EditNodeRef<K, V>,
    pub height: i32,
    pub rank: i64,
}

/// A subtree of an edit: part of a version already, or still being edited.
pub enum EditNodeRef<K, V> {
    PersistentNodeRef(NodeRef<K, V>),
    EditNodeRef(Box<EditNode<K, V>>),
}

} // verus!
