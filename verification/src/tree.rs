//! The map: one version of the tree, as a root under a shared context.

use crate::api::{Node, NodeRef, TreeContext};
use crate::balance::{clone_keeps_view, insert};
use crate::find::find_node;
use crate::shape::Shape;
use crate::store::{PersistentMap, StoreError};
use std::sync::Arc;
use vstd::prelude::*;

verus! {

/// One version of the map. A version is never changed: writing gives a new
/// version that shares with this one what the write did not touch.
#[verifier::reject_recursive_types(K)]
#[verifier::reject_recursive_types(V)]
pub struct Tree<K: View, V: View> {
    ctx: Arc<TreeContext<K, V>>,
    root: NodeRef<K, V>,
}

/// The value at the root of a tree, if the tree has a root.
pub open spec fn root_value<K, V>(s: Shape<K, V>) -> Option<V> {
    match s {
        Shape::Fork { value, .. } => Some(value),
        _ => None,
    }
}

/// The view of a value that may be absent.
pub open spec fn view_of<V: View>(o: Option<V>) -> Option<V::V> {
    match o {
        Some(v) => Some(v@),
        None => None,
    }
}

impl<K: View, V: View> Tree<K, V> {
    /// The context that the version lives in.
    pub closed spec fn context(&self) -> TreeContext<K, V> {
        *self.ctx
    }

    /// The reference to the root.
    pub closed spec fn root_ref(&self) -> NodeRef<K, V> {
        self.root
    }

    /// The tree with every reference followed.
    pub open spec fn shape(&self) -> Shape<K::V, V::V> {
        self.context().shape_of(self.root_ref())
    }

    /// The entries in the order of their keys.
    pub open spec fn inorder(&self) -> Seq<(K::V, V::V)> {
        self.shape().inorder()
    }

    /// The map that the version stands for.
    pub open spec fn view(&self) -> Map<K::V, V::V> {
        crate::shape::entries(self.inorder())
    }

    /// The comparator is a total order and the tree is a balanced search
    /// tree under it, with every record it needs in the store.
    pub open spec fn well_formed(&self) -> bool {
        &&& vstd::relations::total_ordering(self.context().order())
        &&& self.shape().well_formed(self.context().order())
    }

    /// Nothing of the tree is known by its hash only.
    pub open spec fn resident(&self) -> bool {
        crate::resolve::resident(self.root_ref())
    }

    /// The tree is in memory and none of its nodes carries a hash yet.
    pub open spec fn fresh(&self) -> bool {
        crate::resolve::fresh(self.root_ref())
    }

    /// How many nodes of the version have no record in the store yet.
    pub open spec fn unsaved(&self) -> nat {
        crate::resolve::unsaved(self.root_ref(), self.context().records())
    }

    /// What the store holds once the version is serialized into it.
    pub open spec fn committed(&self) -> Map<Seq<u8>, Seq<u8>> {
        crate::hash_serialize::written(
            self.context().frame(),
            self.root_ref(),
            self.context().records(),
        )
    }

    /// Incremental persistence: where every node of `self` has its record and
    /// `next` is `self` with one more entry, serializing `next` keeps every
    /// record and adds four records at most and three more for each level of
    /// `self`. In a balanced tree the levels are few: two to the power of
    /// half their number is at most the node count and one.
    pub proof fn lemma_incremental(&self, next: Self)
        requires
            self.shape().balanced(),
            self.unsaved() == 0,
            next.context() == self.context(),
            next.unsaved() <= self.unsaved() + 3 * self.shape().height() + 4,
            self.context().records().dom().finite(),
        ensures
            self.context().records().dom().subset_of(next.committed().dom()),
            next.committed().dom().finite(),
            next.committed().dom().len() <= self.context().records().dom().len() + 3
                * self.shape().height() + 4,
            vstd::arithmetic::power2::pow2(self.shape().height() / 2) <= self.shape().rank() + 1,
    {
        crate::hash_serialize::lemma_written_few(
            next.context().frame(),
            next.root_ref(),
            next.context().records(),
        );
        crate::laws::lemma_height_bound(self.shape());
    }

    /// The hash of the version.
    pub open spec fn content_hash(&self) -> Seq<u8> {
        self.context().hash_of(self.root_ref())
    }

    /// The hash of a version that is a balanced search tree without hashes
    /// is the content hash of its tree: it depends on the entries and the
    /// shape alone.
    pub proof fn lemma_content_hash(&self)
        requires
            self.fresh(),
            self.shape().balanced(),
        ensures
            self.content_hash() == crate::hash_serialize::merkle(
                self.context().frame(),
                self.shape(),
            ),
    {
        crate::hash_serialize::lemma_fresh_sound(self.context().frame(), self.root_ref());
        crate::hash_serialize::lemma_balanced_whole(self.shape());
        self.context().lemma_hash_is_merkle(self.root_ref(), crate::resolve::top());
    }

    /// Idempotence: where `once` is `self` with an entry and `twice` is `once`
    /// with the same entry again, the two are the same tree with the same
    /// hash.
    pub proof fn lemma_idempotent(&self, once: Self, twice: Self, key: K::V, value: V::V)
        requires
            self.well_formed(),
            once.context().frame() == self.context().frame(),
            twice.context().frame() == self.context().frame(),
            once.context().order() == self.context().order(),
            self.shape().insert(self.context().order(), key, value) == Ok::<
                Shape<K::V, V::V>,
                StoreError,
            >(once.shape()),
            once.shape().insert(self.context().order(), key, value) == Ok::<
                Shape<K::V, V::V>,
                StoreError,
            >(twice.shape()),
            once.fresh(),
            twice.fresh(),
        ensures
            twice.shape() == once.shape(),
            twice.content_hash() == once.content_hash(),
    {
        let le = self.context().order();
        crate::laws::lemma_insert(self.shape(), le, key, value);
        crate::laws::lemma_insert_twice(self.shape(), le, key, value);
        once.lemma_content_hash();
        twice.lemma_content_hash();
    }

    /// Determinism: two versions that both come from inserting the same
    /// entries in the same order into nothing are the same tree with the same
    /// hash.
    pub proof fn lemma_replay(&self, other: Self, items: Seq<(K::V, V::V)>)
        requires
            vstd::relations::total_ordering(self.context().order()),
            other.context().frame() == self.context().frame(),
            other.context().order() == self.context().order(),
            crate::laws::insert_all(Shape::Empty, self.context().order(), items) == Ok::<
                Shape<K::V, V::V>,
                StoreError,
            >(self.shape()),
            crate::laws::insert_all(Shape::Empty, self.context().order(), items) == Ok::<
                Shape<K::V, V::V>,
                StoreError,
            >(other.shape()),
            items.len() <= u64::MAX,
            self.fresh(),
            other.fresh(),
        ensures
            other.shape() == self.shape(),
            other.content_hash() == self.content_hash(),
            self.well_formed(),
            self.inorder() == crate::laws::put_all(Seq::empty(), self.context().order(), items),
    {
        crate::laws::lemma_insert_all(
            Shape::<K::V, V::V>::Empty,
            self.context().order(),
            items,
        );
        self.lemma_content_hash();
        other.lemma_content_hash();
    }

    /// The empty map.
    pub fn new(ctx: Arc<TreeContext<K, V>>) -> (t: Self)
        ensures
            t.context() == *ctx,
            t.root_ref() is NoRef,
            t.shape() is Empty,
            t.fresh(),
    {
        Tree { ctx, root: NodeRef::NoRef }
    }

    /// The version with the given root.
    pub fn from_root(ctx: Arc<TreeContext<K, V>>, root: NodeRef<K, V>) -> (t: Self)
        ensures
            t.context() == *ctx,
            t.root_ref() == root,
    {
        Tree { ctx, root }
    }

    /// The reference to the root.
    pub fn root(&self) -> (r: &NodeRef<K, V>)
        ensures
            *r == self.root_ref(),
    {
        &self.root
    }

    /// The context that the version lives in.
    pub fn ctx(&self) -> (c: &Arc<TreeContext<K, V>>)
        ensures
            **c == self.context(),
    {
        &self.ctx
    }

    /// The root node, read from the store where the root is known by its
    /// hash only.
    pub fn root_node(&self) -> (r: Result<Option<Arc<Node<K, V>>>, StoreError>)
        ensures
            match r {
                Ok(n) => {
                    &&& self.shape() == self.context().opt_shape(n)
                    &&& self.resident() ==> crate::resolve::resident(crate::balance::ref_of(n))
                    &&& self.fresh() ==> crate::resolve::fresh(crate::balance::ref_of(n))
                    &&& crate::resolve::unsaved(crate::balance::ref_of(n), self.context().records())
                        <= self.unsaved()
                },
                Err(e) => {
                    ||| e is StorageError && self.context().store is Some && !self.resident()
                    ||| self.shape() == Shape::<K::V, V::V>::Fault(e)
                },
            },
    {
        self.root.get_node(&self.ctx)
    }

    /// The hash of the version, worked out without changing anything.
    pub fn hash(&self) -> (h: Vec<u8>)
        ensures
            h@ == self.content_hash(),
    {
        self.root.hash(&self.ctx)
    }

    /// Whether the map has a value under `key`.
    pub fn has(&self, key: &K) -> (r: Result<bool, StoreError>)
        ensures
            match r {
                Ok(found) => self.shape().find(self.context().order(), key@) matches Ok(s)
                    && found == (s is Fork),
                Err(e) => {
                    ||| e is StorageError && self.context().store is Some && !self.resident()
                    ||| self.shape().find(self.context().order(), key@) == Err::<
                        Shape<K::V, V::V>,
                        StoreError,
                    >(e)
                },
            },
            self.well_formed() ==> (r matches Ok(found) ==> found == self@.contains_key(key@)),
            self.well_formed() ==> (r matches Err(e) ==> e is StorageError),
    {
        proof {
            if self.well_formed() {
                crate::laws::lemma_find(self.shape(), self.context().order(), key@);
            }
        }
        match self.root_node()? {
            None => Ok(false),
            Some(node) => match find_node(&node, &self.ctx, key)? {
                None => Ok(false),
                Some(_) => Ok(true),
            },
        }
    }
}

impl<K: View, V: View + Clone> Tree<K, V> {
    /// The value under `key`, if the map has one.
    pub fn get(&self, key: &K) -> (r: Result<Option<V>, StoreError>)
        requires
            clone_keeps_view::<V>(),
        ensures
            match r {
                Ok(found) => self.shape().find(self.context().order(), key@) matches Ok(s)
                    && view_of(found) == root_value(s),
                Err(e) => {
                    ||| e is StorageError && self.context().store is Some && !self.resident()
                    ||| self.shape().find(self.context().order(), key@) == Err::<
                        Shape<K::V, V::V>,
                        StoreError,
                    >(e)
                },
            },
            self.well_formed() ==> (r matches Ok(found) ==> view_of(found) == (
            if self@.contains_key(key@) {
                Some(self@[key@])
            } else {
                None
            })),
            self.well_formed() ==> (r matches Err(e) ==> e is StorageError),
    {
        proof {
            if self.well_formed() {
                crate::laws::lemma_find(self.shape(), self.context().order(), key@);
            }
        }
        match self.root_node()? {
            None => Ok(None),
            Some(node) => match find_node(&node, &self.ctx, key)? {
                None => Ok(None),
                Some(n) => {
                    let v = n.data.value.clone();
                    assert(cloned(n.data.value, v));
                    Ok(Some(v))
                },
            },
        }
    }
}

impl<K: View + Clone, V: View + Clone> Tree<K, V> {
    /// The version with `value` under `key`. Nothing is written to the store.
    pub fn with(&self, key: &K, value: &V) -> (r: Result<Self, StoreError>)
        requires
            clone_keeps_view::<K>(),
            clone_keeps_view::<V>(),
        ensures
            match r {
                Ok(t) => {
                    &&& t.context() == self.context()
                    &&& self.shape().insert(self.context().order(), key@, value@) == Ok::<
                        Shape<K::V, V::V>,
                        StoreError,
                    >(t.shape())
                    &&& self.resident() ==> t.resident()
                    &&& self.fresh() ==> t.fresh()
                    &&& t.unsaved() <= self.unsaved() + 3 * self.shape().height() + 4
                },
                Err(e) => {
                    ||| e is StorageError && self.context().store is Some && !self.resident()
                    ||| self.shape().insert(self.context().order(), key@, value@) == Err::<
                        Shape<K::V, V::V>,
                        StoreError,
                    >(e)
                },
            },
            self.well_formed() ==> (r matches Ok(t) ==> t.well_formed() && t@ == self@.insert(
                key@,
                value@,
            )),
            self.well_formed() ==> (r matches Err(e) ==> e is StorageError || (e
                == StoreError::InvariantViolation && self.shape().rank() == u64::MAX
                && !self@.contains_key(key@))),
    {
        proof {
            if self.well_formed() {
                crate::laws::lemma_insert_map(self.shape(), self.context().order(), key@, value@);
            }
        }
        let node = self.root_node()?;
        let n = insert(node, &self.ctx, key, value)?;
        Ok(Tree { ctx: crate::balance::share(&self.ctx), root: NodeRef::MemRef(n) })
    }

    /// The version without `key`. Nothing is written to the store.
    pub fn without(&self, key: &K) -> (r: Result<Self, StoreError>)
        requires
            clone_keeps_view::<K>(),
            clone_keeps_view::<V>(),
        ensures
            match r {
                Ok(t) => {
                    &&& t.context() == self.context()
                    &&& self.shape().remove(self.context().order(), key@) == Ok::<
                        Shape<K::V, V::V>,
                        StoreError,
                    >(t.shape())
                    &&& self.resident() ==> t.resident()
                    &&& self.fresh() ==> t.fresh()
                },
                Err(e) => {
                    ||| e is StorageError && self.context().store is Some && !self.resident()
                    ||| self.shape().remove(self.context().order(), key@) == Err::<
                        Shape<K::V, V::V>,
                        StoreError,
                    >(e)
                },
            },
            self.well_formed() ==> (r matches Ok(t) ==> t.well_formed() && t@ == self@.remove(key@)),
            self.well_formed() ==> (r matches Err(e) ==> e is StorageError),
    {
        proof {
            if self.well_formed() {
                crate::laws::lemma_remove(self.shape(), self.context().order(), key@);
            }
        }
        let node = self.root_node()?;
        let rest = crate::remove::remove(node, &self.ctx, key)?;
        Ok(
            Tree {
                ctx: crate::balance::share(&self.ctx),
                root: crate::balance::make_node_ref(rest),
            },
        )
    }
}

impl<K: View + Clone, V: View + Clone> PersistentMap<K, V> for Tree<K, V> {
    open spec fn contents(&self) -> Map<K::V, V::V> {
        self@
    }

    open spec fn valid(&self) -> bool {
        self.well_formed() && clone_keeps_view::<K>() && clone_keeps_view::<V>()
    }

    /// The version with `value` under `key`, as [`Tree::with`] makes it. It
    /// is there unless the store fails while a part of the tree is read from
    /// it, or the tree is full: a new key would take the node count past 64
    /// bits.
    fn with(&self, key: &K, value: &V) -> (r: Result<Self, StoreError>)
        ensures
            match r {
                Ok(t) => {
                    &&& t.context() == self.context()
                    &&& self.shape().insert(self.context().order(), key@, value@) == Ok::<
                        Shape<K::V, V::V>,
                        StoreError,
                    >(t.shape())
                    &&& t.inorder() == crate::shape::put(
                        self.inorder(),
                        self.context().order(),
                        key@,
                        value@,
                    )
                    &&& self.resident() ==> t.resident()
                    &&& self.fresh() ==> t.fresh()
                    &&& t.unsaved() <= self.unsaved() + 3 * self.shape().height() + 4
                },
                Err(e) => {
                    ||| e is StorageError && self.context().store is Some && !self.resident()
                    ||| e == StoreError::InvariantViolation && self.shape().rank() == u64::MAX
                        && !self@.contains_key(key@)
                },
            },
    {
        proof {
            crate::laws::lemma_insert(self.shape(), self.context().order(), key@, value@);
            crate::laws::lemma_insert_map(self.shape(), self.context().order(), key@, value@);
        }
        Tree::with(self, key, value)
    }

    /// The version without `key`, as [`Tree::without`] makes it. It is there
    /// unless the store fails while a part of the tree is read from it.
    fn without(&self, key: &K) -> (r: Result<Self, StoreError>)
        ensures
            match r {
                Ok(t) => {
                    &&& t.context() == self.context()
                    &&& self.shape().remove(self.context().order(), key@) == Ok::<
                        Shape<K::V, V::V>,
                        StoreError,
                    >(t.shape())
                    &&& t.inorder() == crate::shape::cut(self.inorder(), key@)
                    &&& self.resident() ==> t.resident()
                    &&& self.fresh() ==> t.fresh()
                },
                Err(e) => e is StorageError && self.context().store is Some && !self.resident(),
            },
    {
        proof {
            crate::laws::lemma_remove(self.shape(), self.context().order(), key@);
        }
        Tree::without(self, key)
    }
}

} // verus!
