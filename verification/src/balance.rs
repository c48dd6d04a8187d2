//! The balance engine: insertion and rotation. Every step builds new nodes and
//! leaves the existing ones as they are.

use crate::api::{Node, NodeData, NodeRef, NodeStore, TreeContext};
use crate::shape::Shape;
use crate::store::StoreError;
use std::cmp::Ordering;
use std::sync::Arc;
use vstd::prelude::*;

verus! {

/// `Arc::clone`: a second handle to the same value.
#[verifier::external_body]
pub(crate) fn share<T>(a: &Arc<T>) -> (r: Arc<T>)
    ensures
        r == *a,
{
    Arc::clone(a)
}

/// A clone of a `T` has the view of what was cloned.
pub open spec fn clone_keeps_view<T: View + Clone>() -> bool {
    forall|a: T, b: T| #[trigger] cloned(a, b) ==> a@ == b@
}

/// Two references to the same subtree: the same node in memory, or the same hash.
pub open spec fn same_ref<K, V>(a: NodeRef<K, V>, b: NodeRef<K, V>) -> bool {
    match a {
        NodeRef::HashRef(h) => b matches NodeRef::HashRef(g) && g@ == h@,
        NodeRef::MemRef(n) => b == a,
        NodeRef::NoRef => b is NoRef,
    }
}

impl<K, V> Clone for NodeRef<K, V> {
    fn clone(&self) -> (r: Self)
        ensures
            same_ref(*self, r),
    {
        match self {
            NodeRef::HashRef(h) => NodeRef::HashRef(h.clone()),
            NodeRef::MemRef(n) => NodeRef::MemRef(share(n)),
            NodeRef::NoRef => NodeRef::NoRef,
        }
    }
}

impl<K: View, V: View> TreeContext<K, V> {
    /// The store of the context; `MissingStore` where it has none.
    pub fn get_store(&self) -> (r: Result<&NodeStore<K, V>, StoreError>)
        ensures
            match r {
                Ok(s) => self.store matches Some(b) && *b == *s,
                Err(e) => self.store is None && e == StoreError::MissingStore,
            },
    {
        match &self.store {
            None => Err(StoreError::MissingStore),
            Some(store) => Ok(&**store),
        }
    }

    /// The store of the context, to write to; `MissingStore` where it has none.
    pub fn get_store_mut(&mut self) -> (r: Result<&mut NodeStore<K, V>, StoreError>)
        ensures
            match r {
                Ok(s) => {
                    &&& old(self).store matches Some(b) && *b == *s
                    &&& final(self).store matches Some(b) && *b == *final(s)
                    &&& final(self).key_to_canonical_bytes == old(self).key_to_canonical_bytes
                    &&& final(self).value_to_canonical_bytes == old(
                        self,
                    ).value_to_canonical_bytes
                    &&& final(self).new_digest == old(self).new_digest
                    &&& final(self).comparator == old(self).comparator
                },
                Err(e) => {
                    &&& old(self).store is None
                    &&& e == StoreError::MissingStore
                    &&& *final(self) == *old(self)
                },
            },
    {
        match &mut self.store {
            None => Err(StoreError::MissingStore),
            Some(store) => Ok(&mut **store),
        }
    }

    /// Two references to the same subtree stand for the same tree.
    pub proof fn lemma_same_ref(&self, a: NodeRef<K, V>, b: NodeRef<K, V>, bound: nat)
        requires
            same_ref(a, b),
        ensures
            self.resolve(a, bound) == self.resolve(b, bound),
            crate::resolve::resident(a) == crate::resolve::resident(b),
            crate::resolve::fresh(a) == crate::resolve::fresh(b),
            forall|s: Map<Seq<u8>, Seq<u8>>|
                #[trigger] crate::resolve::unsaved(a, s) == crate::resolve::unsaved(b, s),
            crate::hash_serialize::link_hash(a) == crate::hash_serialize::link_hash(b),
    {
    }
}

impl<K: View, V: View> NodeRef<K, V> {
    /// The node that the reference stands for, if it stands for one. A
    /// reference by hash is read from the store; a hash without a record stands
    /// for no node.
    pub fn get_node(&self, ctx: &TreeContext<K, V>) -> (r: Result<
        Option<Arc<Node<K, V>>>,
        StoreError,
    >)
        ensures
            match r {
                Ok(None) => match *self {
                    NodeRef::NoRef => true,
                    NodeRef::HashRef(h) => ctx.store matches Some(ns) && ns.stored(h@) is Absent,
                    NodeRef::MemRef(_) => false,
                },
                Ok(Some(n)) => match *self {
                    NodeRef::NoRef => false,
                    NodeRef::HashRef(h) => ctx.store matches Some(ns) && crate::resolve::node_is(
                        *n,
                        ns.stored(h@),
                        h@,
                    ),
                    NodeRef::MemRef(m) => n == m,
                },
                Err(e) => self matches NodeRef::HashRef(h) && match ctx.store {
                    None => e == StoreError::MissingStore,
                    Some(ns) => e is StorageError || (e == StoreError::EncodingError && ns.stored(
                        h@,
                    ) is Corrupt),
                },
            },
            r matches Ok(Some(n)) ==> crate::resolve::unsaved(NodeRef::MemRef(n), ctx.records())
                <= crate::resolve::unsaved(*self, ctx.records()),
    {
        match self {
            NodeRef::HashRef(h) => {
                let store = ctx.get_store()?;
                match store.get(h)? {
                    None => Ok(None),
                    Some(node) => {
                        proof {
                            let s = ctx.records();
                            assert(crate::resolve::unsaved(node.left, s) == 0
                                && crate::resolve::unsaved(node.right, s) == 0);
                            assert(h@.len() > 0 ==> node.hash is Some && s.contains_key(
                                crate::resolve::node_key(node.hash->0@),
                            ));
                        }
                        Ok(Some(Arc::new(node)))
                    },
                }
            },
            NodeRef::MemRef(node) => Ok(Some(share(node))),
            NodeRef::NoRef => Ok(None),
        }
    }

    /// The node that the reference stands for, as the child of a node of
    /// height `bound`. A child that is not lower than its parent is an
    /// `InvariantViolation`.
    pub fn get_child(&self, ctx: &TreeContext<K, V>, bound: u32) -> (r: Result<
        Option<Arc<Node<K, V>>>,
        StoreError,
    >)
        ensures
            match r {
                Ok(None) => ctx.resolve(*self, bound as nat) is Empty,
                Ok(Some(n)) => {
                    &&& ctx.resolve(*self, bound as nat) == ctx.node_shape(*n)
                    &&& n.data.height < bound
                    &&& crate::resolve::resident(*self) ==> crate::resolve::resident(
                        NodeRef::MemRef(n),
                    )
                    &&& crate::resolve::fresh(*self) ==> crate::resolve::fresh(NodeRef::MemRef(n))
                    &&& crate::resolve::unsaved(NodeRef::MemRef(n), ctx.records())
                        <= crate::resolve::unsaved(*self, ctx.records())
                },
                Err(e) => {
                    ||| e is StorageError && self is HashRef && ctx.store is Some
                    ||| ctx.resolve(*self, bound as nat) == Shape::<K::V, V::V>::Fault(e)
                },
            },
    {
        match self.get_node(ctx)? {
            None => Ok(None),
            Some(n) => {
                if n.data.height >= bound {
                    Err(StoreError::InvariantViolation)
                } else {
                    Ok(Some(n))
                }
            },
        }
    }
}

/// The recorded height of a node; no node counts as 0.
pub fn node_height<K, V>(node: &Option<Arc<Node<K, V>>>) -> (h: u32)
    ensures
        h == match *node {
            None => 0,
            Some(n) => n.data.height,
        },
{
    match node {
        None => 0,
        Some(node) => node.data.height,
    }
}

/// The recorded node count below a node; no node counts as 0.
pub fn node_rank<K, V>(node: &Option<Arc<Node<K, V>>>) -> (n: u64)
    ensures
        n == match *node {
            None => 0,
            Some(m) => m.data.rank,
        },
{
    match node {
        None => 0,
        Some(node) => node.data.rank,
    }
}

/// The reference to a node in memory; no reference for no node.
pub fn make_node_ref<K, V>(node: Option<Arc<Node<K, V>>>) -> (r: NodeRef<K, V>)
    ensures
        r == match node {
            None => NodeRef::<K, V>::NoRef,
            Some(n) => NodeRef::MemRef(n),
        },
{
    match node {
        None => NodeRef::NoRef,
        Some(node) => NodeRef::MemRef(node),
    }
}

/// A new node over two subtrees, one higher than the higher of them and
/// counting their nodes and itself. It is an `InvariantViolation` where the
/// height no longer fits 32 bits or the count 64.
pub fn make_node<K: Clone + View, V: Clone + View>(
    key: &K,
    value: &V,
    left: Option<Arc<Node<K, V>>>,
    right: Option<Arc<Node<K, V>>>,
) -> (r: Result<Arc<Node<K, V>>, StoreError>)
    requires
        clone_keeps_view::<K>(),
        clone_keeps_view::<V>(),
    ensures
        match r {
            Ok(n) => {
                &&& n.data.key@ == key@
                &&& n.data.value@ == value@
                &&& n.data.height == 1 + crate::shape::max_nat(
                    crate::balance::height_of(left),
                    crate::balance::height_of(right),
                )
                &&& n.data.rank == crate::balance::rank_of(left) + crate::balance::rank_of(right)
                    + 1
                &&& n.left == crate::balance::ref_of(left)
                &&& n.right == crate::balance::ref_of(right)
                &&& n.hash is None
            },
            Err(e) => {
                &&& e == StoreError::InvariantViolation
                &&& (1 + crate::shape::max_nat(
                    crate::balance::height_of(left),
                    crate::balance::height_of(right),
                ) > u32::MAX || crate::balance::rank_of(left) + crate::balance::rank_of(right)
                    + 1 > u64::MAX)
            },
        },
{
    let lh = node_height(&left);
    let rh = node_height(&right);
    let high = if lh >= rh {
        lh
    } else {
        rh
    };
    let lr = node_rank(&left);
    let rr = node_rank(&right);
    if high == u32::MAX || lr > u64::MAX - rr || lr + rr == u64::MAX {
        return Err(StoreError::InvariantViolation);
    }
    let k = key.clone();
    let v = value.clone();
    assert(cloned(*key, k) && cloned(*value, v));
    Ok(
        Arc::new(
            Node {
                data: Arc::new(NodeData { key: k, value: v, height: high + 1, rank: lr + rr + 1 }),
                left: make_node_ref(left),
                right: make_node_ref(right),
                hash: None,
            },
        ),
    )
}

/// The recorded height of a node that may be absent.
pub open spec fn height_of<K, V>(node: Option<Arc<Node<K, V>>>) -> nat {
    match node {
        None => 0,
        Some(n) => n.data.height as nat,
    }
}

/// How far down a tree may reach at most: one more than the recorded height
/// of its root, and 0 for no tree.
pub open spec fn depth_of<K, V>(node: Option<Arc<Node<K, V>>>) -> nat {
    match node {
        None => 0,
        Some(n) => n.data.height as nat + 1,
    }
}

/// The recorded node count of a node that may be absent.
pub open spec fn rank_of<K, V>(node: Option<Arc<Node<K, V>>>) -> nat {
    match node {
        None => 0,
        Some(n) => n.data.rank as nat,
    }
}

/// The reference to a node that may be absent.
pub open spec fn ref_of<K, V>(node: Option<Arc<Node<K, V>>>) -> NodeRef<K, V> {
    match node {
        None => NodeRef::NoRef,
        Some(n) => NodeRef::MemRef(n),
    }
}

/// Everything below the node `n` is in memory.
pub open spec fn node_resident<K, V>(n: Node<K, V>) -> bool {
    crate::resolve::resident(n.left) && crate::resolve::resident(n.right)
}

/// A node built over two nodes, with the height and rank that follow from
/// theirs, stands for the join of their trees.
pub proof fn lemma_join_shape<K: View, V: View>(
    ctx: &TreeContext<K, V>,
    n: Arc<Node<K, V>>,
    left: Option<Arc<Node<K, V>>>,
    right: Option<Arc<Node<K, V>>>,
)
    requires
        n.left == ref_of(left),
        n.right == ref_of(right),
        n.data.height == 1 + crate::shape::max_nat(height_of(left), height_of(right)),
        n.data.rank == rank_of(left) + rank_of(right) + 1,
    ensures
        Shape::join(ctx.opt_shape(left), n.data.key@, n.data.value@, ctx.opt_shape(right)) == Ok::<
            Shape<K::V, V::V>,
            StoreError,
        >(ctx.node_shape(*n)),
        node_resident(*n) == (crate::resolve::resident(ref_of(left)) && crate::resolve::resident(
            ref_of(right),
        )),
{
}

/// Where two nodes are too high or hold too many nodes for a node over them,
/// so are their trees for a join.
pub proof fn lemma_join_fails<K: View, V: View>(
    ctx: &TreeContext<K, V>,
    key: K::V,
    value: V::V,
    left: Option<Arc<Node<K, V>>>,
    right: Option<Arc<Node<K, V>>>,
)
    requires
        1 + crate::shape::max_nat(height_of(left), height_of(right)) > u32::MAX || rank_of(left)
            + rank_of(right) + 1 > u64::MAX,
    ensures
        Shape::join(ctx.opt_shape(left), key, value, ctx.opt_shape(right)) == Err::<
            Shape<K::V, V::V>,
            StoreError,
        >(StoreError::InvariantViolation),
{
}

/// A new node over two nodes, as [`make_node`] builds it: it stands for the
/// join of their trees, and fails where that join fails.
pub fn join_nodes<K: Clone + View, V: Clone + View>(
    ctx: &TreeContext<K, V>,
    key: &K,
    value: &V,
    left: Option<Arc<Node<K, V>>>,
    right: Option<Arc<Node<K, V>>>,
) -> (r: Result<Arc<Node<K, V>>, StoreError>)
    requires
        clone_keeps_view::<K>(),
        clone_keeps_view::<V>(),
    ensures
        match r {
            Ok(n) => {
                &&& Shape::join(ctx.opt_shape(left), key@, value@, ctx.opt_shape(right)) == Ok::<
                    Shape<K::V, V::V>,
                    StoreError,
                >(ctx.node_shape(*n))
                &&& n.hash is None
                &&& n.left == ref_of(left)
                &&& n.right == ref_of(right)
                &&& node_resident(*n) == (crate::resolve::resident(ref_of(left))
                    && crate::resolve::resident(ref_of(right)))
                &&& crate::resolve::fresh(NodeRef::MemRef(n)) == (crate::resolve::fresh(ref_of(left))
                    && crate::resolve::fresh(ref_of(right)))
                &&& crate::resolve::unsaved(NodeRef::MemRef(n), ctx.records()) == 1
                    + crate::resolve::unsaved(ref_of(left), ctx.records())
                    + crate::resolve::unsaved(ref_of(right), ctx.records())
            },
            Err(e) => Shape::join(ctx.opt_shape(left), key@, value@, ctx.opt_shape(right)) == Err::<
                Shape<K::V, V::V>,
                StoreError,
            >(e),
        },
{
    let ghost gl = left;
    let ghost gr = right;
    let r = make_node(key, value, left, right);
    proof {
        let ghost made = r;
        match made {
            Ok(n) => lemma_join_shape(ctx, n, gl, gr),
            Err(_) => lemma_join_fails(ctx, key@, value@, gl, gr),
        }
    }
    r
}

impl<K: Clone + View, V: Clone + View> Node<K, V> {
    /// How much higher the left subtree is than the right one.
    pub fn balance_factor(&self, ctx: &TreeContext<K, V>) -> (r: Result<i64, StoreError>)
        ensures
            match r {
                Ok(d) => {
                    &&& crate::shape::first_flaw(
                        ctx.resolve(self.left, self.data.height as nat),
                        ctx.resolve(self.right, self.data.height as nat),
                    ) is None
                    &&& d == ctx.resolve(self.left, self.data.height as nat).height() - ctx.resolve(
                        self.right,
                        self.data.height as nat,
                    ).height()
                },
                Err(e) => {
                    ||| e is StorageError && ctx.store is Some && !node_resident(*self)
                    ||| crate::shape::first_flaw(
                        ctx.resolve(self.left, self.data.height as nat),
                        ctx.resolve(self.right, self.data.height as nat),
                    ) == Some(e)
                },
            },
    {
        let left = self.left.get_child(ctx, self.data.height)?;
        let right = self.right.get_child(ctx, self.data.height)?;
        Ok(node_height(&left) as i64 - node_height(&right) as i64)
    }

    /// The node with `v` as its value: same key, same children, same height
    /// and rank, and no hash yet.
    pub fn update_value(&self, v: &V) -> (r: Self)
        requires
            clone_keeps_view::<K>(),
            clone_keeps_view::<V>(),
        ensures
            r.data.key@ == self.data.key@,
            r.data.value@ == v@,
            r.data.height == self.data.height,
            r.data.rank == self.data.rank,
            same_ref(self.left, r.left),
            same_ref(self.right, r.right),
            r.hash is None,
    {
        let k = self.data.key.clone();
        let value = v.clone();
        assert(cloned(self.data.key, k) && cloned(*v, value));
        Node {
            data: Arc::new(
                NodeData { key: k, value, height: self.data.height, rank: self.data.rank },
            ),
            left: self.left.clone(),
            right: self.right.clone(),
            hash: None,
        }
    }

    /// The node rebuilt so that its two sides differ in height by one at
    /// most: by one rotation, single or double, where one side is two higher
    /// than the other, and else as it is, with height and rank computed anew.
    /// The node itself is left as it was.
    pub fn balance(&self, ctx: &TreeContext<K, V>) -> (r: Result<Arc<Self>, StoreError>)
        requires
            clone_keeps_view::<K>(),
            clone_keeps_view::<V>(),
        ensures
            match r {
                Ok(n) => {
                    &&& ctx.node_shape(*self).balance() == Ok::<Shape<K::V, V::V>, StoreError>(
                        ctx.node_shape(*n),
                    )
                    &&& n.hash is None
                    &&& node_resident(*self) ==> node_resident(*n)
                    &&& crate::resolve::fresh(self.left) && crate::resolve::fresh(self.right)
                        ==> crate::resolve::fresh(NodeRef::MemRef(n))
                    &&& crate::resolve::unsaved(NodeRef::MemRef(n), ctx.records()) <= 3
                        + crate::resolve::unsaved(self.left, ctx.records())
                        + crate::resolve::unsaved(self.right, ctx.records())
                },
                Err(e) => {
                    ||| e is StorageError && ctx.store is Some && !node_resident(*self)
                    ||| ctx.node_shape(*self).balance() == Err::<Shape<K::V, V::V>, StoreError>(e)
                },
            },
    {
        let left = self.left.get_child(ctx, self.data.height)?;
        let right = self.right.get_child(ctx, self.data.height)?;
        let left_height = node_height(&left);
        let right_height = node_height(&right);
        let data = &self.data;
        if left_height >= 2 && left_height - 2 == right_height {
            match left {
                None => Err(StoreError::InvariantViolation),
                Some(l) => rotate_right(ctx, &l, &data.key, &data.value, right),
            }
        } else if right_height >= 2 && right_height - 2 == left_height {
            match right {
                None => Err(StoreError::InvariantViolation),
                Some(r) => rotate_left(ctx, left, &data.key, &data.value, &r),
            }
        } else {
            join_nodes(ctx, &data.key, &data.value, left, right)
        }
    }
}

/// The rotation for a left subtree `l` that is two higher than `right`: `l`'s
/// root is lifted over the entry `key`, `value`, or, where `l` leans to the
/// right, the root of `l`'s right subtree is.
pub fn rotate_right<K: Clone + View, V: Clone + View>(
    ctx: &TreeContext<K, V>,
    l: &Arc<Node<K, V>>,
    key: &K,
    value: &V,
    right: Option<Arc<Node<K, V>>>,
) -> (r: Result<Arc<Node<K, V>>, StoreError>)
    requires
        clone_keeps_view::<K>(),
        clone_keeps_view::<V>(),
    ensures
        match r {
            Ok(n) => {
                &&& Shape::rotate_right(ctx.node_shape(**l), key@, value@, ctx.opt_shape(right))
                    == Ok::<Shape<K::V, V::V>, StoreError>(ctx.node_shape(*n))
                &&& n.hash is None
                &&& node_resident(**l) && crate::resolve::resident(ref_of(right))
                    ==> node_resident(*n)
                &&& crate::resolve::fresh(l.left) && crate::resolve::fresh(l.right)
                    && crate::resolve::fresh(ref_of(right)) ==> crate::resolve::fresh(
                    NodeRef::MemRef(n),
                )
                &&& crate::resolve::unsaved(NodeRef::MemRef(n), ctx.records()) <= 3
                    + crate::resolve::unsaved(l.left, ctx.records()) + crate::resolve::unsaved(
                    l.right,
                    ctx.records(),
                ) + crate::resolve::unsaved(ref_of(right), ctx.records())
            },
            Err(e) => {
                ||| e is StorageError && ctx.store is Some && !node_resident(**l)
                ||| Shape::rotate_right(ctx.node_shape(**l), key@, value@, ctx.opt_shape(right))
                    == Err::<Shape<K::V, V::V>, StoreError>(e)
            },
        },
{
    let lean = l.balance_factor(ctx)?;
    let ll = l.left.get_child(ctx, l.data.height)?;
    let lr = l.right.get_child(ctx, l.data.height)?;
    let l_data = &l.data;
    if lean >= 0 {
        let inner = join_nodes(ctx, key, value, lr, right)?;
        join_nodes(ctx, &l_data.key, &l_data.value, ll, Some(inner))
    } else {
        lift_middle(ctx, ll, &l_data.key, &l_data.value, lr, key, value, right)
    }
}

/// The double rotation: the root of `mid` is lifted over the entry before it,
/// which keeps `a` and the left part of `mid`, and the entry after it, which
/// keeps the right part of `mid` and `d`.
pub fn lift_middle<K: Clone + View, V: Clone + View>(
    ctx: &TreeContext<K, V>,
    a: Option<Arc<Node<K, V>>>,
    first_key: &K,
    first_value: &V,
    mid: Option<Arc<Node<K, V>>>,
    last_key: &K,
    last_value: &V,
    d: Option<Arc<Node<K, V>>>,
) -> (r: Result<Arc<Node<K, V>>, StoreError>)
    requires
        clone_keeps_view::<K>(),
        clone_keeps_view::<V>(),
    ensures
        match r {
            Ok(n) => {
                &&& Shape::lift_middle(
                    ctx.opt_shape(a),
                    first_key@,
                    first_value@,
                    ctx.opt_shape(mid),
                    last_key@,
                    last_value@,
                    ctx.opt_shape(d),
                ) == Ok::<Shape<K::V, V::V>, StoreError>(ctx.node_shape(*n))
                &&& n.hash is None
                &&& crate::resolve::resident(ref_of(a)) && crate::resolve::resident(ref_of(mid))
                    && crate::resolve::resident(ref_of(d)) ==> node_resident(*n)
                &&& crate::resolve::fresh(ref_of(a)) && crate::resolve::fresh(ref_of(mid))
                    && crate::resolve::fresh(ref_of(d)) ==> crate::resolve::fresh(
                    NodeRef::MemRef(n),
                )
                &&& crate::resolve::unsaved(NodeRef::MemRef(n), ctx.records()) <= 3
                    + crate::resolve::unsaved(ref_of(a), ctx.records())
                    + crate::resolve::unsaved(ref_of(mid), ctx.records())
                    + crate::resolve::unsaved(ref_of(d), ctx.records())
            },
            Err(e) => {
                ||| e is StorageError && ctx.store is Some && !crate::resolve::resident(ref_of(mid))
                ||| Shape::lift_middle(
                    ctx.opt_shape(a),
                    first_key@,
                    first_value@,
                    ctx.opt_shape(mid),
                    last_key@,
                    last_value@,
                    ctx.opt_shape(d),
                ) == Err::<Shape<K::V, V::V>, StoreError>(e)
            },
        },
{
    match mid {
        None => Err(StoreError::InvariantViolation),
        Some(m) => {
            proof {
                assert(crate::resolve::resident(ref_of(mid)) == (crate::resolve::resident(m.left)
                    && crate::resolve::resident(m.right)));
                assert(ctx.opt_shape(mid) == ctx.node_shape(*m));
            }
            let b = match m.left.get_child(ctx, m.data.height) {
                Ok(b) => b,
                Err(e) => {
                    proof {
                        assert((e is StorageError && m.left is HashRef && ctx.store is Some)
                            || crate::shape::first_flaw(
                            ctx.resolve(m.left, m.data.height as nat),
                            ctx.resolve(m.right, m.data.height as nat),
                        ) == Some(e));
                    }
                    return Err(e);
                },
            };
            let c = match m.right.get_child(ctx, m.data.height) {
                Ok(c) => c,
                Err(e) => {
                    proof {
                        assert((e is StorageError && m.right is HashRef && ctx.store is Some)
                            || crate::shape::first_flaw(
                            ctx.resolve(m.left, m.data.height as nat),
                            ctx.resolve(m.right, m.data.height as nat),
                        ) == Some(e));
                    }
                    return Err(e);
                },
            };
            let low = join_nodes(ctx, first_key, first_value, a, b)?;
            let high = join_nodes(ctx, last_key, last_value, c, d)?;
            join_nodes(ctx, &m.data.key, &m.data.value, Some(low), Some(high))
        },
    }
}

/// The mirror image of [`rotate_right`], for a right subtree `r` that is two
/// higher than `left`.
pub fn rotate_left<K: Clone + View, V: Clone + View>(
    ctx: &TreeContext<K, V>,
    left: Option<Arc<Node<K, V>>>,
    key: &K,
    value: &V,
    r: &Arc<Node<K, V>>,
) -> (res: Result<Arc<Node<K, V>>, StoreError>)
    requires
        clone_keeps_view::<K>(),
        clone_keeps_view::<V>(),
    ensures
        match res {
            Ok(n) => {
                &&& Shape::rotate_left(ctx.opt_shape(left), key@, value@, ctx.node_shape(**r))
                    == Ok::<Shape<K::V, V::V>, StoreError>(ctx.node_shape(*n))
                &&& n.hash is None
                &&& node_resident(**r) && crate::resolve::resident(ref_of(left))
                    ==> node_resident(*n)
                &&& crate::resolve::fresh(r.left) && crate::resolve::fresh(r.right)
                    && crate::resolve::fresh(ref_of(left)) ==> crate::resolve::fresh(
                    NodeRef::MemRef(n),
                )
                &&& crate::resolve::unsaved(NodeRef::MemRef(n), ctx.records()) <= 3
                    + crate::resolve::unsaved(r.left, ctx.records()) + crate::resolve::unsaved(
                    r.right,
                    ctx.records(),
                ) + crate::resolve::unsaved(ref_of(left), ctx.records())
            },
            Err(e) => {
                ||| e is StorageError && ctx.store is Some && !node_resident(**r)
                ||| Shape::rotate_left(ctx.opt_shape(left), key@, value@, ctx.node_shape(**r))
                    == Err::<Shape<K::V, V::V>, StoreError>(e)
            },
        },
{
    let lean = r.balance_factor(ctx)?;
    let rl = r.left.get_child(ctx, r.data.height)?;
    let rr = r.right.get_child(ctx, r.data.height)?;
    let r_data = &r.data;
    if lean > 0 {
        lift_middle(ctx, left, key, value, rl, &r_data.key, &r_data.value, rr)
    } else {
        let inner = join_nodes(ctx, key, value, left, rl)?;
        join_nodes(ctx, &r_data.key, &r_data.value, Some(inner), rr)
    }
}

/// The left child of the node `n`.
pub fn get_left<K: View, V: View>(n: &Node<K, V>, ctx: &TreeContext<K, V>) -> (r: Result<
    Option<Arc<Node<K, V>>>,
    StoreError,
>)
    ensures
        match r {
            Ok(left) => {
                &&& *ctx.node_shape(*n)->left == ctx.opt_shape(left)
                &&& depth_of(left) <= n.data.height
                &&& crate::resolve::resident(n.left) ==> crate::resolve::resident(ref_of(left))
                &&& crate::resolve::fresh(n.left) ==> crate::resolve::fresh(ref_of(left))
                &&& crate::resolve::unsaved(ref_of(left), ctx.records())
                    <= crate::resolve::unsaved(n.left, ctx.records())
            },
            Err(e) => {
                ||| e is StorageError && ctx.store is Some && !crate::resolve::resident(n.left)
                ||| *ctx.node_shape(*n)->left == Shape::<K::V, V::V>::Fault(e)
            },
        },
{
    n.left.get_child(ctx, n.data.height)
}

/// The right child of the node `n`.
pub fn get_right<K: View, V: View>(n: &Node<K, V>, ctx: &TreeContext<K, V>) -> (r: Result<
    Option<Arc<Node<K, V>>>,
    StoreError,
>)
    ensures
        match r {
            Ok(right) => {
                &&& *ctx.node_shape(*n)->right == ctx.opt_shape(right)
                &&& depth_of(right) <= n.data.height
                &&& crate::resolve::resident(n.right) ==> crate::resolve::resident(ref_of(right))
                &&& crate::resolve::fresh(n.right) ==> crate::resolve::fresh(ref_of(right))
                &&& crate::resolve::unsaved(ref_of(right), ctx.records())
                    <= crate::resolve::unsaved(n.right, ctx.records())
            },
            Err(e) => {
                ||| e is StorageError && ctx.store is Some && !crate::resolve::resident(n.right)
                ||| *ctx.node_shape(*n)->right == Shape::<K::V, V::V>::Fault(e)
            },
        },
{
    n.right.get_child(ctx, n.data.height)
}

/// Both children of the node `n`, the left one first.
pub fn get_children<K: View, V: View>(n: &Node<K, V>, ctx: &TreeContext<K, V>) -> (r: Result<
    (Option<Arc<Node<K, V>>>, Option<Arc<Node<K, V>>>),
    StoreError,
>)
    ensures
        match r {
            Ok((left, right)) => {
                &&& *ctx.node_shape(*n)->left == ctx.opt_shape(left)
                &&& *ctx.node_shape(*n)->right == ctx.opt_shape(right)
                &&& depth_of(left) <= n.data.height
                &&& depth_of(right) <= n.data.height
                &&& node_resident(*n) ==> crate::resolve::resident(ref_of(left))
                    && crate::resolve::resident(ref_of(right))
                &&& crate::resolve::fresh(n.left) ==> crate::resolve::fresh(ref_of(left))
                &&& crate::resolve::fresh(n.right) ==> crate::resolve::fresh(ref_of(right))
                &&& crate::resolve::unsaved(ref_of(left), ctx.records())
                    <= crate::resolve::unsaved(n.left, ctx.records())
                &&& crate::resolve::unsaved(ref_of(right), ctx.records())
                    <= crate::resolve::unsaved(n.right, ctx.records())
            },
            Err(e) => {
                ||| e is StorageError && ctx.store is Some && !node_resident(*n)
                ||| crate::shape::first_flaw(
                    *ctx.node_shape(*n)->left,
                    *ctx.node_shape(*n)->right,
                ) == Some(e)
            },
        },
{
    let left = get_left(n, ctx)?;
    let right = get_right(n, ctx)?;
    Ok((left, right))
}

/// A node that differs from `n` in its value only stands for `n`'s tree with
/// that value at the root.
pub proof fn lemma_updated_shape<K: View, V: View>(
    ctx: &TreeContext<K, V>,
    n: Arc<Node<K, V>>,
    updated: Arc<Node<K, V>>,
)
    requires
        updated.data.key@ == n.data.key@,
        updated.data.height == n.data.height,
        updated.data.rank == n.data.rank,
        same_ref(n.left, updated.left),
        same_ref(n.right, updated.right),
    ensures
        ctx.node_shape(*updated) == (Shape::Fork {
            left: ctx.node_shape(*n)->left,
            key: n.data.key@,
            value: updated.data.value@,
            height: n.data.height,
            rank: n.data.rank,
            right: ctx.node_shape(*n)->right,
        }),
        node_resident(*updated) == node_resident(*n),
        crate::resolve::fresh(updated.left) == crate::resolve::fresh(n.left),
        crate::resolve::fresh(updated.right) == crate::resolve::fresh(n.right),
        crate::resolve::unsaved(updated.left, ctx.records()) == crate::resolve::unsaved(
            n.left,
            ctx.records(),
        ),
        crate::resolve::unsaved(updated.right, ctx.records()) == crate::resolve::unsaved(
            n.right,
            ctx.records(),
        ),
{
}

/// The tree below `node` with `value` under `key`, as a new tree that shares
/// with the old one what the insertion does not touch. A key that is there
/// keeps its node's place and shape and takes the new value; a new key
/// becomes a leaf, and every node on the way back up is rebalanced.
pub fn insert<K: Clone + View, V: Clone + View>(
    node: Option<Arc<Node<K, V>>>,
    ctx: &TreeContext<K, V>,
    key: &K,
    value: &V,
) -> (r: Result<Arc<Node<K, V>>, StoreError>)
    requires
        clone_keeps_view::<K>(),
        clone_keeps_view::<V>(),
    ensures
        match r {
            Ok(n) => {
                &&& ctx.opt_shape(node).insert(ctx.order(), key@, value@) == Ok::<
                    Shape<K::V, V::V>,
                    StoreError,
                >(ctx.node_shape(*n))
                &&& n.hash is None
                &&& crate::resolve::resident(ref_of(node)) ==> node_resident(*n)
                &&& crate::resolve::fresh(ref_of(node)) ==> crate::resolve::fresh(
                    NodeRef::MemRef(n),
                )
                &&& crate::resolve::unsaved(NodeRef::MemRef(n), ctx.records())
                    <= crate::resolve::unsaved(ref_of(node), ctx.records()) + 3 * depth_of(node)
                    + 1
            },
            Err(e) => {
                ||| e is StorageError && ctx.store is Some && !crate::resolve::resident(
                    ref_of(node),
                )
                ||| ctx.opt_shape(node).insert(ctx.order(), key@, value@) == Err::<
                    Shape<K::V, V::V>,
                    StoreError,
                >(e)
            },
        },
    decreases depth_of(node),
{
    match node {
        None => join_nodes(ctx, key, value, None, None),
        Some(n) => {
            proof {
                assert(crate::resolve::resident(ref_of(node)) == node_resident(*n));
                assert(ctx.opt_shape(node) == ctx.node_shape(*n));
            }
            let data = &n.data;
            match ctx.comparator.compare(key, &data.key) {
                Ordering::Equal => {
                    let updated = Arc::new(n.update_value(value));
                    let ghost old_node = n;
                    let ghost new_node = updated;
                    proof {
                        lemma_updated_shape(ctx, old_node, new_node);
                    }
                    Ok(updated)
                },
                Ordering::Less => {
                    let (left, right) = get_children(&n, ctx)?;
                    let new_left = insert(left, ctx, key, value)?;
                    let joined = join_nodes(ctx, &data.key, &data.value, Some(new_left), right)?;
                    joined.balance(ctx)
                },
                Ordering::Greater => {
                    let (left, right) = get_children(&n, ctx)?;
                    let new_right = insert(right, ctx, key, value)?;
                    let joined = join_nodes(ctx, &data.key, &data.value, left, Some(new_right))?;
                    joined.balance(ctx)
                },
            }
        },
    }
}

} // verus!
