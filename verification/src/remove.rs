//! Removal: the entry leaves, and every node on the way back up is rebuilt and
//! rebalanced. As with insertion, existing nodes stay as they are.

use crate::api::{Node, NodeRef, TreeContext};
use crate::balance::{clone_keeps_view, depth_of, get_children, join_nodes, node_resident, ref_of};
use crate::shape::Shape;
use crate::store::StoreError;
use std::cmp::Ordering;
use std::sync::Arc;
use vstd::prelude::*;

verus! {

/// The tree below `node` without its leftmost entry, and that entry.
pub fn remove_min<K: Clone + View, V: Clone + View>(
    node: &Arc<Node<K, V>>,
    ctx: &TreeContext<K, V>,
) -> (r: Result<(Option<Arc<Node<K, V>>>, K, V), StoreError>)
    requires
        clone_keeps_view::<K>(),
        clone_keeps_view::<V>(),
    ensures
        match r {
            Ok((rest, k, v)) => {
                &&& ctx.node_shape(**node).remove_min() == Ok::<
                    (Shape<K::V, V::V>, K::V, V::V),
                    StoreError,
                >((ctx.opt_shape(rest), k@, v@))
                &&& node_resident(**node) ==> crate::resolve::resident(ref_of(rest))
                &&& crate::resolve::fresh(node.left) && crate::resolve::fresh(node.right)
                    ==> crate::resolve::fresh(ref_of(rest))
            },
            Err(e) => {
                ||| e is StorageError && ctx.store is Some && !node_resident(**node)
                ||| ctx.node_shape(**node).remove_min() == Err::<
                    (Shape<K::V, V::V>, K::V, V::V),
                    StoreError,
                >(e)
            },
        },
    decreases node.data.height,
{
    let (left, right) = get_children(node, ctx)?;
    match left {
        None => {
            let k = node.data.key.clone();
            let v = node.data.value.clone();
            assert(cloned(node.data.key, k) && cloned(node.data.value, v));
            Ok((right, k, v))
        },
        Some(l) => {
            let (rest, k, v) = remove_min(&l, ctx)?;
            let joined = join_nodes(ctx, &node.data.key, &node.data.value, rest, right)?;
            let t = joined.balance(ctx)?;
            Ok((Some(t), k, v))
        },
    }
}

/// The tree below `node` without the entry of `key`, as a new tree that
/// shares with the old one what the removal does not touch. A node with one
/// subtree at most gives way to that subtree; a node with two takes the entry
/// that follows it.
pub fn remove<K: Clone + View, V: Clone + View>(
    node: Option<Arc<Node<K, V>>>,
    ctx: &TreeContext<K, V>,
    key: &K,
) -> (r: Result<Option<Arc<Node<K, V>>>, StoreError>)
    requires
        clone_keeps_view::<K>(),
        clone_keeps_view::<V>(),
    ensures
        match r {
            Ok(rest) => {
                &&& ctx.opt_shape(node).remove(ctx.order(), key@) == Ok::<
                    Shape<K::V, V::V>,
                    StoreError,
                >(ctx.opt_shape(rest))
                &&& crate::resolve::resident(ref_of(node)) ==> crate::resolve::resident(
                    ref_of(rest),
                )
                &&& crate::resolve::fresh(ref_of(node)) ==> crate::resolve::fresh(ref_of(rest))
            },
            Err(e) => {
                ||| e is StorageError && ctx.store is Some && !crate::resolve::resident(
                    ref_of(node),
                )
                ||| ctx.opt_shape(node).remove(ctx.order(), key@) == Err::<
                    Shape<K::V, V::V>,
                    StoreError,
                >(e)
            },
        },
    decreases depth_of(node),
{
    match node {
        None => Ok(None),
        Some(n) => {
            proof {
                assert(crate::resolve::resident(ref_of(node)) == node_resident(*n));
                assert(ctx.opt_shape(node) == ctx.node_shape(*n));
            }
            let (left, right) = get_children(&n, ctx)?;
            let data = &n.data;
            match ctx.comparator.compare(key, &data.key) {
                Ordering::Equal => match (left, right) {
                    (None, right) => Ok(right),
                    (left, None) => Ok(left),
                    (left, Some(r)) => {
                        let (rest, next_key, next_value) = remove_min(&r, ctx)?;
                        let joined = join_nodes(ctx, &next_key, &next_value, left, rest)?;
                        Ok(Some(joined.balance(ctx)?))
                    },
                },
                Ordering::Less => {
                    let rest = remove(left, ctx, key)?;
                    let joined = join_nodes(ctx, &data.key, &data.value, rest, right)?;
                    Ok(Some(joined.balance(ctx)?))
                },
                Ordering::Greater => {
                    let rest = remove(right, ctx, key)?;
                    let joined = join_nodes(ctx, &data.key, &data.value, left, rest)?;
                    Ok(Some(joined.balance(ctx)?))
                },
            }
        },
    }
}

} // verus!
