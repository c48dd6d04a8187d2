//! Lookup by binary search, from memory into the store where the tree goes on
//! there.

use crate::api::{Node, TreeContext};
use crate::balance::{get_left, get_right, node_resident, share};
use crate::shape::Shape;
use crate::store::StoreError;
use std::cmp::Ordering;
use std::sync::Arc;
use vstd::prelude::*;

verus! {

/// The node below `node` that holds `key`, if there is one. The search goes
/// left where `key` is below a node's key and right where it is above, and
/// reads a node from the store where it is known by its hash only.
pub fn find_node<K: View, V: View>(
    node: &Arc<Node<K, V>>,
    ctx: &TreeContext<K, V>,
    key: &K,
) -> (r: Result<Option<Arc<Node<K, V>>>, StoreError>)
    ensures
        match r {
            Ok(None) => ctx.node_shape(**node).find(ctx.order(), key@) == Ok::<
                Shape<K::V, V::V>,
                StoreError,
            >(Shape::Empty),
            Ok(Some(n)) => {
                &&& ctx.node_shape(**node).find(ctx.order(), key@) == Ok::<
                    Shape<K::V, V::V>,
                    StoreError,
                >(ctx.node_shape(*n))
                &&& n.data.key@ == key@
            },
            Err(e) => {
                ||| e is StorageError && ctx.store is Some && !node_resident(**node)
                ||| ctx.node_shape(**node).find(ctx.order(), key@) == Err::<
                    Shape<K::V, V::V>,
                    StoreError,
                >(e)
            },
        },
    decreases node.data.height,
{
    proof {
        reveal_with_fuel(Shape::find, 2);
    }
    let data = &node.data;
    match ctx.comparator.compare(key, &data.key) {
        Ordering::Less => match get_left(node, ctx)? {
            None => Ok(None),
            Some(l) => find_node(&l, ctx, key),
        },
        Ordering::Greater => match get_right(node, ctx)? {
            None => Ok(None),
            Some(r) => find_node(&r, ctx, key),
        },
        Ordering::Equal => Ok(Some(share(node))),
    }
}

} // verus!
