//! The mathematical model of a tree: what a subtree is once every reference in
//! it has been followed, and what insertion, lookup and rebalancing make of it.

use crate::store::StoreError;
use vstd::prelude::*;

verus! {

/// A tree with every reference followed. A `Fault` stands where following a
/// reference fails, with the error that failing there gives. Heights and ranks
/// are the recorded ones, which in a corrupted tree need not be the true ones.
pub enum Shape<K, V> {
    Empty,
    Fault(StoreError),
    Fork {
        left: Box<Shape<K, V>>,
        key: K,
        value: V,
        height: u32,
        rank: u64,
        right: Box<Shape<K, V>>,
    },
}

/// The first of two subtrees that is a fault, as the error it carries.
pub open spec fn first_flaw<K, V>(a: Shape<K, V>, b: Shape<K, V>) -> Option<StoreError> {
    match a {
        Shape::Fault(e) => Some(e),
        _ => match b {
            Shape::Fault(e) => Some(e),
            _ => None,
        },
    }
}

/// The greater of two numbers.
pub open spec fn max_nat(a: nat, b: nat) -> nat {
    if a >= b {
        a
    } else {
        b
    }
}

impl<K, V> Shape<K, V> {
    /// The tree as it looks from below a node of height `bound`: a root that
    /// is not lower than `bound` breaks the tree's invariant.
    pub open spec fn below(self, bound: nat) -> Self {
        match self {
            Shape::Fork { height, .. } => if height >= bound {
                Shape::Fault(StoreError::InvariantViolation)
            } else {
                self
            },
            _ => self,
        }
    }

    /// The recorded height; nothing counts as 0.
    pub open spec fn height(self) -> nat {
        match self {
            Shape::Fork { height, .. } => height as nat,
            _ => 0,
        }
    }

    /// The recorded node count; nothing counts as 0.
    pub open spec fn rank(self) -> nat {
        match self {
            Shape::Fork { rank, .. } => rank as nat,
            _ => 0,
        }
    }

    /// A node over two subtrees, with the height and rank that follow from
    /// theirs. It fails where one of the two no longer fits its field.
    pub open spec fn join(l: Self, key: K, value: V, r: Self) -> Result<Self, StoreError> {
        let h = 1 + max_nat(l.height(), r.height());
        let n = l.rank() + r.rank() + 1;
        if h > u32::MAX || n > u64::MAX {
            Err(StoreError::InvariantViolation)
        } else {
            Ok(
                Shape::Fork {
                    left: Box::new(l),
                    key,
                    value,
                    height: h as u32,
                    rank: n as u64,
                    right: Box::new(r),
                },
            )
        }
    }

    /// A tree of one entry.
    pub open spec fn leaf(key: K, value: V) -> Self {
        Shape::Fork {
            left: Box::new(Shape::Empty),
            key,
            value,
            height: 1,
            rank: 1,
            right: Box::new(Shape::Empty),
        }
    }

    /// The left subtree `l` is two higher than `r`: lift `l`'s root, or the
    /// root of `l`'s right subtree when that side of `l` is the higher one.
    pub open spec fn rotate_right(l: Self, key: K, value: V, r: Self) -> Result<Self, StoreError> {
        match l {
            Shape::Fork { left: ll, key: lk, value: lv, right: lr, .. } => {
                if let Some(e) = first_flaw(*ll, *lr) {
                    Err(e)
                } else if ll.height() >= lr.height() {
                    match Self::join(*lr, key, value, r) {
                        Err(e) => Err(e),
                        Ok(inner) => Self::join(*ll, lk, lv, inner),
                    }
                } else {
                    Self::lift_middle(*ll, lk, lv, *lr, key, value, r)
                }
            },
            _ => Err(StoreError::InvariantViolation),
        }
    }

    /// Four subtrees under three entries, with the middle entry on top: the
    /// root of `mid` is lifted over the entry before it, which keeps `a` and
    /// the left part of `mid`, and the entry after it, which keeps the right
    /// part of `mid` and `d`.
    pub open spec fn lift_middle(
        a: Self,
        first_key: K,
        first_value: V,
        mid: Self,
        last_key: K,
        last_value: V,
        d: Self,
    ) -> Result<Self, StoreError> {
        match mid {
            Shape::Fork { left: b, key, value, right: c, .. } => {
                if let Some(e) = first_flaw(*b, *c) {
                    Err(e)
                } else {
                    match Self::join(a, first_key, first_value, *b) {
                        Err(e) => Err(e),
                        Ok(low) => match Self::join(*c, last_key, last_value, d) {
                            Err(e) => Err(e),
                            Ok(high) => Self::join(low, key, value, high),
                        },
                    }
                }
            },
            _ => Err(StoreError::InvariantViolation),
        }
    }

    /// The mirror image of [`Self::rotate_right`].
    pub open spec fn rotate_left(l: Self, key: K, value: V, r: Self) -> Result<Self, StoreError> {
        match r {
            Shape::Fork { left: rl, key: rk, value: rv, right: rr, .. } => {
                if let Some(e) = first_flaw(*rl, *rr) {
                    Err(e)
                } else if rl.height() > rr.height() {
                    Self::lift_middle(l, key, value, *rl, rk, rv, *rr)
                } else {
                    match Self::join(l, key, value, *rl) {
                        Err(e) => Err(e),
                        Ok(inner) => Self::join(inner, rk, rv, *rr),
                    }
                }
            },
            _ => Err(StoreError::InvariantViolation),
        }
    }

    /// The node rebuilt so that its two sides differ in height by one at most,
    /// given that they differ by two at most. Recorded height and rank are
    /// computed anew in every case.
    pub open spec fn balance(self) -> Result<Self, StoreError> {
        match self {
            Shape::Empty => Ok(Shape::Empty),
            Shape::Fault(e) => Err(e),
            Shape::Fork { left, key, value, right, .. } => {
                if let Some(e) = first_flaw(*left, *right) {
                    Err(e)
                } else if left.height() == right.height() + 2 {
                    Self::rotate_right(*left, key, value, *right)
                } else if right.height() == left.height() + 2 {
                    Self::rotate_left(*left, key, value, *right)
                } else {
                    Self::join(*left, key, value, *right)
                }
            },
        }
    }

    /// The tree with `value` under `key`. An entry with that key keeps its
    /// place and takes the new value; a new entry becomes a leaf where the
    /// order `le` puts it, and every node on the way back up is rebalanced.
    pub open spec fn insert(self, le: spec_fn(K, K) -> bool, k: K, v: V) -> Result<Self, StoreError>
        decreases self,
    {
        match self {
            Shape::Empty => Ok(Self::leaf(k, v)),
            Shape::Fault(e) => Err(e),
            Shape::Fork { left, key, value, height, rank, right } => {
                if k == key {
                    Ok(Shape::Fork { left, key, value: v, height, rank, right })
                } else if let Some(e) = first_flaw(*left, *right) {
                    Err(e)
                } else if le(k, key) {
                    match left.insert(le, k, v) {
                        Err(e) => Err(e),
                        Ok(nl) => match Self::join(nl, key, value, *right) {
                            Err(e) => Err(e),
                            Ok(j) => j.balance(),
                        },
                    }
                } else {
                    match right.insert(le, k, v) {
                        Err(e) => Err(e),
                        Ok(nr) => match Self::join(*left, key, value, nr) {
                            Err(e) => Err(e),
                            Ok(j) => j.balance(),
                        },
                    }
                }
            },
        }
    }

    /// The tree without its leftmost entry, and that entry. Every node on the
    /// way back up is rebalanced.
    pub open spec fn remove_min(self) -> Result<(Self, K, V), StoreError>
        decreases self,
    {
        match self {
            Shape::Empty => Err(StoreError::InvariantViolation),
            Shape::Fault(e) => Err(e),
            Shape::Fork { left, key, value, right, .. } => {
                if let Some(e) = first_flaw(*left, *right) {
                    Err(e)
                } else if *left is Empty {
                    Ok((*right, key, value))
                } else {
                    match left.remove_min() {
                        Err(e) => Err(e),
                        Ok((rest, k, v)) => match Self::join(rest, key, value, *right) {
                            Err(e) => Err(e),
                            Ok(j) => match j.balance() {
                                Err(e) => Err(e),
                                Ok(t) => Ok((t, k, v)),
                            },
                        },
                    }
                }
            },
        }
    }

    /// The tree without the entry of `k`. A node with one subtree at most
    /// gives way to that subtree; a node with two takes the entry that
    /// follows it, which leaves the right subtree. Every node on the way back
    /// up is rebalanced.
    pub open spec fn remove(self, le: spec_fn(K, K) -> bool, k: K) -> Result<Self, StoreError>
        decreases self,
    {
        match self {
            Shape::Empty => Ok(Shape::Empty),
            Shape::Fault(e) => Err(e),
            Shape::Fork { left, key, value, right, .. } => {
                if let Some(e) = first_flaw(*left, *right) {
                    Err(e)
                } else if k == key {
                    if *left is Empty {
                        Ok(*right)
                    } else if *right is Empty {
                        Ok(*left)
                    } else {
                        match right.remove_min() {
                            Err(e) => Err(e),
                            Ok((rest, next_key, next_value)) => match Self::join(
                                *left,
                                next_key,
                                next_value,
                                rest,
                            ) {
                                Err(e) => Err(e),
                                Ok(j) => j.balance(),
                            },
                        }
                    }
                } else if le(k, key) {
                    match left.remove(le, k) {
                        Err(e) => Err(e),
                        Ok(rest) => match Self::join(rest, key, value, *right) {
                            Err(e) => Err(e),
                            Ok(j) => j.balance(),
                        },
                    }
                } else {
                    match right.remove(le, k) {
                        Err(e) => Err(e),
                        Ok(rest) => match Self::join(*left, key, value, rest) {
                            Err(e) => Err(e),
                            Ok(j) => j.balance(),
                        },
                    }
                }
            },
        }
    }

    /// The subtree whose root holds `k`, found by binary search; `Empty` when
    /// the search ends without finding it.
    pub open spec fn find(self, le: spec_fn(K, K) -> bool, k: K) -> Result<Self, StoreError>
        decreases self,
    {
        match self {
            Shape::Empty => Ok(Shape::Empty),
            Shape::Fault(e) => Err(e),
            Shape::Fork { left, key, right, .. } => {
                if k == key {
                    Ok(self)
                } else if le(k, key) {
                    left.find(le, k)
                } else {
                    right.find(le, k)
                }
            },
        }
    }

    /// The entries from left to right.
    pub open spec fn inorder(self) -> Seq<(K, V)>
        decreases self,
    {
        match self {
            Shape::Fork { left, key, value, right, .. } => left.inorder() + seq![(key, value)]
                + right.inorder(),
            _ => Seq::empty(),
        }
    }

    /// No fault anywhere, every recorded height and rank is the true one, and
    /// the two sides of every node differ in height by one at most.
    pub open spec fn balanced(self) -> bool
        decreases self,
    {
        match self {
            Shape::Empty => true,
            Shape::Fault(_) => false,
            Shape::Fork { left, height, rank, right, .. } => {
                &&& left.balanced()
                &&& right.balanced()
                &&& height == 1 + max_nat(left.height(), right.height())
                &&& rank == left.rank() + right.rank() + 1
                &&& left.height() <= right.height() + 1
                &&& right.height() <= left.height() + 1
            },
        }
    }

    /// A balanced search tree: [`Self::balanced`], with the keys from left to
    /// right strictly ascending in the order `le`.
    pub open spec fn well_formed(self, le: spec_fn(K, K) -> bool) -> bool {
        self.balanced() && ascending(self.inorder(), le)
    }
}

/// Each key is below every later one: `le` holds and the two are not the same.
pub open spec fn ascending<K, V>(s: Seq<(K, V)>, le: spec_fn(K, K) -> bool) -> bool {
    forall|i: int, j: int| 0 <= i < j < s.len() ==> le(s[i].0, s[j].0) && s[i].0 != s[j].0
}

/// `x` is below every key of `s`.
pub open spec fn below_all<K, V>(x: K, s: Seq<(K, V)>, le: spec_fn(K, K) -> bool) -> bool {
    forall|i: int| 0 <= i < s.len() ==> le(x, #[trigger] s[i].0) && x != s[i].0
}

/// The value that the entries hold under `k`, if any: that of the first entry
/// with this key.
pub open spec fn assoc<K, V>(s: Seq<(K, V)>, k: K) -> Option<V>
    decreases s.len(),
{
    if s.len() == 0 {
        None
    } else if s[0].0 == k {
        Some(s[0].1)
    } else {
        assoc(s.drop_first(), k)
    }
}

/// The entries as a map from key to value.
pub open spec fn entries<K, V>(s: Seq<(K, V)>) -> Map<K, V> {
    Map::new(|k: K| assoc(s, k) is Some, |k: K| assoc(s, k)->0)
}

/// The ascending entries `s` with `v` under `k`: in place of the entry with
/// that key, or else before the first entry with a greater key.
pub open spec fn put<K, V>(s: Seq<(K, V)>, le: spec_fn(K, K) -> bool, k: K, v: V) -> Seq<(K, V)>
    decreases s.len(),
{
    if s.len() == 0 {
        seq![(k, v)]
    } else if s[0].0 == k {
        seq![(k, v)] + s.drop_first()
    } else if le(k, s[0].0) {
        seq![(k, v)] + s
    } else {
        seq![s[0]] + put(s.drop_first(), le, k, v)
    }
}

/// The entries `s` without the first entry of the key `k`.
pub open spec fn cut<K, V>(s: Seq<(K, V)>, k: K) -> Seq<(K, V)>
    decreases s.len(),
{
    if s.len() == 0 {
        s
    } else if s[0].0 == k {
        s.drop_first()
    } else {
        seq![s[0]] + cut(s.drop_first(), k)
    }
}

} // verus!
