//! What serializing leaves in the store reads back as the tree that was
//! serialized, as long as no two different records meet under one hash.

use crate::api::{NodeRef, TreeContext};
use crate::hash_serialize::{keeps, record, ref_hash, settled, written, Frame};
use crate::resolve::{node_key, Stored};
use crate::shape::Shape;
use crate::store::StoreError;
use vstd::prelude::*;

verus! {

/// What the store contents `s` hold for a hash, read with the marshallers of
/// the frame.
pub open spec fn stored_in<KV, VV>(
    f: Frame<KV, VV>,
    s: Map<Seq<u8>, Seq<u8>>,
    h: Seq<u8>,
) -> Stored<KV, VV> {
    if !s.contains_key(node_key(h)) {
        Stored::Absent
    } else {
        match crate::codec::decoding(s[node_key(h)]) {
            None => Stored::Corrupt,
            Some(rec) => match ((f.key_read)(rec.key), (f.value_read)(rec.value)) {
                (Some(key), Some(value)) => Stored::Record {
                    key,
                    value,
                    height: rec.height,
                    rank: rec.rank,
                    left: rec.left,
                    right: rec.right,
                },
                _ => Stored::Corrupt,
            },
        }
    }
}

/// The subtree under the hash `h` in the store contents `s`, below a node of
/// height `bound`.
pub open spec fn hash_shape<KV, VV>(
    f: Frame<KV, VV>,
    s: Map<Seq<u8>, Seq<u8>>,
    h: Seq<u8>,
    bound: nat,
) -> Shape<KV, VV>
    decreases bound, 0nat,
{
    match stored_in(f, s, h) {
        Stored::Absent => Shape::Empty,
        Stored::Corrupt => Shape::Fault(StoreError::EncodingError),
        Stored::Record { key, value, height, rank, left, right } => {
            if height >= bound {
                Shape::Fault(StoreError::InvariantViolation)
            } else {
                Shape::Fork {
                    left: Box::new(child_shape(f, s, left, height as nat)),
                    key,
                    value,
                    height,
                    rank,
                    right: Box::new(child_shape(f, s, right, height as nat)),
                }
            }
        },
    }
}

/// The subtree that a stored child hash stands for in the store contents `s`.
pub open spec fn child_shape<KV, VV>(
    f: Frame<KV, VV>,
    s: Map<Seq<u8>, Seq<u8>>,
    h: Seq<u8>,
    bound: nat,
) -> Shape<KV, VV>
    decreases bound, 1nat,
{
    if h.len() == 0 {
        Shape::Empty
    } else {
        hash_shape(f, s, h, bound)
    }
}

/// The subtree that `r` stands for over the store contents `s`.
pub open spec fn ref_shape<K: View, V: View>(
    f: Frame<K::V, V::V>,
    s: Map<Seq<u8>, Seq<u8>>,
    r: NodeRef<K, V>,
    bound: nat,
) -> Shape<K::V, V::V>
    decreases r,
{
    match r {
        NodeRef::NoRef => Shape::Empty,
        NodeRef::HashRef(h) => hash_shape(f, s, h@, bound),
        NodeRef::MemRef(n) => {
            if n.data.height >= bound {
                Shape::Fault(StoreError::InvariantViolation)
            } else {
                Shape::Fork {
                    left: Box::new(ref_shape(f, s, n.left, n.data.height as nat)),
                    key: n.data.key@,
                    value: n.data.value@,
                    height: n.data.height,
                    rank: n.data.rank,
                    right: Box::new(ref_shape(f, s, n.right, n.data.height as nat)),
                }
            }
        },
    }
}

/// Every record that the subtree under `h` needs, as far as it is read from
/// below a node of height `bound`, is in the store contents `s`.
pub open spec fn anchored<KV, VV>(
    f: Frame<KV, VV>,
    s: Map<Seq<u8>, Seq<u8>>,
    h: Seq<u8>,
    bound: nat,
) -> bool
    decreases bound, 0nat,
{
    match stored_in(f, s, h) {
        Stored::Absent => false,
        Stored::Corrupt => true,
        Stored::Record { height, left, right, .. } => height >= bound || (child_anchored(
            f,
            s,
            left,
            height as nat,
        ) && child_anchored(f, s, right, height as nat)),
    }
}

/// [`anchored`] for a stored child hash: the empty hash needs no record.
pub open spec fn child_anchored<KV, VV>(
    f: Frame<KV, VV>,
    s: Map<Seq<u8>, Seq<u8>>,
    h: Seq<u8>,
    bound: nat,
) -> bool
    decreases bound, 1nat,
{
    h.len() == 0 || anchored(f, s, h, bound)
}

/// The store contents `t` hold all that `s` holds, unchanged.
pub open spec fn agree(s: Map<Seq<u8>, Seq<u8>>, t: Map<Seq<u8>, Seq<u8>>) -> bool {
    forall|k: Seq<u8>| #[trigger] s.contains_key(k) ==> t.contains_key(k) && t[k] == s[k]
}

/// Every reference by hash in what is in memory of `r` is by a hash that is
/// not empty and has all its records in the store contents `s`.
pub open spec fn tree_anchored<K: View, V: View>(
    f: Frame<K::V, V::V>,
    s: Map<Seq<u8>, Seq<u8>>,
    r: NodeRef<K, V>,
) -> bool
    decreases r,
{
    match r {
        NodeRef::NoRef => true,
        NodeRef::HashRef(h) => h@.len() > 0 && forall|b: nat| anchored(f, s, h@, b),
        NodeRef::MemRef(n) => tree_anchored(f, s, n.left) && tree_anchored(f, s, n.right),
    }
}

/// The marshallers of the store read back what they wrote.
pub open spec fn reads_back<KV, VV>(f: Frame<KV, VV>) -> bool {
    &&& forall|k: KV| #[trigger] (f.key_read)((f.key_record)(k)) == Some(k)
    &&& forall|v: VV| #[trigger] (f.value_read)((f.value_record)(v)) == Some(v)
}

/// Serializing `r` into the store contents `s` goes without a clash: every
/// hash is not empty, a record is written only where there is none or the
/// same one, and a node that is passed over because its hash has a record
/// reads back from that record as it is in memory.
pub open spec fn harmonious<K: View, V: View>(
    f: Frame<K::V, V::V>,
    r: NodeRef<K, V>,
    s: Map<Seq<u8>, Seq<u8>>,
) -> bool
    decreases r,
{
    match r {
        NodeRef::MemRef(n) => {
            let h = ref_hash(f, r);
            let k = node_key(h);
            &&& h.len() > 0
            &&& if n.hash is Some && s.contains_key(k) {
                forall|b: nat|
                    #![trigger hash_shape(f, s, h, b)]
                    hash_shape(f, s, h, b) == ref_shape(f, s, r, b) && anchored(f, s, h, b)
            } else {
                let s1 = written(f, n.left, s);
                let s2 = written(f, n.right, s1);
                &&& harmonious(f, n.left, s)
                &&& harmonious(f, n.right, s1)
                &&& s2.contains_key(k) ==> s2[k] == crate::codec::encoding(record(f, *n))
                &&& record(f, *n).key.len() <= u64::MAX
                &&& record(f, *n).value.len() <= u64::MAX
                &&& record(f, *n).left.len() <= u64::MAX
                &&& record(f, *n).right.len() <= u64::MAX
            }
        },
        _ => true,
    }
}

/// Under more store contents, what was anchored is anchored still and reads
/// as the same tree.
pub proof fn lemma_stable<KV, VV>(
    f: Frame<KV, VV>,
    s: Map<Seq<u8>, Seq<u8>>,
    t: Map<Seq<u8>, Seq<u8>>,
    h: Seq<u8>,
    bound: nat,
)
    requires
        agree(s, t),
        anchored(f, s, h, bound),
    ensures
        anchored(f, t, h, bound),
        hash_shape(f, t, h, bound) == hash_shape(f, s, h, bound),
    decreases bound,
{
    assert(s.contains_key(node_key(h)));
    assert(stored_in(f, t, h) == stored_in(f, s, h));
    match stored_in(f, s, h) {
        Stored::Record { height, left, right, .. } => {
            if height < bound {
                if left.len() > 0 {
                    lemma_stable(f, s, t, left, height as nat);
                }
                if right.len() > 0 {
                    lemma_stable(f, s, t, right, height as nat);
                }
            }
        },
        _ => {},
    }
}

/// Under more store contents, a subtree whose references by hash are
/// anchored stands for the same tree, and they are anchored still.
pub proof fn lemma_ref_stable<K: View, V: View>(
    f: Frame<K::V, V::V>,
    s: Map<Seq<u8>, Seq<u8>>,
    t: Map<Seq<u8>, Seq<u8>>,
    r: NodeRef<K, V>,
    bound: nat,
)
    requires
        agree(s, t),
        tree_anchored(f, s, r),
    ensures
        tree_anchored(f, t, r),
        ref_shape(f, t, r, bound) == ref_shape(f, s, r, bound),
    decreases r,
{
    match r {
        NodeRef::NoRef => {},
        NodeRef::HashRef(h) => {
            assert forall|b: nat| anchored(f, t, h@, b) by {
                lemma_stable(f, s, t, h@, b);
            }
            lemma_stable(f, s, t, h@, bound);
        },
        NodeRef::MemRef(n) => {
            lemma_ref_stable(f, s, t, n.left_ref(), n.recorded_height());
            lemma_ref_stable(f, s, t, n.right_ref(), n.recorded_height());
        },
    }
}

/// The record of the node that `r` holds in memory.
pub open spec fn ref_record<K: View, V: View>(
    f: Frame<K::V, V::V>,
    r: NodeRef<K, V>,
) -> crate::codec::RecordView {
    match r {
        NodeRef::MemRef(n) => record(f, *n),
        _ => crate::codec::blank(),
    }
}

/// Writing a record where there is none or the same one keeps all that the
/// store holds.
pub proof fn lemma_agree_insert(s: Map<Seq<u8>, Seq<u8>>, k: Seq<u8>, v: Seq<u8>)
    requires
        s.contains_key(k) ==> s[k] == v,
    ensures
        agree(s, s.insert(k, v)),
{
}

/// Holding all of something is passed on.
pub proof fn lemma_agree_trans(
    s: Map<Seq<u8>, Seq<u8>>,
    t: Map<Seq<u8>, Seq<u8>>,
    u: Map<Seq<u8>, Seq<u8>>,
)
    requires
        agree(s, t),
        agree(t, u),
    ensures
        agree(s, u),
{
    assert forall|k: Seq<u8>| #[trigger] s.contains_key(k) implies u.contains_key(k) && u[k]
        == s[k] by {
        assert(t.contains_key(k));
    }
}

/// What a stored child hash stands for once the subtree `r` that it names is
/// serialized: the tree that `r` stood for.
proof fn lemma_child_kept<K: View, V: View>(
    f: Frame<K::V, V::V>,
    r: NodeRef<K, V>,
    s: Map<Seq<u8>, Seq<u8>>,
    mid: Map<Seq<u8>, Seq<u8>>,
    end: Map<Seq<u8>, Seq<u8>>,
    bound: nat,
)
    requires
        agree(mid, end),
        r is NoRef || ref_hash(f, r).len() > 0,
        !(r is NoRef) ==> hash_shape(f, mid, ref_hash(f, r), bound) == ref_shape(f, s, r, bound)
            && anchored(f, mid, ref_hash(f, r), bound),
    ensures
        child_shape(f, end, ref_hash(f, r), bound) == ref_shape(f, s, r, bound),
        child_anchored(f, end, ref_hash(f, r), bound),
{
    if !(r is NoRef) {
        lemma_stable(f, mid, end, ref_hash(f, r), bound);
    }
}

/// The hash of a subtree that goes through serializing without a clash, and
/// whose references by hash are anchored, is not empty.
proof fn lemma_named<K: View, V: View>(
    f: Frame<K::V, V::V>,
    r: NodeRef<K, V>,
    s: Map<Seq<u8>, Seq<u8>>,
)
    requires
        tree_anchored(f, s, r),
        harmonious(f, r, s),
    ensures
        r is NoRef || ref_hash(f, r).len() > 0,
{
}

/// Durability: once a subtree is serialized, its hash reads back from the
/// store as the tree that the subtree stood for, and all that the store held
/// is held still. This needs the marshallers to read back what they write,
/// the references by hash in the subtree to be anchored, and the serializing
/// to go without a clash.
pub proof fn lemma_durable<K: View, V: View>(
    f: Frame<K::V, V::V>,
    r: NodeRef<K, V>,
    s: Map<Seq<u8>, Seq<u8>>,
    bound: nat,
)
    requires
        reads_back(f),
        tree_anchored(f, s, r),
        harmonious(f, r, s),
    ensures
        agree(s, written(f, r, s)),
        !(r is NoRef) ==> hash_shape(f, written(f, r, s), ref_hash(f, r), bound) == ref_shape(
            f,
            s,
            r,
            bound,
        ) && anchored(f, written(f, r, s), ref_hash(f, r), bound),
    decreases r,
{
    match r {
        NodeRef::MemRef(n) => {
            let h = ref_hash(f, r);
            let k = node_key(h);
            if n.is_hashed() && s.contains_key(k) {
                assert(hash_shape(f, s, h, bound) == ref_shape(f, s, r, bound) && anchored(
                    f,
                    s,
                    h,
                    bound,
                ));
            } else {
                let left = n.left_ref();
                let right = n.right_ref();
                let height = n.recorded_height();
                let s1 = written(f, left, s);
                let s2 = written(f, right, s1);
                let s3 = written(f, r, s);
                let rec = ref_record(f, r);
                assert(s3 == s2.insert(k, crate::codec::encoding(rec)));
                lemma_durable(f, left, s, height);
                lemma_ref_stable(f, s, s1, right, height);
                lemma_durable(f, right, s1, height);
                lemma_agree_insert(s2, k, crate::codec::encoding(rec));
                lemma_agree_trans(s1, s2, s3);
                lemma_agree_trans(s, s1, s3);
                lemma_named(f, left, s);
                lemma_named(f, right, s1);
                lemma_child_kept(f, left, s, s1, s3, height);
                lemma_child_kept(f, right, s1, s2, s3, height);
                crate::codec::lemma_round_trip(rec);
                assert(stored_in(f, s3, h) == (Stored::Record {
                    key: n.data.key@,
                    value: n.data.value@,
                    height: n.data.height,
                    rank: n.data.rank,
                    left: ref_hash(f, left),
                    right: ref_hash(f, right),
                }));
            }
        },
        _ => {},
    }
}

impl<K: View, V: View> TreeContext<K, V> {
    /// What a context with a store makes of a hash is what its store
    /// contents make of it.
    pub proof fn lemma_hash_shape(&self, h: Seq<u8>, bound: nat)
        requires
            self.store is Some,
        ensures
            self.resolve_hash(h, bound) == hash_shape(self.frame(), self.records(), h, bound),
            self.resolve_child(h, bound) == child_shape(self.frame(), self.records(), h, bound),
        decreases bound,
    {
        let ns = self.store->0;
        assert(ns.stored(h) == stored_in(self.frame(), self.records(), h));
        match ns.stored(h) {
            Stored::Record { height, left, right, .. } => {
                if height < bound {
                    self.lemma_hash_shape(left, height as nat);
                    self.lemma_hash_shape(right, height as nat);
                }
            },
            _ => {},
        }
    }

    /// What a context with a store makes of a reference is what its store
    /// contents make of it.
    pub proof fn lemma_ref_shape(&self, r: NodeRef<K, V>, bound: nat)
        requires
            self.store is Some,
        ensures
            self.resolve(r, bound) == ref_shape(self.frame(), self.records(), r, bound),
        decreases r,
    {
        match r {
            NodeRef::NoRef => {},
            NodeRef::HashRef(h) => {
                self.lemma_hash_shape(h@, bound);
            },
            NodeRef::MemRef(n) => {
                self.lemma_ref_shape(n.left_ref(), n.recorded_height());
                self.lemma_ref_shape(n.right_ref(), n.recorded_height());
            },
        }
    }

    /// Durability: where `after` is this context once the subtree `r` was
    /// serialized, and `out` the reference that came of it, `out` stands in
    /// `after` for the tree that `r` stands for here, and the store holds all
    /// that it held.
    pub proof fn lemma_commit_keeps_tree(
        &self,
        after: Self,
        r: NodeRef<K, V>,
        out: NodeRef<K, V>,
        bound: nat,
    )
        requires
            self.store is Some,
            keeps(*self, after),
            after.records() == written(self.frame(), r, self.records()),
            settled(self.frame(), r, out, true),
            reads_back(self.frame()),
            tree_anchored(self.frame(), self.records(), r),
            harmonious(self.frame(), r, self.records()),
        ensures
            after.resolve(out, bound) == self.resolve(r, bound),
            agree(self.records(), after.records()),
    {
        lemma_durable(self.frame(), r, self.records(), bound);
        self.lemma_ref_shape(r, bound);
        after.lemma_ref_shape(out, bound);
    }
}

} // verus!
