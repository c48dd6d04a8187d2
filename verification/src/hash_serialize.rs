//! Content hashes, and the node store that keeps records under them.

use crate::api::{Node, NodeData, NodeRef, NodeStore, TreeContext};
use crate::balance::share;
use crate::codec::{decode, encode, Record, RecordView};
use crate::store::StoreError;
use std::sync::Arc;
use vstd::prelude::*;

verus! {

/// The first byte of the store key of every node record.
pub const NODE_HASH_NODE_PREFIX: u8 = 0;

/// The hash by which a reference names its subtree: empty for no subtree and
/// for a node that has not been hashed yet.
pub open spec fn link_hash<K, V>(r: NodeRef<K, V>) -> Seq<u8> {
    match r {
        NodeRef::HashRef(h) => h@,
        NodeRef::MemRef(n) => match n.hash {
            Some(h) => h@,
            None => Seq::empty(),
        },
        NodeRef::NoRef => Seq::empty(),
    }
}

/// The store key of the record of the node with this hash.
pub fn node_hash__node__key(node_hash: &[u8]) -> (res: Vec<u8>)
    ensures
        res@ == crate::resolve::node_key(node_hash@),
{
    let mut res = Vec::new();
    res.push(NODE_HASH_NODE_PREFIX);
    res.extend_from_slice(node_hash);
    assert(res@ =~= crate::resolve::node_key(node_hash@));
    res
}

/// The reference that a stored child hash stands for.
pub fn read_node_ref<K, V>(hash: Vec<u8>) -> (r: NodeRef<K, V>)
    ensures
        crate::resolve::ref_is(r, hash@),
{
    if hash.len() == 0 {
        return NodeRef::NoRef;
    }
    NodeRef::HashRef(hash)
}

impl<K, V> NodeRef<K, V> {
    /// The hash by which this reference names its subtree.
    pub fn get_hash(&self) -> (h: Vec<u8>)
        ensures
            h@ == link_hash(*self),
    {
        match self {
            NodeRef::HashRef(h) => h.clone(),
            NodeRef::MemRef(node) => match &node.hash {
                Some(h) => h.clone(),
                None => Vec::new(),
            },
            NodeRef::NoRef => Vec::new(),
        }
    }
}

impl<K: View, V: View> NodeStore<K, V> {
    /// The record that is written for the node `n`.
    pub open spec fn record_of(&self, n: Node<K, V>) -> RecordView {
        RecordView {
            key: self.key_marshaller.bytes_of(n.data.key@),
            value: self.value_marshaller.bytes_of(n.data.value@),
            left: link_hash(n.left),
            right: link_hash(n.right),
            height: n.data.height,
            rank: n.data.rank,
        }
    }

    /// Reading what the marshallers wrote gives the key and the value back.
    pub open spec fn round_trips(&self) -> bool {
        &&& forall|k: K::V| #[trigger]
            self.key_marshaller.parse(self.key_marshaller.bytes_of(k)) == Some(k)
        &&& forall|v: V::V| #[trigger]
            self.value_marshaller.parse(self.value_marshaller.bytes_of(v)) == Some(v)
    }

    /// What reading finds under the hash of `n` once `n` was written there.
    pub open spec fn kept(n: Node<K, V>) -> crate::resolve::Stored<K::V, V::V> {
        crate::resolve::Stored::Record {
            key: n.data.key@,
            value: n.data.value@,
            height: n.data.height,
            rank: n.data.rank,
            left: link_hash(n.left),
            right: link_hash(n.right),
        }
    }

    /// Reading a record that was just written finds the node's key, value,
    /// height, rank and child hashes again, and what is under every other
    /// hash is as it was.
    pub proof fn lemma_written_is_read(before: Self, after: Self, hash: Seq<u8>, n: Node<K, V>)
        requires
            before.round_trips(),
            after.key_marshaller == before.key_marshaller,
            after.value_marshaller == before.value_marshaller,
            after.store.contents() == before.store.contents().insert(
                crate::resolve::node_key(hash),
                crate::codec::encoding(before.record_of(n)),
            ),
            before.record_of(n).key.len() <= u64::MAX,
            before.record_of(n).value.len() <= u64::MAX,
            link_hash(n.left).len() <= u64::MAX,
            link_hash(n.right).len() <= u64::MAX,
        ensures
            after.stored(hash) == Self::kept(n),
            forall|other: Seq<u8>| other != hash ==> after.stored(other) == before.stored(other),
    {
        crate::codec::lemma_round_trip(before.record_of(n));
        assert forall|other: Seq<u8>| other != hash implies after.stored(other) == before.stored(
            other,
        ) by {
            if crate::resolve::node_key(other) == crate::resolve::node_key(hash) {
                assert(other =~= crate::resolve::node_key(other).subrange(1, 1 + other.len() as int));
                assert(hash =~= crate::resolve::node_key(hash).subrange(1, 1 + hash.len() as int));
            }
        }
    }

    /// Reads the node stored under `hash`. The node comes back with its
    /// children by hash and, unless `hash` is empty, with `hash` as its own.
    /// A record that cannot be read is an `EncodingError`.
    pub fn get(&self, hash: &Vec<u8>) -> (r: Result<Option<Node<K, V>>, StoreError>)
        ensures
            match r {
                Ok(None) => self.stored(hash@) is Absent,
                Ok(Some(n)) => crate::resolve::node_is(n, self.stored(hash@), hash@),
                Err(e) => e is StorageError || (e == StoreError::EncodingError && self.stored(
                    hash@,
                ) is Corrupt),
            },
    {
        let found = self.store.get(&node_hash__node__key(hash.as_slice()))?;
        match found {
            None => Ok(None),
            Some(bytes) => {
                let rec = match decode(bytes.as_slice()) {
                    Some(rec) => rec,
                    None => {
                        return Err(StoreError::EncodingError);
                    },
                };
                let key = match self.key_marshaller.read(rec.key.as_slice()) {
                    Ok(key) => key,
                    Err(_) => {
                        return Err(StoreError::EncodingError);
                    },
                };
                let value = match self.value_marshaller.read(rec.value.as_slice()) {
                    Ok(value) => value,
                    Err(_) => {
                        return Err(StoreError::EncodingError);
                    },
                };
                let left: NodeRef<K, V> = read_node_ref(rec.left);
                let right: NodeRef<K, V> = read_node_ref(rec.right);
                let opt_hash = if hash.len() == 0 {
                    None
                } else {
                    Some(hash.clone())
                };
                Ok(
                    Some(
                        Node {
                            data: Arc::new(
                                NodeData { key, value, height: rec.height, rank: rec.rank },
                            ),
                            left,
                            right,
                            hash: opt_hash,
                        },
                    ),
                )
            },
        }
    }

    /// Whether there is a record under `hash`.
    pub fn has(&self, hash: &Vec<u8>) -> (r: Result<bool, StoreError>)
        ensures
            match r {
                Ok(found) => found == !(self.stored(hash@) is Absent),
                Err(e) => e is StorageError,
            },
    {
        self.store.has(&node_hash__node__key(hash.as_slice()))
    }

    /// Writes the record of `value` under the hash `key`.
    pub fn set(&mut self, key: &Vec<u8>, value: &Node<K, V>) -> (r: Result<(), StoreError>)
        ensures
            final(self).key_marshaller == old(self).key_marshaller,
            final(self).value_marshaller == old(self).value_marshaller,
            match r {
                Ok(_) => final(self).store.contents() == old(self).store.contents().insert(
                    crate::resolve::node_key(key@),
                    crate::codec::encoding(old(self).record_of(*value)),
                ),
                Err(e) => e is StorageError && final(self).store.contents() == old(
                    self,
                ).store.contents(),
            },
            old(self).round_trips() ==> (r is Ok ==> final(self).stored(key@) == Self::kept(
                *value,
            ) && (forall|other: Seq<u8>|
                other != key@ ==> final(self).stored(other) == old(self).stored(other))),
    {
        let ghost before = *self;
        let data = &value.data;
        let record = Record {
            key: self.key_marshaller.write(&data.key),
            value: self.value_marshaller.write(&data.value),
            left: value.left.get_hash(),
            right: value.right.get_hash(),
            height: data.height,
            rank: data.rank,
        };
        let bytes = encode(&record);
        let r = self.store.set(&node_hash__node__key(key.as_slice()), &bytes);
        proof {
            if before.round_trips() && r is Ok {
                assert(record@ == before.record_of(*value));
                assert(record.key.len() <= usize::MAX && record.value.len() <= usize::MAX);
                assert(record.left.len() <= usize::MAX && record.right.len() <= usize::MAX);
                Self::lemma_written_is_read(before, *self, key@, *value);
            }
        }
        r
    }

    /// Removes the record under the hash `key`.
    pub fn delete(&mut self, key: &Vec<u8>) -> (r: Result<(), StoreError>)
        ensures
            final(self).key_marshaller == old(self).key_marshaller,
            final(self).value_marshaller == old(self).value_marshaller,
            match r {
                Ok(_) => final(self).store.contents() == old(self).store.contents().remove(
                    crate::resolve::node_key(key@),
                ),
                Err(e) => e is StorageError && final(self).store.contents() == old(
                    self,
                ).store.contents(),
            },
    {
        self.store.delete(&node_hash__node__key(key.as_slice()))
    }
}

/// What hashing and serializing read of a context and never change: how keys
/// and values become canonical bytes, the digest, and how the store's
/// marshallers write and read keys and values.
#[verifier::reject_recursive_types(KV)]
#[verifier::reject_recursive_types(VV)]
pub struct Frame<KV, VV> {
    pub key_bytes: spec_fn(KV) -> Seq<u8>,
    pub value_bytes: spec_fn(VV) -> Seq<u8>,
    pub digest: spec_fn(Seq<u8>) -> Seq<u8>,
    pub key_record: spec_fn(KV) -> Seq<u8>,
    pub value_record: spec_fn(VV) -> Seq<u8>,
    pub key_read: spec_fn(Seq<u8>) -> Option<KV>,
    pub value_read: spec_fn(Seq<u8>) -> Option<VV>,
}

/// What is hashed for a node: the canonical bytes of its key and of its
/// value, then the hashes of its left and of its right subtree.
pub open spec fn preimage<K: View, V: View>(f: Frame<K::V, V::V>, n: Node<K, V>) -> Seq<u8>
    decreases n, 0nat,
{
    (f.key_bytes)(n.data.key@) + (f.value_bytes)(n.data.value@) + ref_hash(f, n.left) + ref_hash(
        f,
        n.right,
    )
}

/// The hash of a node: the one it carries, or else the digest of its
/// preimage.
pub open spec fn node_hash<K: View, V: View>(f: Frame<K::V, V::V>, n: Node<K, V>) -> Seq<u8>
    decreases n, 1nat,
{
    match n.hash {
        Some(h) => h@,
        None => (f.digest)(preimage(f, n)),
    }
}

/// The hash of a subtree; the empty hash for no subtree.
pub open spec fn ref_hash<K: View, V: View>(f: Frame<K::V, V::V>, r: NodeRef<K, V>) -> Seq<u8>
    decreases r, 2nat,
{
    match r {
        NodeRef::HashRef(h) => h@,
        NodeRef::MemRef(n) => node_hash(f, *n),
        NodeRef::NoRef => Seq::empty(),
    }
}

/// The record that is stored for a node: its key and value as the store's
/// marshallers write them, and its children as their hashes.
pub open spec fn record<K: View, V: View>(f: Frame<K::V, V::V>, n: Node<K, V>) -> RecordView {
    RecordView {
        key: (f.key_record)(n.data.key@),
        value: (f.value_record)(n.data.value@),
        left: ref_hash(f, n.left),
        right: ref_hash(f, n.right),
        height: n.data.height,
        rank: n.data.rank,
    }
}

/// The contents `s` of the store once the node `n` is serialized into it:
/// nothing changes where `n` carries a hash that has a record already; else
/// the children are serialized, the left one first, and then the record of `n`
/// is put under its hash.
pub open spec fn node_written<K: View, V: View>(
    f: Frame<K::V, V::V>,
    n: Node<K, V>,
    s: Map<Seq<u8>, Seq<u8>>,
) -> Map<Seq<u8>, Seq<u8>>
    decreases n, 0nat,
{
    if n.hash is Some && s.contains_key(crate::resolve::node_key(node_hash(f, n))) {
        s
    } else {
        written(f, n.right, written(f, n.left, s)).insert(
            crate::resolve::node_key(node_hash(f, n)),
            crate::codec::encoding(record(f, n)),
        )
    }
}

/// The contents `s` of the store once the subtree `r` is serialized into it.
/// Only what is in memory is serialized.
pub open spec fn written<K: View, V: View>(
    f: Frame<K::V, V::V>,
    r: NodeRef<K, V>,
    s: Map<Seq<u8>, Seq<u8>>,
) -> Map<Seq<u8>, Seq<u8>>
    decreases r, 1nat,
{
    match r {
        NodeRef::MemRef(n) => node_written(f, *n, s),
        _ => s,
    }
}

/// `b` is the subtree `a` with every hash filled in: nodes that carried a
/// hash are the same nodes, the others are copies that carry theirs.
pub open spec fn hashed<K: View, V: View>(
    f: Frame<K::V, V::V>,
    a: NodeRef<K, V>,
    b: NodeRef<K, V>,
) -> bool
    decreases a,
{
    match a {
        NodeRef::NoRef => b is NoRef,
        NodeRef::HashRef(h) => b matches NodeRef::HashRef(g) && g@ == h@,
        NodeRef::MemRef(n) => b matches NodeRef::MemRef(m) && (if n.hash is Some {
            m == n
        } else {
            &&& m.data == n.data
            &&& m.hash matches Some(h) && h@ == node_hash(f, *n)
            &&& hashed(f, n.left, m.left)
            &&& hashed(f, n.right, m.right)
        }),
    }
}

/// `b` is what stands for the subtree `a` after hashing it: the hashed copy
/// in memory, or, after serializing, the hash alone.
pub open spec fn settled<K: View, V: View>(
    f: Frame<K::V, V::V>,
    a: NodeRef<K, V>,
    b: NodeRef<K, V>,
    serialize: bool,
) -> bool {
    if serialize {
        match a {
            NodeRef::NoRef => b is NoRef,
            _ => b matches NodeRef::HashRef(g) && g@ == ref_hash(f, a),
        }
    } else {
        hashed(f, a, b)
    }
}

impl<K: View, V: View> TreeContext<K, V> {
    /// What hashing and serializing read of the context.
    pub open spec fn frame(&self) -> Frame<K::V, V::V> {
        Frame {
            key_bytes: |k: K::V| self.key_to_canonical_bytes.bytes_of(k),
            value_bytes: |v: V::V| self.value_to_canonical_bytes.bytes_of(v),
            digest: |d: Seq<u8>| self.new_digest.digest(d),
            key_record: |k: K::V|
                match self.store {
                    Some(ns) => ns.key_marshaller.bytes_of(k),
                    None => Seq::empty(),
                },
            value_record: |v: V::V|
                match self.store {
                    Some(ns) => ns.value_marshaller.bytes_of(v),
                    None => Seq::empty(),
                },
            key_read: |b: Seq<u8>|
                match self.store {
                    Some(ns) => ns.key_marshaller.parse(b),
                    None => None,
                },
            value_read: |b: Seq<u8>|
                match self.store {
                    Some(ns) => ns.value_marshaller.parse(b),
                    None => None,
                },
        }
    }

    /// What the store holds; nothing where there is no store.
    pub open spec fn records(&self) -> Map<Seq<u8>, Seq<u8>> {
        match self.store {
            Some(ns) => ns.store.contents(),
            None => Map::empty(),
        }
    }

    /// The content hash of a subtree.
    pub open spec fn hash_of(&self, r: NodeRef<K, V>) -> Seq<u8> {
        ref_hash(self.frame(), r)
    }
}

/// The context `after` is the context `before` but for what its store holds.
pub open spec fn keeps<K: View, V: View>(
    before: TreeContext<K, V>,
    after: TreeContext<K, V>,
) -> bool {
    &&& after.frame() == before.frame()
    &&& after.comparator == before.comparator
    &&& after.store is Some == before.store is Some
}

/// What a reference becomes by hashing: the new reference where there is one,
/// else the reference itself.
pub open spec fn outcome<K, V>(r: NodeRef<K, V>, o: Option<NodeRef<K, V>>) -> NodeRef<K, V> {
    match o {
        Some(b) => b,
        None => r,
    }
}

impl<K: View, V: View> TreeContext<K, V> {
    /// The digest of a node's preimage, given the hashes of its subtrees.
    pub fn digest_node(&self, n: &Node<K, V>, left_hash: &Vec<u8>, right_hash: &Vec<u8>) -> (h:
        Vec<u8>)
        ensures
            h@ == self.new_digest.digest(
                self.key_to_canonical_bytes.bytes_of(n.data.key@)
                    + self.value_to_canonical_bytes.bytes_of(n.data.value@) + left_hash@
                    + right_hash@,
            ),
    {
        let key_bytes = self.key_to_canonical_bytes.write(&n.data.key);
        let value_bytes = self.value_to_canonical_bytes.write(&n.data.value);
        let mut d = self.new_digest.new_digest();
        d.hasher.input(key_bytes.as_slice());
        d.hasher.input(value_bytes.as_slice());
        d.hasher.input(left_hash.as_slice());
        d.hasher.input(right_hash.as_slice());
        assert(d.hasher.absorbed() =~= key_bytes@ + value_bytes@ + left_hash@ + right_hash@);
        d.hasher.result()
    }

    /// Whether the store has a record under `hash`.
    pub fn has_record(&self, hash: &Vec<u8>) -> (r: Result<bool, StoreError>)
        ensures
            match r {
                Ok(found) => self.store is Some && found == self.records().contains_key(
                    crate::resolve::node_key(hash@),
                ),
                Err(e) => match self.store {
                    None => e == StoreError::MissingStore,
                    Some(_) => e is StorageError,
                },
            },
    {
        self.get_store()?.has(hash)
    }

    /// Puts the record of `n` under `hash`.
    pub fn put_record(&mut self, hash: &Vec<u8>, n: &Node<K, V>) -> (r: Result<(), StoreError>)
        ensures
            keeps(*old(self), *final(self)),
            old(self).records().dom().subset_of(final(self).records().dom()),
            match r {
                Ok(_) => {
                    &&& old(self).store matches Some(ns)
                    &&& final(self).records() == old(self).records().insert(
                        crate::resolve::node_key(hash@),
                        crate::codec::encoding(ns.record_of(*n)),
                    )
                },
                Err(e) => match old(self).store {
                    None => e == StoreError::MissingStore,
                    Some(_) => e is StorageError,
                },
            },
    {
        let ghost before = *self;
        let store = self.get_store_mut()?;
        let r = store.set(hash, n);
        proof {
            assert(self.frame().key_bytes =~= before.frame().key_bytes);
            assert(self.frame().value_bytes =~= before.frame().value_bytes);
            assert(self.frame().digest =~= before.frame().digest);
            assert(self.frame().key_record =~= before.frame().key_record);
            assert(self.frame().value_record =~= before.frame().value_record);
            assert(self.frame().key_read =~= before.frame().key_read);
            assert(self.frame().value_read =~= before.frame().value_read);
        }
        r
    }
}

/// What stands for a subtree after hashing carries the subtree's hash, and so
/// does every other reference to the same.
pub proof fn lemma_settled<K: View, V: View>(
    f: Frame<K::V, V::V>,
    a: NodeRef<K, V>,
    b: NodeRef<K, V>,
    c: NodeRef<K, V>,
    serialize: bool,
)
    requires
        settled(f, a, b, serialize),
        crate::balance::same_ref(b, c),
    ensures
        settled(f, a, c, serialize),
        link_hash(c) == ref_hash(f, a),
        ref_hash(f, c) == ref_hash(f, a),
{
}

/// Hashes the subtree `child` and gives the reference that stands for it from
/// then on, with whether that is a new one.
pub fn settle<K: View, V: View>(
    child: &NodeRef<K, V>,
    ctx: &mut TreeContext<K, V>,
    serialize: bool,
) -> (r: Result<(NodeRef<K, V>, bool), StoreError>)
    ensures
        keeps(*old(ctx), *final(ctx)),
        old(ctx).records().dom().subset_of(final(ctx).records().dom()),
        !serialize ==> *final(ctx) == *old(ctx),
        match r {
            Ok((b, changed)) => {
                &&& serialize ==> final(ctx).records() == written(old(ctx).frame(), 
                    *child,
                    old(ctx).records(),
                )
                &&& serialize && child is MemRef ==> old(ctx).store is Some
                &&& settled(old(ctx).frame(), *child, b, serialize)
                &&& link_hash(b) == ref_hash(old(ctx).frame(), *child)
                &&& serialize ==> (changed <==> child is MemRef)
            },
            Err(e) => serialize && child is MemRef && match old(ctx).store {
                None => e == StoreError::MissingStore,
                Some(_) => e is StorageError,
            },
        },
    decreases child, 2nat,
{
    let ghost frame = ctx.frame();
    match child.calc_hash_serialize(ctx, serialize)? {
        Some(b) => {
            proof {
                lemma_settled(frame, *child, b, b, serialize);
            }
            Ok((b, true))
        },
        None => {
            let b = child.clone();
            proof {
                lemma_settled(frame, *child, *child, b, serialize);
            }
            Ok((b, false))
        },
    }
}

impl<K: View, V: View> Node<K, V> {
    /// Gives the node its hash, after its subtrees. With `serialize`, what is
    /// in memory below the node is written to the store as well, subtrees
    /// first, and a node that carries a hash with a record in the store is
    /// taken to be there with all below it. The result is the node that takes
    /// this one's place, or nothing where this one can stay.
    pub fn calc_hash_serialize(&self, ctx: &mut TreeContext<K, V>, serialize: bool) -> (r: Result<
        Option<Self>,
        StoreError,
    >)
        ensures
            keeps(*old(ctx), *final(ctx)),
            old(ctx).records().dom().subset_of(final(ctx).records().dom()),
            !serialize ==> *final(ctx) == *old(ctx),
            match r {
                Ok(o) => {
                    &&& serialize ==> old(ctx).store is Some && final(ctx).records()
                        == node_written(old(ctx).frame(), *self, old(ctx).records())
                    &&& match o {
                        None => self.hash is Some,
                        Some(n) => {
                            &&& n.data == self.data
                            &&& n.hash matches Some(h) && h@ == node_hash(old(ctx).frame(), *self)
                            &&& settled(old(ctx).frame(), self.left, n.left, serialize)
                            &&& settled(old(ctx).frame(), self.right, n.right, serialize)
                        },
                    }
                    &&& !serialize ==> (o is None <==> self.hash is Some)
                    &&& serialize ==> (o is None <==> self.hash is Some && (old(
                        ctx,
                    ).records().contains_key(
                        crate::resolve::node_key(node_hash(old(ctx).frame(), *self)),
                    ) || (!(self.left is MemRef) && !(self.right is MemRef))))
                },
                Err(e) => serialize && match old(ctx).store {
                    None => e == StoreError::MissingStore,
                    Some(_) => e is StorageError,
                },
            },
        decreases self, 0nat,
    {
        let ghost frame = ctx.frame();
        let ghost s0 = ctx.records();
        if let Some(h) = &self.hash {
            if !serialize {
                return Ok(None);
            }
            if ctx.has_record(h)? {
                return Ok(None);
            }
            let (new_left, left_changed) = settle(&self.left, ctx, serialize)?;
            let (new_right, right_changed) = settle(&self.right, ctx, serialize)?;
            let ghost s2 = ctx.records();
            assert(s2 == written(frame, self.right, written(frame, self.left, s0)));
            if left_changed || right_changed {
                let new_node = Node {
                    data: share(&self.data),
                    left: new_left,
                    right: new_right,
                    hash: Some(h.clone()),
                };
                proof {
                    assert(ctx.frame() == frame);
                    assert(ctx.store is Some);
                    assert(link_hash(new_node.left) == ref_hash(frame, self.left));
                    assert(link_hash(new_node.right) == ref_hash(frame, self.right));
                    assert(ctx.store->0.record_of(new_node) == record(frame, *self));
                }
                ctx.put_record(h, &new_node)?;
                return Ok(Some(new_node));
            } else {
                proof {
                    assert(link_hash(self.left) == ref_hash(frame, self.left));
                    assert(link_hash(self.right) == ref_hash(frame, self.right));
                    assert(ctx.store->0.record_of(*self) == record(frame, *self));
                }
                ctx.put_record(h, self)?;
                return Ok(None);
            }
        }
        let (new_left, _) = settle(&self.left, ctx, serialize)?;
        let (new_right, _) = settle(&self.right, ctx, serialize)?;
        let ghost s2 = ctx.records();
        let left_hash = new_left.get_hash();
        let right_hash = new_right.get_hash();
        let hash = ctx.digest_node(self, &left_hash, &right_hash);
        proof {
            assert(ctx.frame() == frame);
            assert(left_hash@ == ref_hash(frame, self.left));
            assert(right_hash@ == ref_hash(frame, self.right));
            assert(hash@ == (frame.digest)(preimage(frame, *self)));
            assert(hash@ == node_hash(frame, *self));
        }
        let new_node = Node {
            data: share(&self.data),
            left: new_left,
            right: new_right,
            hash: Some(hash.clone()),
        };
        if serialize {
            proof {
                assert(s2 == written(frame, self.right, written(frame, self.left, s0)));
                assert(ctx.store is Some ==> ctx.store->0.record_of(new_node) == record(frame, 
                    *self,
                ));
            }
            ctx.put_record(&hash, &new_node)?;
        }
        Ok(Some(new_node))
    }
}

impl<K: View, V: View> NodeRef<K, V> {
    /// Hashes the subtree and, with `serialize`, writes what is in memory of
    /// it to the store. The result is the reference that takes this one's
    /// place: after serializing the hash alone, else the hashed copy; or
    /// nothing where this one can stay.
    pub fn calc_hash_serialize(&self, ctx: &mut TreeContext<K, V>, serialize: bool) -> (r: Result<
        Option<NodeRef<K, V>>,
        StoreError,
    >)
        ensures
            keeps(*old(ctx), *final(ctx)),
            old(ctx).records().dom().subset_of(final(ctx).records().dom()),
            !serialize ==> *final(ctx) == *old(ctx),
            match r {
                Ok(o) => {
                    &&& serialize ==> final(ctx).records() == written(old(ctx).frame(), 
                        *self,
                        old(ctx).records(),
                    )
                    &&& serialize && self is MemRef ==> old(ctx).store is Some
                    &&& settled(old(ctx).frame(), *self, outcome(*self, o), serialize)
                    &&& link_hash(outcome(*self, o)) == old(ctx).hash_of(*self)
                    &&& o is None <==> (if serialize {
                        !(self is MemRef)
                    } else {
                        self matches NodeRef::MemRef(n) ==> n.hash is Some
                    })
                },
                Err(e) => serialize && self is MemRef && match old(ctx).store {
                    None => e == StoreError::MissingStore,
                    Some(_) => e is StorageError,
                },
            },
            serialize && r is Ok && crate::durable::reads_back(old(ctx).frame())
                && crate::durable::tree_anchored(old(ctx).frame(), old(ctx).records(), *self)
                && crate::durable::harmonious(old(ctx).frame(), *self, old(ctx).records())
                ==> forall|b: nat|
                #[trigger] final(ctx).resolve(outcome(*self, r->Ok_0), b) == old(ctx).resolve(
                    *self,
                    b,
                ),
            !serialize && r is Ok ==> forall|b: nat|
                #[trigger] final(ctx).resolve(outcome(*self, r->Ok_0), b) == old(ctx).resolve(
                    *self,
                    b,
                ),
            !(self is MemRef) ==> *final(ctx) == *old(ctx),
        decreases self, 1nat,
    {
        let ghost before = *ctx;
        let ghost me = *self;
        let r = self.calc_hash_serialize_inner(ctx, serialize);
        proof {
            if serialize && r is Ok && me is MemRef && crate::durable::reads_back(before.frame())
                && crate::durable::tree_anchored(before.frame(), before.records(), me)
                && crate::durable::harmonious(before.frame(), me, before.records()) {
                let out = outcome(me, r->Ok_0);
                assert forall|b: nat| #[trigger] ctx.resolve(out, b) == before.resolve(me, b) by {
                    before.lemma_commit_keeps_tree(*ctx, me, out, b);
                }
            }
            if !serialize && r is Ok {
                let out = outcome(me, r->Ok_0);
                assert forall|b: nat| #[trigger] ctx.resolve(out, b) == before.resolve(me, b) by {
                    before.lemma_hashed_shape(me, out, b);
                }
            }
        }
        r
    }

    /// Commits the subtree: writes what is in memory of it to the store and
    /// gives the reference that stands for it from then on, which is its hash
    /// alone, or no reference for no subtree.
    pub fn commit(&self, ctx: &mut TreeContext<K, V>) -> (r: Result<NodeRef<K, V>, StoreError>)
        ensures
            keeps(*old(ctx), *final(ctx)),
            old(ctx).records().dom().subset_of(final(ctx).records().dom()),
            match r {
                Ok(out) => {
                    &&& final(ctx).records() == written(
                        old(ctx).frame(),
                        *self,
                        old(ctx).records(),
                    )
                    &&& settled(old(ctx).frame(), *self, out, true)
                    &&& link_hash(out) == old(ctx).hash_of(*self)
                    &&& crate::durable::reads_back(old(ctx).frame())
                        && crate::durable::tree_anchored(
                        old(ctx).frame(),
                        old(ctx).records(),
                        *self,
                    ) && crate::durable::harmonious(old(ctx).frame(), *self, old(ctx).records())
                        ==> forall|b: nat|
                        #[trigger] final(ctx).resolve(out, b) == old(ctx).resolve(*self, b)
                },
                Err(e) => self is MemRef && match old(ctx).store {
                    None => e == StoreError::MissingStore,
                    Some(_) => e is StorageError,
                },
            },
    {
        let ghost frame = ctx.frame();
        let ghost before = *ctx;
        match self.calc_hash_serialize(ctx, true)? {
            Some(out) => Ok(out),
            None => {
                let out = self.clone();
                proof {
                    lemma_settled(frame, *self, *self, out, true);
                    assert forall|b: nat| #[trigger] ctx.resolve(out, b) == before.resolve(
                        *self,
                        b,
                    ) by {
                        ctx.lemma_same_ref(*self, out, b);
                    }
                }
                Ok(out)
            },
        }
    }

    /// The work of [`Self::calc_hash_serialize`].
    fn calc_hash_serialize_inner(&self, ctx: &mut TreeContext<K, V>, serialize: bool) -> (r: Result<
        Option<NodeRef<K, V>>,
        StoreError,
    >)
        ensures
            keeps(*old(ctx), *final(ctx)),
            old(ctx).records().dom().subset_of(final(ctx).records().dom()),
            !serialize ==> *final(ctx) == *old(ctx),
            !(self is MemRef) ==> *final(ctx) == *old(ctx),
            match r {
                Ok(o) => {
                    &&& serialize ==> final(ctx).records() == written(
                        old(ctx).frame(),
                        *self,
                        old(ctx).records(),
                    )
                    &&& serialize && self is MemRef ==> old(ctx).store is Some
                    &&& settled(old(ctx).frame(), *self, outcome(*self, o), serialize)
                    &&& link_hash(outcome(*self, o)) == old(ctx).hash_of(*self)
                    &&& o is None <==> (if serialize {
                        !(self is MemRef)
                    } else {
                        self matches NodeRef::MemRef(n) ==> n.hash is Some
                    })
                },
                Err(e) => serialize && self is MemRef && match old(ctx).store {
                    None => e == StoreError::MissingStore,
                    Some(_) => e is StorageError,
                },
            },
        decreases self, 0nat,
    {
        match self {
            NodeRef::HashRef(_) => Ok(None),
            NodeRef::NoRef => Ok(None),
            NodeRef::MemRef(node) => {
                match node.calc_hash_serialize(ctx, serialize)? {
                    Some(new_node) => {
                        if serialize {
                            let hash = match &new_node.hash {
                                Some(h) => h.clone(),
                                None => Vec::new(),
                            };
                            Ok(Some(NodeRef::HashRef(hash)))
                        } else {
                            Ok(Some(NodeRef::MemRef(Arc::new(new_node))))
                        }
                    },
                    None => {
                        if serialize {
                            let hash = match &node.hash {
                                Some(h) => h.clone(),
                                None => Vec::new(),
                            };
                            Ok(Some(NodeRef::HashRef(hash)))
                        } else {
                            Ok(None)
                        }
                    },
                }
            },
        }
    }
}

/// The content hash of a tree: nothing has the empty hash, and a node the
/// digest of its key's and its value's canonical bytes followed by the hashes
/// of its left and of its right subtree.
pub open spec fn merkle<KV, VV>(f: Frame<KV, VV>, s: crate::shape::Shape<KV, VV>) -> Seq<u8>
    decreases s,
{
    match s {
        crate::shape::Shape::Fork { left, key, value, right, .. } => (f.digest)(
            (f.key_bytes)(key) + (f.value_bytes)(value) + merkle(f, *left) + merkle(f, *right),
        ),
        _ => Seq::empty(),
    }
}

/// The subtree is in memory and every hash that a node of it carries is the
/// hash that hashing the node would give.
pub open spec fn sound<K: View, V: View>(f: Frame<K::V, V::V>, r: NodeRef<K, V>) -> bool
    decreases r,
{
    match r {
        NodeRef::NoRef => true,
        NodeRef::HashRef(_) => false,
        NodeRef::MemRef(n) => {
            &&& sound(f, n.left)
            &&& sound(f, n.right)
            &&& n.hash matches Some(h) ==> h@ == (f.digest)(preimage(f, *n))
        },
    }
}

/// No fault anywhere in the tree.
pub open spec fn whole<KV, VV>(s: crate::shape::Shape<KV, VV>) -> bool
    decreases s,
{
    match s {
        crate::shape::Shape::Empty => true,
        crate::shape::Shape::Fault(_) => false,
        crate::shape::Shape::Fork { left, right, .. } => whole(*left) && whole(*right),
    }
}

impl<K: View, V: View> TreeContext<K, V> {
    /// The hash of a sound subtree is the content hash of the tree that it
    /// stands for: it depends on the keys, the values and the shape alone.
    pub proof fn lemma_hash_is_merkle(&self, r: NodeRef<K, V>, bound: nat)
        requires
            sound(self.frame(), r),
            whole(self.resolve(r, bound)),
        ensures
            ref_hash(self.frame(), r) == merkle(self.frame(), self.resolve(r, bound)),
        decreases r,
    {
        match r {
            NodeRef::MemRef(n) => {
                self.lemma_hash_is_merkle(n.left_ref(), n.recorded_height());
                self.lemma_hash_is_merkle(n.right_ref(), n.recorded_height());
            },
            _ => {},
        }
    }

    /// Filling in the hashes of a subtree does not change the tree that it
    /// stands for.
    pub proof fn lemma_hashed_shape(&self, a: NodeRef<K, V>, b: NodeRef<K, V>, bound: nat)
        requires
            hashed(self.frame(), a, b),
        ensures
            self.resolve(b, bound) == self.resolve(a, bound),
            ref_hash(self.frame(), b) == ref_hash(self.frame(), a),
        decreases a,
    {
        match a {
            NodeRef::MemRef(n) => {
                if !n.is_hashed() {
                    let m = b->MemRef_0;
                    self.lemma_hashed_shape(n.left_ref(), m.left_ref(), n.recorded_height());
                    self.lemma_hashed_shape(n.right_ref(), m.right_ref(), n.recorded_height());
                }
            },
            _ => {},
        }
    }
}

impl<K: View, V: View> NodeRef<K, V> {
    /// The hash of the subtree, worked out without changing anything.
    pub fn hash(&self, ctx: &TreeContext<K, V>) -> (h: Vec<u8>)
        ensures
            h@ == ctx.hash_of(*self),
        decreases self,
    {
        match self {
            NodeRef::HashRef(h) => h.clone(),
            NodeRef::NoRef => Vec::new(),
            NodeRef::MemRef(node) => match &node.hash {
                Some(h) => h.clone(),
                None => {
                    let left = node.left.hash(ctx);
                    let right = node.right.hash(ctx);
                    ctx.digest_node(node, &left, &right)
                },
            },
        }
    }
}

/// A subtree without hashes is sound, whatever the frame.
pub proof fn lemma_fresh_sound<K: View, V: View>(f: Frame<K::V, V::V>, r: NodeRef<K, V>)
    requires
        crate::resolve::fresh(r),
    ensures
        sound(f, r),
    decreases r,
{
    match r {
        NodeRef::MemRef(n) => {
            lemma_fresh_sound(f, n.left_ref());
            lemma_fresh_sound(f, n.right_ref());
        },
        _ => {},
    }
}

/// A balanced tree has no fault in it.
pub proof fn lemma_balanced_whole<KV, VV>(s: crate::shape::Shape<KV, VV>)
    requires
        s.balanced(),
    ensures
        whole(s),
    decreases s,
{
    match s {
        crate::shape::Shape::Fork { left, right, .. } => {
            lemma_balanced_whole(*left);
            lemma_balanced_whole(*right);
        },
        _ => {},
    }
}

/// The more the store holds, the fewer nodes are unsaved.
pub proof fn lemma_unsaved_shrinks<K, V>(
    r: NodeRef<K, V>,
    s: Map<Seq<u8>, Seq<u8>>,
    t: Map<Seq<u8>, Seq<u8>>,
)
    requires
        s.dom().subset_of(t.dom()),
    ensures
        crate::resolve::unsaved(r, t) <= crate::resolve::unsaved(r, s),
    decreases r,
{
    match r {
        NodeRef::MemRef(n) => {
            lemma_unsaved_shrinks(n.left_ref(), s, t);
            lemma_unsaved_shrinks(n.right_ref(), s, t);
        },
        _ => {},
    }
}

/// Serializing a subtree keeps every record that the store holds and adds
/// one record at most for each unsaved node: what has a record is not written
/// again.
pub proof fn lemma_written_few<K: View, V: View>(
    f: Frame<K::V, V::V>,
    r: NodeRef<K, V>,
    s: Map<Seq<u8>, Seq<u8>>,
)
    requires
        s.dom().finite(),
    ensures
        s.dom().subset_of(written(f, r, s).dom()),
        written(f, r, s).dom().finite(),
        written(f, r, s).dom().len() <= s.dom().len() + crate::resolve::unsaved(r, s),
    decreases r,
{
    match r {
        NodeRef::MemRef(n) => {
            let key = crate::resolve::node_key(ref_hash(f, r));
            if !(n.is_hashed() && s.contains_key(key)) {
                let s1 = written(f, n.left_ref(), s);
                lemma_written_few(f, n.left_ref(), s);
                let s2 = written(f, n.right_ref(), s1);
                lemma_written_few(f, n.right_ref(), s1);
                lemma_unsaved_shrinks(n.right_ref(), s, s1);
                let s3 = written(f, r, s);
                assert(s3.dom() =~= s2.dom().insert(key));
            }
        },
        _ => {},
    }
}

} // verus!
