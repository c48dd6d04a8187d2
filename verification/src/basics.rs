//! Parts to assemble a context from: an order on numbers, marshallers for
//! numbers and for plain bytes, BLAKE2b as the digest, and a store in memory.

use crate::api::{
    Comparator, Digest, DigestFactory, Hasher, Marshaller, NodeStore, Reader, TreeContext, Writer,
};
use crate::store::{MutableMap, ReadableMap, StoreError};
use std::cmp::Ordering;
use vstd::bytes::{
    lemma_auto_spec_u64_to_from_le_bytes, spec_u64_from_le_bytes, spec_u64_to_le_bytes,
    u64_from_le_bytes, u64_to_le_bytes,
};
use vstd::prelude::*;

verus! {

/// Numbers in their natural order.
pub struct NaturalOrder;

impl Comparator<u64> for NaturalOrder {
    open spec fn le(&self, a: u64, b: u64) -> bool {
        a <= b
    }

    fn compare(&self, a: &u64, b: &u64) -> (o: Ordering) {
        if *a < *b {
            Ordering::Less
        } else if *a == *b {
            Ordering::Equal
        } else {
            Ordering::Greater
        }
    }
}

/// The natural order is a total order.
pub proof fn lemma_natural_order(order: NaturalOrder)
    ensures
        vstd::relations::total_ordering(|a: u64, b: u64| order.le(a, b)),
{
}

/// A number as its eight bytes, lowest first.
pub struct LittleEndian;

impl Writer<u64> for LittleEndian {
    open spec fn bytes_of(&self, v: u64) -> Seq<u8> {
        spec_u64_to_le_bytes(v)
    }

    fn write(&self, k: &u64) -> (out: Vec<u8>) {
        u64_to_le_bytes(*k)
    }
}

impl Reader<u64> for LittleEndian {
    open spec fn parse(&self, buf: Seq<u8>) -> Option<u64> {
        if buf.len() == 8 {
            Some(spec_u64_from_le_bytes(buf))
        } else {
            None
        }
    }

    fn read(&self, buf: &[u8]) -> (r: Result<u64, StoreError>) {
        if buf.len() == 8 {
            Ok(u64_from_le_bytes(buf))
        } else {
            Err(StoreError::EncodingError)
        }
    }
}

impl Marshaller<u64> for LittleEndian {

}

/// Reading the eight bytes of a number gives the number back.
pub proof fn lemma_little_endian(m: LittleEndian, v: u64)
    ensures
        m.parse(m.bytes_of(v)) == Some(v),
{
    lemma_auto_spec_u64_to_from_le_bytes();
}

/// Bytes as they are.
pub struct Plain;

impl Writer<Vec<u8>> for Plain {
    open spec fn bytes_of(&self, v: Seq<u8>) -> Seq<u8> {
        v
    }

    fn write(&self, k: &Vec<u8>) -> (out: Vec<u8>) {
        k.clone()
    }
}

impl Reader<Vec<u8>> for Plain {
    open spec fn parse(&self, buf: Seq<u8>) -> Option<Seq<u8>> {
        Some(buf)
    }

    fn read(&self, buf: &[u8]) -> (r: Result<Vec<u8>, StoreError>) {
        Ok(vstd::slice::slice_to_vec(buf))
    }
}

impl Marshaller<Vec<u8>> for Plain {

}

/// The BLAKE2b digest of 512 bits of a byte string.
pub uninterp spec fn blake2b(data: Seq<u8>) -> Seq<u8>;

/// `blake2::Blake2b512::digest`: the BLAKE2b digest of the bytes, which has 64
/// bytes.
#[verifier::external_body]
fn blake2b_of(data: &Vec<u8>) -> (out: Vec<u8>)
    ensures
        out@ == blake2b(data@),
        out@.len() == 64,
{
    <blake2::Blake2b512 as blake2::Digest>::digest(data.as_slice()).to_vec()
}

/// A BLAKE2b hasher. It keeps what it has taken in and hashes at the end.
pub struct Blake2b {
    taken: Vec<u8>,
}

impl Blake2b {
    /// A hasher that has taken in nothing.
    pub fn new() -> (h: Self)
        ensures
            h.absorbed() == Seq::<u8>::empty(),
    {
        Blake2b { taken: Vec::new() }
    }
}

impl Hasher for Blake2b {
    closed spec fn absorbed(&self) -> Seq<u8> {
        self.taken@
    }

    open spec fn digest(&self, data: Seq<u8>) -> Seq<u8> {
        blake2b(data)
    }

    open spec fn output_len(&self) -> nat {
        64
    }

    fn input(&mut self, bytes: &[u8]) {
        let ghost before = self.taken@;
        self.taken.extend_from_slice(bytes);
        assert(self.taken@ =~= before + bytes@);
    }

    fn result(&self) -> (out: Vec<u8>) {
        blake2b_of(&self.taken)
    }

    fn output_size(&self) -> (n: usize) {
        64
    }
}

/// Makes BLAKE2b hashers.
pub struct Blake2bFactory;

impl DigestFactory for Blake2bFactory {
    open spec fn digest(&self, data: Seq<u8>) -> Seq<u8> {
        blake2b(data)
    }

    fn new_digest(&self) -> (d: Digest) {
        Digest { hasher: Box::new(Blake2b::new()) }
    }
}

/// The value that the pairs hold under `k`: that of the last pair with this
/// key.
pub open spec fn latest(s: Seq<(Vec<u8>, Vec<u8>)>, k: Seq<u8>) -> Option<Seq<u8>>
    decreases s.len(),
{
    if s.len() == 0 {
        None
    } else if s.last().0@ == k {
        Some(s.last().1@)
    } else {
        latest(s.drop_last(), k)
    }
}

/// A store in memory: pairs of key and value in the order of their writing.
pub struct MemStore {
    pairs: Vec<(Vec<u8>, Vec<u8>)>,
}

impl MemStore {
    /// A store that holds nothing.
    pub fn new() -> (s: Self)
        ensures
            s.contents() == Map::<Seq<u8>, Seq<u8>>::empty(),
    {
        let s = MemStore { pairs: Vec::new() };
        assert(s.contents() =~= Map::<Seq<u8>, Seq<u8>>::empty());
        s
    }

    /// The place of the last pair with the key, if there is one.
    fn position(&self, key: &Vec<u8>) -> (r: Option<usize>)
        ensures
            match r {
                Some(i) => i < self.pairs@.len() && self.pairs@[i as int].0@ == key@ && latest(
                    self.pairs@,
                    key@,
                ) == Some(self.pairs@[i as int].1@),
                None => latest(self.pairs@, key@) is None,
            },
    {
        let mut i = self.pairs.len();
        assert(self.pairs@.take(i as int) =~= self.pairs@);
        while i > 0
            invariant
                i <= self.pairs@.len(),
                latest(self.pairs@, key@) == latest(self.pairs@.take(i as int), key@),
            decreases i,
        {
            let ghost head = self.pairs@.take(i as int);
            assert(head.last() == self.pairs@[i - 1]);
            assert(head.drop_last() =~= self.pairs@.take(i - 1));
            if same_bytes(&self.pairs[i - 1].0, key) {
                return Some(i - 1);
            }
            i -= 1;
        }
        assert(self.pairs@.take(0).len() == 0);
        None
    }
}

/// Whether two byte strings are the same.
pub fn same_bytes(a: &Vec<u8>, b: &Vec<u8>) -> (r: bool)
    ensures
        r == (a@ == b@),
{
    if a.len() != b.len() {
        return false;
    }
    let mut i: usize = 0;
    while i < a.len()
        invariant
            a@.len() == b@.len(),
            i <= a@.len(),
            forall|j: int| 0 <= j < i ==> a@[j] == b@[j],
        decreases a@.len() - i,
    {
        if a[i] != b[i] {
            return false;
        }
        i += 1;
    }
    assert(a@ =~= b@);
    true
}

impl ReadableMap<Vec<u8>, Vec<u8>> for MemStore {
    closed spec fn contents(&self) -> Map<Seq<u8>, Seq<u8>> {
        Map::new(
            |k: Seq<u8>| latest(self.pairs@, k) is Some,
            |k: Seq<u8>| latest(self.pairs@, k)->0,
        )
    }

    /// The value under `key`, if there is one. A store in memory does not
    /// fail.
    fn get(&self, key: &Vec<u8>) -> (r: Result<Option<Vec<u8>>, StoreError>)
        ensures
            r is Ok,
    {
        match self.position(key) {
            Some(i) => Ok(Some(self.pairs[i].1.clone())),
            None => Ok(None),
        }
    }

    /// Whether there is a value under `key`. A store in memory does not fail.
    fn has(&self, key: &Vec<u8>) -> (r: Result<bool, StoreError>)
        ensures
            r is Ok,
    {
        Ok(self.position(key).is_some())
    }
}

impl MemStore {
    /// The pairs of the store but for those with the key.
    fn without_key(&self, key: &Vec<u8>) -> (out: Vec<(Vec<u8>, Vec<u8>)>)
        ensures
            forall|q: Seq<u8>|
                #[trigger] latest(out@, q) == (if q == key@ {
                    None
                } else {
                    latest(self.pairs@, q)
                }),
    {
        let mut out: Vec<(Vec<u8>, Vec<u8>)> = Vec::new();
        let mut i: usize = 0;
        assert(self.pairs@.take(0) =~= Seq::<(Vec<u8>, Vec<u8>)>::empty());
        while i < self.pairs.len()
            invariant
                i <= self.pairs@.len(),
                forall|q: Seq<u8>|
                    #[trigger] latest(out@, q) == (if q == key@ {
                        None
                    } else {
                        latest(self.pairs@.take(i as int), q)
                    }),
            decreases self.pairs@.len() - i,
        {
            let ghost head = self.pairs@.take(i as int);
            let ghost next = self.pairs@.take(i + 1);
            let ghost kept = out@;
            assert(next.last() == self.pairs@[i as int]);
            assert(next.drop_last() =~= head);
            if !same_bytes(&self.pairs[i].0, key) {
                let k = self.pairs[i].0.clone();
                let v = self.pairs[i].1.clone();
                out.push((k, v));
                assert(out@.drop_last() =~= kept);
                assert(out@.last().0@ == self.pairs@[i as int].0@);
                assert(out@.last().1@ == self.pairs@[i as int].1@);
            }
            proof {
                assert forall|q: Seq<u8>|
                    #[trigger] latest(out@, q) == (if q == key@ {
                        None
                    } else {
                        latest(next, q)
                    }) by {
                    assert(latest(kept, q) == (if q == key@ {
                        None
                    } else {
                        latest(head, q)
                    }));
                }
            }
            i += 1;
        }
        assert(self.pairs@.take(i as int) =~= self.pairs@);
        out
    }
}

impl MutableMap<Vec<u8>, Vec<u8>> for MemStore {
    /// Puts `value` under `key`. A store in memory does not fail.
    fn set(&mut self, key: &Vec<u8>, value: &Vec<u8>) -> (r: Result<(), StoreError>)
        ensures
            r is Ok,
    {
        let mut pairs = self.without_key(key);
        let ghost kept = pairs@;
        pairs.push((key.clone(), value.clone()));
        assert(pairs@.drop_last() =~= kept);
        self.pairs = pairs;
        proof {
            assert forall|q: Seq<u8>|
                #[trigger] latest(self.pairs@, q) == (if q == key@ {
                    Some(value@)
                } else {
                    latest(old(self).pairs@, q)
                }) by {
                assert(latest(kept, q) == (if q == key@ {
                    None
                } else {
                    latest(old(self).pairs@, q)
                }));
            }
        }
        assert(self.contents() =~= old(self).contents().insert(key@, value@));
        Ok(())
    }

    /// Takes away what is under `key`. A store in memory does not fail.
    fn delete(&mut self, key: &Vec<u8>) -> (r: Result<(), StoreError>)
        ensures
            r is Ok,
    {
        self.pairs = self.without_key(key);
        assert(self.contents() =~= old(self).contents().remove(key@));
        Ok(())
    }
}

/// Clones of numbers and of byte strings have the view of what was cloned.
pub proof fn lemma_clones_keep_views()
    ensures
        crate::balance::clone_keeps_view::<u64>(),
        crate::balance::clone_keeps_view::<Vec<u8>>(),
{
    assert forall|a: Vec<u8>, b: Vec<u8>| #[trigger] cloned(a, b) implies a@ == b@ by {
        if a != b {
            assert(a@ =~= b@);
        }
    }
}

/// A context for maps from numbers to byte strings: the natural order,
/// BLAKE2b, and a new store in memory with [`LittleEndian`] and [`Plain`] as
/// its marshallers.
pub fn numbers_in_memory() -> (ctx: TreeContext<u64, Vec<u8>>)
    ensures
        vstd::relations::total_ordering(ctx.order()),
        ctx.store is Some,
        forall|d: Seq<u8>| #[trigger] (ctx.frame().digest)(d) == blake2b(d),
        forall|k: u64| #[trigger] (ctx.frame().key_bytes)(k) == spec_u64_to_le_bytes(k),
        forall|v: Seq<u8>| #[trigger] (ctx.frame().value_bytes)(v) == v,
{
    proof {
        lemma_auto_spec_u64_to_from_le_bytes();
    }
    let store = NodeStore {
        store: Box::new(MemStore::new()),
        key_marshaller: Box::new(LittleEndian),
        value_marshaller: Box::new(Plain),
    };
    let ctx = TreeContext {
        key_to_canonical_bytes: Box::new(LittleEndian),
        value_to_canonical_bytes: Box::new(Plain),
        new_digest: Box::new(Blake2bFactory),
        store: Some(Box::new(store)),
        comparator: Box::new(NaturalOrder),
    };
    ctx
}

/// Byte strings in the order of a dictionary: a byte string is below another
/// if it is a beginning of it, or if it has the smaller byte where the two
/// first differ.
pub open spec fn lex_le(a: Seq<u8>, b: Seq<u8>) -> bool
    decreases a.len(),
{
    if a.len() == 0 {
        true
    } else if b.len() == 0 {
        false
    } else if a[0] != b[0] {
        a[0] < b[0]
    } else {
        lex_le(a.drop_first(), b.drop_first())
    }
}

/// Where two byte strings first differ decides their order. `d` is that
/// place, or the length of the shorter one where it is a beginning of the
/// other.
pub proof fn lemma_lex_decides(a: Seq<u8>, b: Seq<u8>, d: nat)
    requires
        d <= a.len(),
        d <= b.len(),
        forall|j: int| 0 <= j < d ==> a[j] == b[j],
        d < a.len() && d < b.len() ==> a[d as int] != b[d as int],
    ensures
        lex_le(a, b) == (d == a.len() || (d < b.len() && a[d as int] < b[d as int])),
        (a == b) == (d == a.len() && d == b.len()),
    decreases d,
{
    if d == 0 {
        if a.len() == 0 && b.len() == 0 {
            assert(a =~= b);
        }
    } else {
        let x = a.drop_first();
        let y = b.drop_first();
        assert(a[0] == b[0]);
        assert forall|j: int| 0 <= j < d - 1 implies x[j] == y[j] by {
            assert(x[j] == a[j + 1] && y[j] == b[j + 1]);
        }
        lemma_lex_decides(x, y, (d - 1) as nat);
        if d == a.len() && d == b.len() {
            assert(a =~= b);
        }
    }
}

/// The place where two byte strings first differ, with the byte there, if
/// there is one.
pub open spec fn first_difference(a: Seq<u8>, b: Seq<u8>) -> nat
    decreases a.len(),
{
    if a.len() == 0 || b.len() == 0 || a[0] != b[0] {
        0
    } else {
        1 + first_difference(a.drop_first(), b.drop_first())
    }
}

/// What [`first_difference`] is.
pub proof fn lemma_first_difference(a: Seq<u8>, b: Seq<u8>)
    ensures
        first_difference(a, b) <= a.len(),
        first_difference(a, b) <= b.len(),
        forall|j: int| 0 <= j < first_difference(a, b) ==> a[j] == b[j],
        first_difference(a, b) < a.len() && first_difference(a, b) < b.len() ==> a[first_difference(
            a,
            b,
        ) as int] != b[first_difference(a, b) as int],
    decreases a.len(),
{
    if !(a.len() == 0 || b.len() == 0 || a[0] != b[0]) {
        let x = a.drop_first();
        let y = b.drop_first();
        lemma_first_difference(x, y);
        let d = first_difference(x, y);
        assert forall|j: int| 0 <= j < d + 1 implies a[j] == b[j] by {
            if j > 0 {
                assert(x[j - 1] == a[j] && y[j - 1] == b[j]);
            }
        }
        if d < x.len() && d < y.len() {
            assert(x[d as int] == a[d as int + 1] && y[d as int] == b[d as int + 1]);
        }
    }
}

/// The order of a dictionary is a total order.
pub proof fn lemma_lex_total_order()
    ensures
        vstd::relations::total_ordering(|a: Seq<u8>, b: Seq<u8>| lex_le(a, b)),
{
    let le = |a: Seq<u8>, b: Seq<u8>| lex_le(a, b);
    assert forall|a: Seq<u8>| #[trigger] le(a, a) by {
        lemma_first_difference(a, a);
        lemma_lex_decides(a, a, first_difference(a, a));
    }
    assert forall|a: Seq<u8>, b: Seq<u8>| #[trigger] le(a, b) && #[trigger] le(b, a) implies a
        == b by {
        lemma_first_difference(a, b);
        let d = first_difference(a, b);
        lemma_lex_decides(a, b, d);
        assert forall|j: int| 0 <= j < d implies b[j] == a[j] by {
        }
        lemma_lex_decides(b, a, d);
    }
    assert forall|a: Seq<u8>, b: Seq<u8>| #[trigger] le(a, b) || #[trigger] le(b, a) by {
        lemma_first_difference(a, b);
        let d = first_difference(a, b);
        lemma_lex_decides(a, b, d);
        assert forall|j: int| 0 <= j < d implies b[j] == a[j] by {
        }
        lemma_lex_decides(b, a, d);
    }
    assert forall|a: Seq<u8>, b: Seq<u8>, c: Seq<u8>| #[trigger]
        le(a, b) && #[trigger] le(b, c) implies le(a, c) by {
        lemma_lex_transitive(a, b, c);
    }
}

/// The order of a dictionary is transitive.
pub proof fn lemma_lex_transitive(a: Seq<u8>, b: Seq<u8>, c: Seq<u8>)
    requires
        lex_le(a, b),
        lex_le(b, c),
    ensures
        lex_le(a, c),
    decreases a.len(),
{
    if a.len() > 0 && b.len() > 0 && c.len() > 0 && a[0] == b[0] && b[0] == c[0] {
        lemma_lex_transitive(a.drop_first(), b.drop_first(), c.drop_first());
    }
}

/// The place where two byte strings first differ.
pub fn differ_at(a: &Vec<u8>, b: &Vec<u8>) -> (d: usize)
    ensures
        d == first_difference(a@, b@),
        d <= a@.len(),
        d <= b@.len(),
        lex_le(a@, b@) == (d == a@.len() || (d < b@.len() && a@[d as int] < b@[d as int])),
        (a@ == b@) == (d == a@.len() && d == b@.len()),
{
    let mut i: usize = 0;
    while i < a.len() && i < b.len() && a[i] == b[i]
        invariant
            i <= a@.len(),
            i <= b@.len(),
            forall|j: int| 0 <= j < i ==> a@[j] == b@[j],
        decreases a@.len() - i,
    {
        i += 1;
    }
    proof {
        lemma_first_difference(a@, b@);
        let d = first_difference(a@, b@);
        if d < i {
            assert(a@[d as int] == b@[d as int]);
        }
        if i < d {
            assert(a@[i as int] == b@[i as int]);
        }
        lemma_lex_decides(a@, b@, i as nat);
    }
    i
}

/// Byte strings in the order of a dictionary.
pub struct Lexicographic;

impl Comparator<Vec<u8>> for Lexicographic {
    open spec fn le(&self, a: Seq<u8>, b: Seq<u8>) -> bool {
        lex_le(a, b)
    }

    fn compare(&self, a: &Vec<u8>, b: &Vec<u8>) -> (o: Ordering) {
        let d = differ_at(a, b);
        if d < a.len() && d < b.len() {
            if a[d] < b[d] {
                Ordering::Less
            } else {
                Ordering::Greater
            }
        } else if a.len() == b.len() {
            Ordering::Equal
        } else if a.len() < b.len() {
            Ordering::Less
        } else {
            Ordering::Greater
        }
    }
}

/// A context for maps from byte strings to byte strings: the order of a
/// dictionary, BLAKE2b, and a new store in memory with [`Plain`] as its
/// marshaller.
pub fn bytes_in_memory() -> (ctx: TreeContext<Vec<u8>, Vec<u8>>)
    ensures
        vstd::relations::total_ordering(ctx.order()),
        ctx.store is Some,
        forall|d: Seq<u8>| #[trigger] (ctx.frame().digest)(d) == blake2b(d),
        forall|k: Seq<u8>| #[trigger] (ctx.frame().key_bytes)(k) == k,
        forall|v: Seq<u8>| #[trigger] (ctx.frame().value_bytes)(v) == v,
{
    proof {
        lemma_lex_total_order();
    }
    let store = NodeStore {
        store: Box::new(MemStore::new()),
        key_marshaller: Box::new(Plain),
        value_marshaller: Box::new(Plain),
    };
    let ctx = TreeContext {
        key_to_canonical_bytes: Box::new(Plain),
        value_to_canonical_bytes: Box::new(Plain),
        new_digest: Box::new(Blake2bFactory),
        store: Some(Box::new(store)),
        comparator: Box::new(Lexicographic),
    };
    assert(ctx.order() =~= (|a: Seq<u8>, b: Seq<u8>| lex_le(a, b)));
    ctx
}

} // verus!
